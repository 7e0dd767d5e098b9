//! The decisions of the two ends of a tunnelled TCP connection.
//!
//! The read end forwards what it reads from the socket into the tunnel,
//! numbering the chunks, and tells the tunnel when the socket is done. The
//! write end writes what the tunnel sends for the connection into the socket
//! until the connection closes.
use crate::message::{ConnectionId, DispatcherMessage, DispatcherTunnelMessage, MessageView, PayloadView};
use vstd::prelude::*;

verus! {

/// What one read from the socket gave.
pub enum ReadOutcome {
    /// The bytes read; none when the socket reached its end.
    Read(Vec<u8>),
    /// The read failed.
    Failed,
}

/// What the read end does after sending a message.
#[derive(Debug, PartialEq, Eq, Clone, Copy)]
pub enum ReadNext {
    /// Reads on; the next chunk carries this sequence number.
    Continue(u32),
    /// Stops: the connection is closed.
    Stop,
    /// The chunk just sent carried the last sequence number there is; the
    /// count cannot go on.
    SequenceExhausted,
}

/// The bytes that a read gave; `None` when it failed.
pub open spec fn outcome_view(outcome: &ReadOutcome) -> Option<Seq<u8>> {
    match outcome {
        ReadOutcome::Read(d) => Some(d@),
        ReadOutcome::Failed => None,
    }
}

/// The message that the read end of connection `id` sends after a read
/// that gave `read` (`None`: the read failed), when the next chunk's
/// sequence number is `seq`, and what the read end does next.
pub open spec fn read_step(id: ConnectionId, seq: u32, read: Option<Seq<u8>>) -> (
    MessageView,
    ReadNext,
) {
    match read {
        Some(bytes) if bytes.len() > 0 => (
            MessageView { id, payload: PayloadView::Data(bytes, seq) },
            if seq < u32::MAX {
                ReadNext::Continue((seq + 1) as u32)
            } else {
                ReadNext::SequenceExhausted
            },
        ),
        _ => (MessageView { id, payload: PayloadView::Close }, ReadNext::Stop),
    }
}

/// The messages that the read end of connection `id` sends, starting at
/// sequence number `seq`, when its reads give `reads` (`None`: a failed
/// read), up to where it stops.
pub open spec fn read_run(id: ConnectionId, seq: u32, reads: Seq<Option<Seq<u8>>>) -> Seq<
    MessageView,
>
    decreases reads.len(),
{
    if reads.len() == 0 {
        Seq::empty()
    } else {
        let (m, next) = read_step(id, seq, reads[0]);
        match next {
            ReadNext::Continue(n) => seq![m] + read_run(id, n, reads.drop_first()),
            _ => seq![m],
        }
    }
}

/// A read that failed or gave no bytes.
pub open spec fn ends_reading(read: Option<Seq<u8>>) -> bool {
    match read {
        None => true,
        Some(bytes) => bytes.len() == 0,
    }
}

/// A connection's read end numbers the chunks it reads from `seq` up, one by
/// one; at the first read that fails or gives no bytes it sends exactly one
/// message that closes the connection and stops, whatever later reads would
/// give.
pub proof fn lemma_read_run(id: ConnectionId, seq: u32, reads: Seq<Option<Seq<u8>>>, k: nat)
    requires
        k < reads.len(),
        forall|i: int| 0 <= i < k ==> !ends_reading(#[trigger] reads[i]),
        ends_reading(reads[k as int]),
        seq + k <= u32::MAX,
    ensures
        read_run(id, seq, reads).len() == k + 1,
        forall|i: int|
            0 <= i < k ==> #[trigger] read_run(id, seq, reads)[i] == (MessageView {
                id,
                payload: PayloadView::Data(reads[i]->Some_0, (seq + i) as u32),
            }),
        read_run(id, seq, reads)[k as int] == (MessageView { id, payload: PayloadView::Close }),
    decreases k,
{
    if k == 0 {
        assert(read_step(id, seq, reads[0]) == (MessageView { id, payload: PayloadView::Close }, ReadNext::Stop));
    } else {
        assert(!ends_reading(reads[0]));
        let rest = reads.drop_first();
        assert forall|i: int| 0 <= i < k - 1 implies !ends_reading(#[trigger] rest[i]) by {
            assert(rest[i] == reads[i + 1]);
        }
        assert(rest[k - 1] == reads[k as int]);
        lemma_read_run(id, (seq + 1) as u32, rest, (k - 1) as nat);
        let run = read_run(id, seq, reads);
        assert forall|i: int| 0 <= i < k implies #[trigger] run[i] == (MessageView {
            id,
            payload: PayloadView::Data(reads[i]->Some_0, (seq + i) as u32),
        }) by {
            if i > 0 {
                assert(run[i] == read_run(id, (seq + 1) as u32, rest)[i - 1]);
                assert(rest[i - 1] == reads[i]);
            }
        }
    }
}

/// The message that the read end sends after `outcome`, and what it does
/// next.
///
/// Bytes become data carrying `seq_count`, after which the count goes on
/// (or is exhausted, after `u32::MAX`); the end of the socket or a failed
/// read becomes the message that closes the connection, after which the
/// read end stops.
pub fn read_end_step(connection_id: ConnectionId, seq_count: u32, outcome: ReadOutcome) -> (r: (
    DispatcherTunnelMessage,
    ReadNext,
))
    ensures
        (r.0@, r.1) == read_step(connection_id, seq_count, outcome_view(&outcome)),
        outcome is Failed ==> r.0@ == (MessageView { id: connection_id, payload: PayloadView::Close })
            && r.1 == ReadNext::Stop,
        outcome matches ReadOutcome::Read(d) ==> (d@.len() == 0 ==> r.0@ == (MessageView {
            id: connection_id,
            payload: PayloadView::Close,
        }) && r.1 == ReadNext::Stop),
        outcome matches ReadOutcome::Read(d) ==> (d@.len() > 0 ==> r.0@ == (MessageView {
            id: connection_id,
            payload: PayloadView::Data(d@, seq_count),
        })),
        outcome matches ReadOutcome::Read(d) ==> (d@.len() > 0 && seq_count < u32::MAX ==> r.1
            == ReadNext::Continue((seq_count + 1) as u32)),
        outcome matches ReadOutcome::Read(d) ==> (d@.len() > 0 && seq_count == u32::MAX ==> r.1
            == ReadNext::SequenceExhausted),
{
    match outcome {
        ReadOutcome::Read(data) => {
            if data.len() == 0 {
                (
                    DispatcherTunnelMessage {
                        id: connection_id,
                        payload: DispatcherMessage::CloseConnection,
                    },
                    ReadNext::Stop,
                )
            } else {
                (
                    DispatcherTunnelMessage {
                        id: connection_id,
                        payload: DispatcherMessage::IncomingData(data, seq_count),
                    },
                    if seq_count < u32::MAX {
                        ReadNext::Continue(seq_count + 1)
                    } else {
                        ReadNext::SequenceExhausted
                    },
                )
            }
        },
        ReadOutcome::Failed => (
            DispatcherTunnelMessage { id: connection_id, payload: DispatcherMessage::CloseConnection },
            ReadNext::Stop,
        ),
    }
}

/// What the write end writes into the socket for `msg`, the next message
/// from the tunnel (`None` once the tunnel side hung up); `None` when the
/// write end stops and shuts the socket down.
pub fn write_end_step(msg: Option<DispatcherMessage>) -> (r: Option<Vec<u8>>)
    ensures
        msg matches Some(DispatcherMessage::IncomingData(d, _)) ==> r == Some(d),
        !(msg matches Some(DispatcherMessage::IncomingData(_, _))) ==> r is None,
{
    match msg {
        Some(DispatcherMessage::IncomingData(data, _seq_num)) => Some(data),
        _ => None,
    }
}

/// The message that tells the other end of the tunnel that connection
/// `connection_id` is closed, sent when no connection could be opened for a
/// message that arrived for it.
pub fn refused_connection_reply(connection_id: ConnectionId) -> (m: DispatcherTunnelMessage)
    ensures
        m@ == (MessageView { id: connection_id, payload: PayloadView::Close }),
{
    DispatcherTunnelMessage { id: connection_id, payload: DispatcherMessage::CloseConnection }
}

} // verus!
