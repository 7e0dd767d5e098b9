use tcp_tunnel::message::{DispatcherMessage, DispatcherTunnelMessage};
use tcp_tunnel::tcp::{read_end_step, refused_connection_reply, write_end_step, ReadNext, ReadOutcome};

#[test]
fn read_end_numbers_chunks() {
    let (m, next) = read_end_step(4, 0, ReadOutcome::Read(b"ab".to_vec()));
    assert_eq!(
        m,
        DispatcherTunnelMessage { id: 4, payload: DispatcherMessage::IncomingData(b"ab".to_vec(), 0) }
    );
    assert_eq!(next, ReadNext::Continue(1));
    let (m, next) = read_end_step(4, 1, ReadOutcome::Read(b"c".to_vec()));
    assert_eq!(
        m,
        DispatcherTunnelMessage { id: 4, payload: DispatcherMessage::IncomingData(b"c".to_vec(), 1) }
    );
    assert_eq!(next, ReadNext::Continue(2));
}

#[test]
fn read_end_closes_at_end_of_stream() {
    let (m, next) = read_end_step(4, 7, ReadOutcome::Read(Vec::new()));
    assert_eq!(m, DispatcherTunnelMessage { id: 4, payload: DispatcherMessage::CloseConnection });
    assert_eq!(next, ReadNext::Stop);
}

#[test]
fn read_end_closes_on_failure() {
    let (m, next) = read_end_step(9, 2, ReadOutcome::Failed);
    assert_eq!(m, DispatcherTunnelMessage { id: 9, payload: DispatcherMessage::CloseConnection });
    assert_eq!(next, ReadNext::Stop);
}

#[test]
fn read_end_last_sequence_number() {
    let (m, next) = read_end_step(1, u32::MAX - 1, ReadOutcome::Read(vec![0]));
    assert_eq!(
        m,
        DispatcherTunnelMessage {
            id: 1,
            payload: DispatcherMessage::IncomingData(vec![0], u32::MAX - 1)
        }
    );
    assert_eq!(next, ReadNext::Continue(u32::MAX));
}

#[test]
fn write_end_writes_data_and_stops_on_close() {
    assert_eq!(
        write_end_step(Some(DispatcherMessage::IncomingData(b"xyz".to_vec(), 3))),
        Some(b"xyz".to_vec())
    );
    assert_eq!(write_end_step(Some(DispatcherMessage::CloseConnection)), None);
    assert_eq!(write_end_step(None), None);
}

#[test]
fn refused_connection_is_closed() {
    assert_eq!(
        refused_connection_reply(12),
        DispatcherTunnelMessage { id: 12, payload: DispatcherMessage::CloseConnection }
    );
}

#[test]
fn read_end_sends_last_sequence_number_then_is_exhausted() {
    let (m, next) = read_end_step(1, u32::MAX, ReadOutcome::Read(vec![5]));
    assert_eq!(
        m,
        DispatcherTunnelMessage { id: 1, payload: DispatcherMessage::IncomingData(vec![5], u32::MAX) }
    );
    assert_eq!(next, ReadNext::SequenceExhausted);
}
