//! Messages that travel between the tunnel and the TCP connections.
use vstd::prelude::*;

verus! {

/// Identifies one tunnelled TCP connection on both ends of the tunnel.
pub type ConnectionId = u32;

/// What happens on a connection.
#[derive(Debug, PartialEq, Eq)]
pub enum DispatcherMessage {
    /// The connection is closed.
    CloseConnection,
    /// Bytes read from the connection, with their sequence number.
    IncomingData(Vec<u8>, u32),
}

/// A message together with the connection it belongs to.
#[derive(Debug, PartialEq, Eq)]
pub struct DispatcherTunnelMessage {
    pub id: ConnectionId,
    pub payload: DispatcherMessage,
}

/// The mathematical value of a `DispatcherMessage`.
pub enum PayloadView {
    Close,
    Data(Seq<u8>, u32),
}

/// The mathematical value of a `DispatcherTunnelMessage`.
pub struct MessageView {
    pub id: ConnectionId,
    pub payload: PayloadView,
}

impl View for DispatcherMessage {
    type V = PayloadView;

    open spec fn view(&self) -> PayloadView {
        match self {
            DispatcherMessage::CloseConnection => PayloadView::Close,
            DispatcherMessage::IncomingData(data, seq) => PayloadView::Data(data@, *seq),
        }
    }
}

impl View for DispatcherTunnelMessage {
    type V = MessageView;

    open spec fn view(&self) -> MessageView {
        MessageView { id: self.id, payload: self.payload@ }
    }
}

} // verus!
