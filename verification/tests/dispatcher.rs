use tcp_tunnel::dispatcher::{Dispatch, Dispatcher};
use tcp_tunnel::message::{DispatcherMessage, DispatcherTunnelMessage};

fn close(id: u32) -> DispatcherTunnelMessage {
    DispatcherTunnelMessage { id, payload: DispatcherMessage::CloseConnection }
}

fn data(id: u32, bytes: &[u8], seq: u32) -> DispatcherTunnelMessage {
    DispatcherTunnelMessage { id, payload: DispatcherMessage::IncomingData(bytes.to_vec(), seq) }
}

#[test]
fn register_hands_out_consecutive_ids() {
    let mut d: Dispatcher<&str> = Dispatcher::new();
    assert_eq!(d.register_connection("a").unwrap(), 0);
    assert_eq!(d.register_connection("b").unwrap(), 1);
    assert_eq!(d.register_connection("c").unwrap(), 2);
    assert_eq!(d.len(), 3);
    assert!(d.contains(0) && d.contains(1) && d.contains(2));
}

#[test]
fn register_skips_taken_ids_by_odd_steps() {
    let mut d: Dispatcher<&str> = Dispatcher::new();
    assert_eq!(d.register_connection("a").unwrap(), 0);
    d.insert_connection(1, "x");
    d.insert_connection(2, "y");
    // candidates from 1: 1, 2, 4, 6, ...
    assert_eq!(d.register_connection("b").unwrap(), 4);
    assert!(!d.contains(3));
    // the next search starts two past the chosen id
    assert_eq!(d.register_connection("c").unwrap(), 6);
    assert_eq!(d.len(), 5);
}

#[test]
fn register_reuses_freed_ids_only_when_reached() {
    let mut d: Dispatcher<u8> = Dispatcher::new();
    assert_eq!(d.register_connection(10).unwrap(), 0);
    assert_eq!(d.register_connection(11).unwrap(), 1);
    assert_eq!(d.dispatch_message(close(0)), Dispatch::Close(Some(10)));
    assert_eq!(d.register_connection(12).unwrap(), 2);
}

#[test]
fn close_unregisters_and_returns_channel() {
    let mut d: Dispatcher<u8> = Dispatcher::new();
    let id = d.register_connection(5).unwrap();
    assert_eq!(d.dispatch_message(close(id)), Dispatch::Close(Some(5)));
    assert!(!d.contains(id));
    assert_eq!(d.dispatch_message(close(id)), Dispatch::Close(None));
    assert_eq!(d.dispatch_message(data(id, b"late", 3)), Dispatch::Unrouted(data(id, b"late", 3)));
}

#[test]
fn data_goes_to_registered_channel() {
    let mut d: Dispatcher<u8> = Dispatcher::new();
    let id = d.register_connection(5).unwrap();
    assert_eq!(
        d.dispatch_message(data(id, b"abc", 0)),
        Dispatch::Deliver(id, DispatcherMessage::IncomingData(b"abc".to_vec(), 0))
    );
    assert!(d.contains(id));
}

#[test]
fn data_for_unknown_connection_is_unrouted() {
    let mut d: Dispatcher<u8> = Dispatcher::new();
    assert_eq!(d.dispatch_message(data(9, b"x", 1)), Dispatch::Unrouted(data(9, b"x", 1)));
    assert_eq!(d.len(), 0);
    d.insert_connection(9, 77);
    assert_eq!(
        d.dispatch_message(data(9, b"x", 1)),
        Dispatch::Deliver(9, DispatcherMessage::IncomingData(b"x".to_vec(), 1))
    );
}

#[test]
fn channel_mut_changes_registered_channel() {
    let mut d: Dispatcher<u32> = Dispatcher::new();
    let id = d.register_connection(1).unwrap();
    *d.channel_mut(id).unwrap() += 41;
    assert!(d.channel_mut(id + 1).is_none());
    assert_eq!(d.dispatch_message(close(id)), Dispatch::Close(Some(42)));
}
