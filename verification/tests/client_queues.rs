use lobby_relay::client::{Inbox, Outbox};
use lobby_relay::protocol::{ClientMessage, ServerMessage};

#[test]
fn outbox_queues_until_open_then_flushes_in_order() {
    let mut outbox = Outbox::new();
    assert!(!outbox.is_open());
    assert_eq!(outbox.send(ClientMessage::HelloFromClient), None);
    assert_eq!(outbox.send(ClientMessage::HelloFromClient), None);
    let frames = outbox.on_open();
    assert_eq!(frames, vec![vec![0u8, 0, 0, 0], vec![0u8, 0, 0, 0]]);
    assert!(outbox.is_open());
    assert_eq!(
        outbox.send(ClientMessage::HelloFromClient),
        Some(vec![0u8, 0, 0, 0])
    );
}

#[test]
fn open_outbox_flushes_nothing() {
    let mut outbox = Outbox::new();
    let frames = outbox.on_open();
    assert_eq!(frames, Vec::<Vec<u8>>::new());
}

#[test]
fn inbox_keeps_decoded_messages_in_order() {
    let mut inbox = Inbox::new();
    assert_eq!(inbox.len(), 0);
    assert!(inbox.on_message(&vec![0u8, 0, 0, 0]));
    assert!(inbox.on_message(&vec![0u8, 0, 0, 0, 5]));
    assert_eq!(inbox.len(), 2);
    assert_eq!(inbox.pop(), Some(ServerMessage::HelloFromServer));
    assert_eq!(inbox.pop(), Some(ServerMessage::HelloFromServer));
    assert_eq!(inbox.pop(), None);
}

#[test]
fn inbox_drops_malformed_frames_and_keeps_going() {
    let mut inbox = Inbox::new();
    assert!(!inbox.on_message(&vec![9u8, 9]));
    assert_eq!(inbox.len(), 0);
    assert!(inbox.on_message(&vec![0u8, 0, 0, 0]));
    assert_eq!(inbox.len(), 1);
    assert_eq!(inbox.pop(), Some(ServerMessage::HelloFromServer));
}
