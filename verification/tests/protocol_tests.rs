use pepper_core::client::ClientHandle;
use pepper_core::key::Key;
use pepper_core::protocol::{
    serialize_client_event, ClientEvent, ClientEventIter, ClientEventReceiver, ServerEvent,
    TargetClient,
};

fn check_next_event(events: &mut ClientEventIter, receiver: &ClientEventReceiver) -> bool {
    match events.next(receiver) {
        Some(ClientEvent::Key(_, Key::Char('x'))) => true,
        Some(ClientEvent::Key(_, Key::Char(c))) => {
            panic!("received char {} instead of x", c);
        }
        Some(_) => panic!("received other kind of event"),
        None => false,
    }
}

#[test]
fn client_event_deserialize_splitted() {
    const EVENT_COUNT: usize = 100;

    let client_handle = ClientHandle::from_index(0).unwrap();
    let event = ClientEvent::Key(TargetClient::Sender, Key::Char('x'));
    let mut bytes = Vec::new();
    for _ in 0..EVENT_COUNT {
        serialize_client_event(&event, &mut bytes);
    }
    assert_eq!(700, bytes.len());

    let mut event_count = 0;
    let mut receiver = ClientEventReceiver::new();

    let mut events = receiver.receive_events(client_handle, &bytes[..512]);
    while check_next_event(&mut events, &receiver) {
        event_count += 1;
    }
    assert_eq!(511, events.read_len());
    events.finish(&mut receiver);

    let mut events = receiver.receive_events(client_handle, &bytes[512..]);
    while check_next_event(&mut events, &receiver) {
        event_count += 1;
    }
    events.finish(&mut receiver);

    assert_eq!(0, receiver.buffered_len(0));
    assert_eq!(EVENT_COUNT, event_count);
}

#[test]
fn client_event_round_trips() {
    let events = [
        ClientEvent::Key(TargetClient::Sender, Key::Char('x')),
        ClientEvent::Key(TargetClient::Focused, Key::Ctrl('c')),
        ClientEvent::Resize(120, 40),
        ClientEvent::Command(TargetClient::Focused, b"open file".to_vec()),
        ClientEvent::StdinInput(TargetClient::Sender, b"piped bytes".to_vec()),
    ];
    let mut bytes = Vec::new();
    for event in &events {
        serialize_client_event(event, &mut bytes);
    }
    let receiver_handle = ClientHandle::from_index(3).unwrap();
    let mut receiver = ClientEventReceiver::new();
    let mut iter = receiver.receive_events(receiver_handle, &bytes);
    for expected in &events {
        let got = iter.next(&receiver).unwrap();
        assert_eq!(*expected, got);
    }
    assert!(iter.next(&receiver).is_none());
    iter.finish(&mut receiver);
    assert_eq!(0, receiver.buffered_len(3));
}

#[test]
fn partial_event_stays_buffered() {
    let event = ClientEvent::Command(TargetClient::Sender, b"very long command".to_vec());
    let mut bytes = Vec::new();
    serialize_client_event(&event, &mut bytes);
    let cut = bytes.len() - 5;

    let handle = ClientHandle::from_index(1).unwrap();
    let mut receiver = ClientEventReceiver::new();
    let mut iter = receiver.receive_events(handle, &bytes[..cut]);
    assert!(iter.next(&receiver).is_none());
    assert_eq!(0, iter.read_len());
    iter.finish(&mut receiver);
    assert_eq!(cut, receiver.buffered_len(1));

    let mut iter = receiver.receive_events(handle, &bytes[cut..]);
    assert_eq!(event, iter.next(&receiver).unwrap());
    assert!(iter.next(&receiver).is_none());
    iter.finish(&mut receiver);
    assert_eq!(0, receiver.buffered_len(1));
}

#[test]
fn server_event_round_trips() {
    let events = [
        ServerEvent::Display(b"screen bytes".to_vec()),
        ServerEvent::Suspend,
        ServerEvent::StdoutOutput(b"out".to_vec()),
    ];
    let mut bytes = Vec::new();
    for event in &events {
        event.serialize(&mut bytes);
    }
    let mut at = 0;
    for expected in &events {
        let (got, next) = ServerEvent::deserialize(&bytes, at).unwrap();
        assert_eq!(*expected, got);
        at = next;
    }
    assert_eq!(bytes.len(), at);
}

#[test]
fn display_frame_header() {
    // a display frame: header space, then payload, then the header in place
    let payload = b"rendered";
    let mut buf = vec![0u8; ServerEvent::bytes_variant_header_len()];
    buf.extend_from_slice(payload);
    let event = ServerEvent::Display(Vec::new());
    event.serialize_bytes_variant_header(&mut buf);
    assert_eq!(0, buf[0]);
    let len = u32::from_le_bytes([buf[1], buf[2], buf[3], buf[4]]) as usize;
    assert_eq!(payload.len(), len);
    assert_eq!(payload, &buf[5..]);
}
