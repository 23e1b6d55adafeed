use pepper_core::buffer::{Buffer, BufferCapabilities};
use pepper_core::events::{BufferHandle, EditorEvent, EditorEventIter, EditorEventQueue};
use pepper_core::position::{BufferPosition, BufferRange};
use pepper_core::server::{
    on_wait_elapsed, ClientWriteQueue, LoopTimeout, PlatformProcessHandle, PlatformRequest,
    ServerLoopState,
};
use pepper_core::collection::BufferCollection;
use pepper_core::help::{main_help_path, open, search};
use pepper_core::key::Key;
use pepper_core::keymap::{KeyMapCollection, MatchResult};
use pepper_core::mode::ModeKind;
use pepper_core::register::{RegisterCollection, RegisterKey};
use pepper_core::worddb::WordDatabase;

fn content_text(buffer: &Buffer) -> String {
    String::from_utf8(buffer.content().text_bytes()).unwrap()
}

#[test]
fn insert_publishes_event() {
    // a buffer holding "hello world" gains " cruel" at line 0 column 5
    let mut word_database = WordDatabase::new();
    let mut events = EditorEventQueue::new();
    let mut buffer = Buffer::new(BufferHandle(7));
    buffer.capabilities = BufferCapabilities::text();
    buffer.insert_text(
        &mut word_database,
        BufferPosition::zero(),
        b"hello world",
        &mut events,
    );
    events.flip();
    let mut events2 = EditorEventQueue::new();
    let range = buffer.insert_text(
        &mut word_database,
        BufferPosition::line_col(0, 5),
        b" cruel",
        &mut events2,
    );
    assert_eq!("hello cruel world", content_text(&buffer));
    assert_eq!(
        BufferRange::between(
            BufferPosition::line_col(0, 5),
            BufferPosition::line_col(0, 11),
        ),
        range
    );

    events2.flip();
    let mut iter = EditorEventIter::new();
    match iter.next(&events2) {
        Some(EditorEvent::BufferInsertText {
            handle,
            range: published,
            text,
        }) => {
            assert_eq!(BufferHandle(7), handle);
            assert_eq!(range, published);
            assert_eq!(b" cruel".to_vec(), text.as_str(&events2));
        }
        _ => panic!("expected a buffer insert event"),
    }
    assert!(iter.next(&events2).is_none());
}

#[test]
fn delete_publishes_event_and_undo_restores() {
    let mut word_database = WordDatabase::new();
    let mut events = EditorEventQueue::new();
    let mut buffer = Buffer::new(BufferHandle(0));
    buffer.capabilities = BufferCapabilities::text();
    buffer.insert_text(
        &mut word_database,
        BufferPosition::zero(),
        b"hello cruel world",
        &mut events,
    );
    buffer.commit_edits();

    let range = BufferRange::between(
        BufferPosition::line_col(0, 5),
        BufferPosition::line_col(0, 11),
    );
    let mut events2 = EditorEventQueue::new();
    buffer.delete_range(&mut word_database, range, &mut events2);
    assert_eq!("hello world", content_text(&buffer));

    events2.flip();
    let mut iter = EditorEventIter::new();
    let mut delete_events = 0;
    while let Some(event) = iter.next(&events2) {
        if let EditorEvent::BufferDeleteText {
            range: published, ..
        } = event
        {
            assert_eq!(range, published);
            delete_events += 1;
        }
    }
    assert_eq!(1, delete_events);

    buffer.undo(&mut word_database, &mut events2);
    assert_eq!("hello cruel world", content_text(&buffer));
    buffer.redo(&mut word_database, &mut events2);
    assert_eq!("hello world", content_text(&buffer));
}

#[test]
fn word_index_stays_consistent() {
    // the word database mirrors the identifier words of the buffer
    let mut word_database = WordDatabase::new();
    let mut events = EditorEventQueue::new();
    let mut buffer = Buffer::new(BufferHandle(0));
    buffer.capabilities = BufferCapabilities::text();
    buffer.insert_text(
        &mut word_database,
        BufferPosition::zero(),
        b"alpha beta\nalpha gamma",
        &mut events,
    );
    assert_eq!(2, word_database.count(b"alpha"));
    assert_eq!(1, word_database.count(b"beta"));
    assert_eq!(1, word_database.count(b"gamma"));

    // deleting the first line's "alpha " leaves one alpha
    buffer.delete_range(
        &mut word_database,
        BufferRange::between(
            BufferPosition::line_col(0, 0),
            BufferPosition::line_col(0, 6),
        ),
        &mut events,
    );
    assert_eq!("beta\nalpha gamma", content_text(&buffer));
    assert_eq!(1, word_database.count(b"alpha"));
    assert_eq!(1, word_database.count(b"beta"));

    // a multi-line delete joins words across the seam
    buffer.delete_range(
        &mut word_database,
        BufferRange::between(
            BufferPosition::line_col(0, 4),
            BufferPosition::line_col(1, 5),
        ),
        &mut events,
    );
    assert_eq!("beta gamma", content_text(&buffer));
    assert_eq!(0, word_database.count(b"alpha"));
    assert_eq!(1, word_database.count(b"beta"));
    assert_eq!(1, word_database.count(b"gamma"));

    // joining the two remaining words fuses their index entries
    buffer.delete_range(
        &mut word_database,
        BufferRange::between(
            BufferPosition::line_col(0, 4),
            BufferPosition::line_col(0, 5),
        ),
        &mut events,
    );
    assert_eq!("betagamma", content_text(&buffer));
    assert_eq!(0, word_database.count(b"beta"));
    assert_eq!(0, word_database.count(b"gamma"));
    assert_eq!(1, word_database.count(b"betagamma"));
}

#[test]
fn idle_fires_once_per_quiet_period() {
    // readiness arms an immediate poll
    let step = on_wait_elapsed(LoopTimeout::Infinite, true);
    assert!(!step.emit_idle);
    assert_eq!(LoopTimeout::Zero, step.next_timeout);

    // an empty poll arms the idle duration
    let step = on_wait_elapsed(LoopTimeout::Zero, false);
    assert!(!step.emit_idle);
    assert_eq!(LoopTimeout::Idle, step.next_timeout);

    // the idle duration elapsing quietly emits the one idle event
    let step = on_wait_elapsed(LoopTimeout::Idle, false);
    assert!(step.emit_idle);
    assert_eq!(LoopTimeout::Infinite, step.next_timeout);

    // further quiet wakeups emit nothing
    let step = on_wait_elapsed(LoopTimeout::Infinite, false);
    assert!(!step.emit_idle);
    assert_eq!(LoopTimeout::Infinite, step.next_timeout);
}

#[test]
fn quit_drains_buffers() {
    // in flight: one buffer in a request, one queued for a client, one in
    // another pending request; after the quit drain all three are back
    let mut state = ServerLoopState::new();
    let queued = state.pool.acquire();
    let request_buf = state.pool.acquire();
    let process_buf = state.pool.acquire();
    state.write_queues.push(ClientWriteQueue { bufs: Vec::new() });

    // the first write request lands in the client's queue
    state.queue_client_write(0, queued);

    let remaining = vec![
        PlatformRequest::Redraw,
        PlatformRequest::WriteToClient {
            handle: pepper_core::client::ClientHandle::from_index(0).unwrap(),
            buf: request_buf,
        },
        PlatformRequest::WriteToProcess {
            handle: PlatformProcessHandle(1),
            buf: process_buf,
        },
    ];
    state.process_quit(remaining);
    let (acquired, released) = state.pool.counts();
    assert_eq!(3, acquired);
    assert_eq!(3, released);
}

#[test]
fn registers_round_trip() {
    let mut registers = RegisterCollection::new();
    let key = RegisterKey::from_char(b's').unwrap();
    assert_eq!(b's', key.as_u8());
    assert!(registers.get(key).is_empty());
    registers.set(key, b"searched text");
    assert_eq!(b"searched text".to_vec(), *registers.get(key));
    assert!(RegisterKey::from_char(b'A').is_none());
    assert!(RegisterKey::from_str(b"ab").is_none());
    assert!(RegisterKey::from_str(b"z").is_some());
}

#[test]
fn keymap_matches_sequences() {
    let mut maps = KeyMapCollection::new();
    let from: Vec<char> = "gg".chars().collect();
    let to: Vec<char> = "<home>".chars().collect();
    maps.parse_and_map(ModeKind::Normal, &from, &to).unwrap();

    match maps.matches(ModeKind::Normal, &[Key::Char('g')]) {
        MatchResult::Prefix => {}
        _ => panic!("expected a prefix match"),
    }
    match maps.matches(ModeKind::Normal, &[Key::Char('g'), Key::Char('g')]) {
        MatchResult::ReplaceWith(keys) => assert_eq!(vec![Key::Home], keys),
        _ => panic!("expected a full match"),
    }
    match maps.matches(ModeKind::Normal, &[Key::Char('x')]) {
        MatchResult::NoMatch => {}
        _ => panic!("expected no match"),
    }
    match maps.matches(ModeKind::Insert, &[Key::Char('g')]) {
        MatchResult::NoMatch => {}
        _ => panic!("expected no match in another mode"),
    }
}

#[test]
fn help_pages_and_search() {
    assert!(open(main_help_path().as_bytes()).is_some());
    assert!(open(b"help://absent.md").is_none());
    // a page name matches outright
    let (path, line) = search(b"bindings").unwrap();
    assert_eq!("help://bindings.md", path);
    assert_eq!(0, line);
    // a heading match is preferred
    let (_, line) = search(b"chords").unwrap();
    assert_eq!(2, line);
    assert!(search(b"no such keyword anywhere").is_none());
}

#[test]
fn buffer_serialize_round_trip() {
    // a fresh buffer with text inserted at the origin serializes to the
    // text plus one trailing newline
    for text in ["abc", "a\nb", "", "ends with newline\n"] {
        let mut word_database = WordDatabase::new();
        let mut events = EditorEventQueue::new();
        let mut buffer = Buffer::new(BufferHandle(0));
        buffer.capabilities = BufferCapabilities::text();
        buffer.insert_text(
            &mut word_database,
            BufferPosition::zero(),
            text.as_bytes(),
            &mut events,
        );
        let mut out = Vec::new();
        let saved = buffer.save_to_bytes(None, &mut out, &mut events);
        assert!(saved);
        let mut expected = text.as_bytes().to_vec();
        expected.push(b'\n');
        assert_eq!(expected, out);
    }
}

#[test]
fn buffer_read_strips_markers() {
    let mut word_database = WordDatabase::new();
    let mut events = EditorEventQueue::new();
    let mut buffer = Buffer::new(BufferHandle(0));
    buffer.capabilities = BufferCapabilities::text();
    let bytes = b"\xef\xbb\xbffirst\r\nsecond\nthird\n";
    buffer.reload_from_bytes(&mut word_database, bytes, &mut events);
    assert_eq!("first\nsecond\nthird", content_text(&buffer));
}

#[test]
fn buffer_collection_slots() {
    let mut events = EditorEventQueue::new();
    let mut word_database = WordDatabase::new();
    let mut buffers = BufferCollection::new();
    let first = buffers.add_new();
    let second = buffers.add_new();
    assert_ne!(first, second);
    assert_eq!(2, buffers.iter().len());

    buffers.defer_remove(first, &mut events);
    buffers.remove(first, &mut word_database);
    assert_eq!(1, buffers.iter().len());

    // the dead slot is reused under the same handle
    let revived = buffers.add_new();
    assert_eq!(first, revived);
    assert_eq!(2, buffers.iter().len());
}
