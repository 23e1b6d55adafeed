use pepper_core::buffer::{Buffer, BufferCapabilities};
use pepper_core::content::{find_delimiter_pair, BufferContent};
use pepper_core::display::display_len;
use pepper_core::events::{BufferHandle, EditorEventQueue};
use pepper_core::pathpos::find_path_and_position_at;
use pepper_core::position::{BufferPosition, BufferRange};
use pepper_core::word::WordKind;
use pepper_core::worddb::WordDatabase;

fn content_text(content: &BufferContent) -> String {
    String::from_utf8(content.text_bytes()).unwrap()
}

fn buffer_from_str(text: &str) -> BufferContent {
    let mut buffer = BufferContent::new();
    buffer.insert_text(BufferPosition::zero(), text.as_bytes());
    buffer
}

#[test]
fn test_find_delimiter_pair_at() {
    let text = b"|a|bcd|efg|";
    assert_eq!(Some((1, 2)), find_delimiter_pair(text, 0, b'|'));
    assert_eq!(Some((1, 2)), find_delimiter_pair(text, 2, b'|'));
    assert_eq!(None, find_delimiter_pair(text, 4, b'|'));
    assert_eq!(Some((7, 10)), find_delimiter_pair(text, 6, b'|'));
    assert_eq!(Some((7, 10)), find_delimiter_pair(text, 10, b'|'));
    assert_eq!(None, find_delimiter_pair(text, 11, b'|'));
}

fn path_at(text: &str, index: usize) -> (String, Option<BufferPosition>) {
    let (path, position) = find_path_and_position_at(text.as_bytes(), index);
    (String::from_utf8(path).unwrap(), position)
}

#[test]
fn test_find_path_at() {
    let text = "/path/file:45";
    let expected = ("/path/file".to_string(), Some(BufferPosition::line_col(44, 0)));
    assert_eq!(expected, path_at(text, 0));
    assert_eq!(expected, path_at(text, 1));
    assert_eq!(expected, path_at(text, text.len()));
    assert_eq!(expected, path_at(text, 3));
    assert_eq!(expected, path_at(text, 8));

    let text = "xx /path/file:";
    assert_eq!(("xx".to_string(), None), path_at(text, 0));
    assert_eq!(("xx".to_string(), None), path_at(text, 1));
    assert_eq!(("xx".to_string(), None), path_at(text, 2));
    assert_eq!(("/path/file".to_string(), None), path_at(text, 3));
    assert_eq!(("/path/file".to_string(), None), path_at(text, text.len() - 1));
    assert_eq!(("/path/file".to_string(), None), path_at(text, text.len()));

    let text = "xx /path/file:3xx";
    let expected = ("/path/file".to_string(), Some(BufferPosition::line_col(2, 0)));
    assert_eq!(expected, path_at(text, 3));
    assert_eq!(expected, path_at(text, text.len() - 5));
    assert_eq!(expected, path_at(text, text.len() - 4));
    assert_eq!(expected, path_at(text, text.len() - 3));
    assert_eq!(expected, path_at(text, text.len() - 2));
    assert_eq!(expected, path_at(text, text.len() - 1));
    assert_eq!(expected, path_at(text, text.len()));

    let text = "c:/absolute/path/file";
    let expected = (text.to_string(), None);
    assert_eq!(expected, path_at(text, 0));
    assert_eq!(expected, path_at(text, 1));
    assert_eq!(expected, path_at(text, 2));
    assert_eq!(expected, path_at(text, text.len() - 1));
    assert_eq!(expected, path_at(text, text.len() - 2));

    let text = "c:/absolute/path/file:4";
    let expected = (
        "c:/absolute/path/file".to_string(),
        Some(BufferPosition::line_col(3, 0)),
    );
    assert_eq!(expected, path_at(text, 0));
    assert_eq!(expected, path_at(text, 1));
    assert_eq!(expected, path_at(text, 2));
    assert_eq!(expected, path_at(text, 3));

    let text = "xx c:/absolute/path/file:4,5xx";
    let expected = (
        "c:/absolute/path/file".to_string(),
        Some(BufferPosition::line_col(3, 4)),
    );
    assert_eq!(expected, path_at(text, 3));
    assert_eq!(expected, path_at(text, 4));
    assert_eq!(expected, path_at(text, 5));
    assert_eq!(expected, path_at(text, 24));
    assert_eq!(expected, path_at(text, 25));
    assert_eq!(expected, path_at(text, 26));
    assert_eq!(expected, path_at(text, 27));
}

#[test]
fn display_distance() {
    fn len_of(text: &str) -> u64 {
        display_len(text.as_bytes(), 4)
    }
    assert_eq!(0, len_of(""));
    assert_eq!(1, len_of("a"));
    assert_eq!(1, len_of("é"));
    assert_eq!(4, len_of("    "));
    assert_eq!(4, len_of("\t"));
    assert_eq!(8, len_of("\t\t"));
    assert_eq!(8, len_of("    \t"));
    assert_eq!(5, len_of("x\t"));
    assert_eq!(6, len_of("xx\t"));
    assert_eq!(7, len_of("xxx\t"));
    assert_eq!(8, len_of("xxxx\t"));
}

#[test]
fn buffer_utf8_support() {
    let mut buffer = buffer_from_str("abd");
    let range = buffer.insert_text(BufferPosition::line_col(0, 2), "ç".as_bytes());
    assert_eq!(
        BufferRange::between(
            BufferPosition::line_col(0, 2),
            BufferPosition::line_col(0, (2 + 'ç'.len_utf8()) as u32),
        ),
        range
    );
}

#[test]
fn buffer_content_insert_text() {
    let mut buffer = BufferContent::new();

    assert_eq!(1, buffer.line_count());
    assert_eq!("", content_text(&buffer));

    buffer.insert_text(BufferPosition::line_col(0, 0), b"hold");
    buffer.insert_text(BufferPosition::line_col(0, 2), b"r");
    buffer.insert_text(BufferPosition::line_col(0, 1), b"ello w");
    assert_eq!(1, buffer.line_count());
    assert_eq!("hello world", content_text(&buffer));

    buffer.insert_text(BufferPosition::line_col(0, 5), b"\n");
    buffer.insert_text(
        BufferPosition::line_col(1, 6),
        b" appending more\nand more\nand even more\nlines",
    );
    assert_eq!(5, buffer.line_count());
    assert_eq!(
        "hello\n world appending more\nand more\nand even more\nlines",
        content_text(&buffer)
    );

    let mut buffer = buffer_from_str("this is content");
    buffer.insert_text(BufferPosition::line_col(0, 8), b"some\nmultiline ");
    assert_eq!(2, buffer.line_count());
    assert_eq!("this is some\nmultiline content", content_text(&buffer));

    let mut buffer = buffer_from_str("this is content");
    buffer.insert_text(
        BufferPosition::line_col(0, 8),
        b"some\nmore\nextensive\nmultiline ",
    );
    assert_eq!(4, buffer.line_count());
    assert_eq!(
        "this is some\nmore\nextensive\nmultiline content",
        content_text(&buffer)
    );

    let mut buffer = buffer_from_str("abc");
    let range = buffer.insert_text(BufferPosition::line_col(0, 3), b"\n");
    assert_eq!(
        BufferRange::between(
            BufferPosition::line_col(0, 3),
            BufferPosition::line_col(1, 0),
        ),
        range
    );
}

#[test]
fn buffer_content_delete_range() {
    let mut buffer = buffer_from_str("abc");
    buffer.delete_range(BufferRange::between(
        BufferPosition::line_col(0, 1),
        BufferPosition::line_col(0, 1),
    ));
    assert_eq!("abc", content_text(&buffer));
    buffer.delete_range(BufferRange::between(
        BufferPosition::line_col(0, 1),
        BufferPosition::line_col(0, 2),
    ));
    assert_eq!("ac", content_text(&buffer));

    let mut buffer = buffer_from_str("this is the initial\ncontent of the buffer");

    assert_eq!(2, buffer.line_count());
    assert_eq!(
        "this is the initial\ncontent of the buffer",
        content_text(&buffer)
    );

    buffer.delete_range(BufferRange::between(
        BufferPosition::zero(),
        BufferPosition::zero(),
    ));
    assert_eq!(2, buffer.line_count());
    assert_eq!(
        "this is the initial\ncontent of the buffer",
        content_text(&buffer)
    );

    buffer.delete_range(BufferRange::between(
        BufferPosition::line_col(0, 11),
        BufferPosition::line_col(0, 19),
    ));
    assert_eq!(2, buffer.line_count());
    assert_eq!("this is the\ncontent of the buffer", content_text(&buffer));

    buffer.delete_range(BufferRange::between(
        BufferPosition::line_col(0, 8),
        BufferPosition::line_col(1, 15),
    ));
    assert_eq!(1, buffer.line_count());
    assert_eq!("this is buffer", content_text(&buffer));

    let mut buffer = buffer_from_str("this\nbuffer\ncontains\nmultiple\nlines\nyes");
    assert_eq!(6, buffer.line_count());
    buffer.delete_range(BufferRange::between(
        BufferPosition::line_col(1, 4),
        BufferPosition::line_col(4, 1),
    ));
    assert_eq!("this\nbuffines\nyes", content_text(&buffer));
}

#[test]
fn buffer_content_delete_lines() {
    let mut buffer = buffer_from_str("first line\nsecond line\nthird line");
    assert_eq!(3, buffer.line_count());
    buffer.delete_range(BufferRange::between(
        BufferPosition::line_col(1, 0),
        BufferPosition::line_col(2, 0),
    ));
    assert_eq!("first line\nthird line", content_text(&buffer));

    let mut buffer = buffer_from_str("first line\nsecond line\nthird line");
    assert_eq!(3, buffer.line_count());
    buffer.delete_range(BufferRange::between(
        BufferPosition::line_col(1, 0),
        BufferPosition::line_col(1, 11),
    ));
    assert_eq!("first line\n\nthird line", content_text(&buffer));
}

#[test]
fn buffer_delete_undo_redo_single_line() {
    let mut word_database = WordDatabase::new();
    let mut events = EditorEventQueue::new();

    let mut buffer = Buffer::new(BufferHandle(0));
    buffer.capabilities = BufferCapabilities::text();
    buffer.insert_text(
        &mut word_database,
        BufferPosition::zero(),
        b"single line content",
        &mut events,
    );
    let range = BufferRange::between(
        BufferPosition::line_col(0, 7),
        BufferPosition::line_col(0, 12),
    );
    buffer.delete_range(&mut word_database, range, &mut events);

    assert_eq!("single content", content_text(buffer.content()));
    {
        let undo_edits = buffer.undo(&mut word_database, &mut events);
        assert_eq!(range, undo_edits[0].range);
        assert_eq!(2, undo_edits.len());
    }
    assert!(content_text(buffer.content()).is_empty());
    let redo_edits = buffer.redo(&mut word_database, &mut events);
    assert_eq!(2, redo_edits.len());
    assert_eq!("single content", content_text(buffer.content()));
}

#[test]
fn buffer_delete_undo_redo_multi_line() {
    let mut word_database = WordDatabase::new();
    let mut events = EditorEventQueue::new();

    let mut buffer = Buffer::new(BufferHandle(0));
    buffer.capabilities = BufferCapabilities::text();
    let insert_range = buffer.insert_text(
        &mut word_database,
        BufferPosition::zero(),
        b"multi\nline\ncontent",
        &mut events,
    );
    assert_eq!("multi\nline\ncontent", content_text(buffer.content()));

    let delete_range = BufferRange::between(
        BufferPosition::line_col(0, 1),
        BufferPosition::line_col(1, 3),
    );
    buffer.delete_range(&mut word_database, delete_range, &mut events);
    assert_eq!("me\ncontent", content_text(buffer.content()));

    {
        let undo_edits = buffer.undo(&mut word_database, &mut events);
        assert_eq!(delete_range, undo_edits[0].range);
        assert_eq!(insert_range, undo_edits[1].range);
        assert_eq!(2, undo_edits.len());
    }
    assert_eq!("", content_text(buffer.content()));

    {
        let redo_edits = buffer.redo(&mut word_database, &mut events);
        assert_eq!(2, redo_edits.len());
    }
    assert_eq!("me\ncontent", content_text(buffer.content()));
}

#[test]
fn buffer_content_range_text() {
    let buffer = buffer_from_str("abc\ndef\nghi");
    let mut text = Vec::new();
    buffer.append_range_text_to_string(
        BufferRange::between(
            BufferPosition::line_col(0, 2),
            BufferPosition::line_col(2, 1),
        ),
        &mut text,
    );
    assert_eq!(b"c\ndef\ng".to_vec(), text);
}

#[test]
fn buffer_content_word_at() {
    fn col(column: u32) -> BufferPosition {
        BufferPosition::line_col(0, column)
    }

    fn assert_word(
        word: pepper_core::content::WordRefWithPosition,
        pos: BufferPosition,
        kind: WordKind,
        text: &str,
    ) {
        assert_eq!(pos, word.position);
        assert_eq!(kind, word.kind);
        assert_eq!(text.as_bytes(), word.text.as_slice());
    }

    let buffer = buffer_from_str("word");
    assert_word(buffer.word_at(col(0)), col(0), WordKind::Identifier, "word");
    assert_word(buffer.word_at(col(2)), col(0), WordKind::Identifier, "word");
    assert_word(buffer.word_at(col(4)), col(4), WordKind::Whitespace, "");

    let buffer = buffer_from_str("asd word+? asd");
    assert_word(buffer.word_at(col(3)), col(3), WordKind::Whitespace, " ");
    assert_word(buffer.word_at(col(4)), col(4), WordKind::Identifier, "word");
    assert_word(buffer.word_at(col(6)), col(4), WordKind::Identifier, "word");
    assert_word(buffer.word_at(col(8)), col(8), WordKind::Symbol, "+?");
    assert_word(buffer.word_at(col(9)), col(8), WordKind::Symbol, "+?");
    assert_word(buffer.word_at(col(10)), col(10), WordKind::Whitespace, " ");
}

#[test]
fn buffer_content_words_from() {
    fn col(column: u32) -> BufferPosition {
        BufferPosition::line_col(0, column)
    }

    fn assert_word(
        word: &pepper_core::content::WordRefWithPosition,
        pos: BufferPosition,
        kind: WordKind,
        text: &str,
    ) {
        assert_eq!(pos, word.position);
        assert_eq!(kind, word.kind);
        assert_eq!(text.as_bytes(), word.text.as_slice());
    }

    let buffer = buffer_from_str("word");
    let (w, lw, rw) = buffer.words_from(col(0));
    assert_word(&w, col(0), WordKind::Identifier, "word");
    assert!(lw.is_empty());
    assert!(rw.is_empty());
    let (w, lw, rw) = buffer.words_from(col(2));
    assert_word(&w, col(0), WordKind::Identifier, "word");
    assert!(lw.is_empty());
    assert!(rw.is_empty());
    let (w, lw, rw) = buffer.words_from(col(4));
    assert_word(&w, col(4), WordKind::Whitespace, "");
    assert_eq!(1, lw.len());
    assert_word(&lw[0], col(0), WordKind::Identifier, "word");
    assert!(rw.is_empty());

    let buffer = buffer_from_str("first second third");
    let (w, lw, rw) = buffer.words_from(col(8));
    assert_word(&w, col(6), WordKind::Identifier, "second");
    assert_eq!(2, lw.len());
    assert_word(&lw[0], col(5), WordKind::Whitespace, " ");
    assert_word(&lw[1], col(0), WordKind::Identifier, "first");
    assert_eq!(2, rw.len());
    assert_word(&rw[0], col(12), WordKind::Whitespace, " ");
    assert_word(&rw[1], col(13), WordKind::Identifier, "third");
}

#[test]
fn buffer_find_balanced_chars() {
    let buffer = buffer_from_str("(\n(\na\n)\nbc)");

    assert_eq!(
        Some(BufferRange::between(
            BufferPosition::line_col(0, 1),
            BufferPosition::line_col(4, 2),
        )),
        buffer.find_balanced_chars_at(BufferPosition::line_col(0, 0), b'(', b')')
    );
    assert_eq!(
        Some(BufferRange::between(
            BufferPosition::line_col(1, 1),
            BufferPosition::line_col(3, 0),
        )),
        buffer.find_balanced_chars_at(BufferPosition::line_col(2, 0), b'(', b')')
    );
    assert_eq!(
        Some(BufferRange::between(
            BufferPosition::line_col(0, 1),
            BufferPosition::line_col(4, 2),
        )),
        buffer.find_balanced_chars_at(BufferPosition::line_col(0, 1), b'(', b')')
    );
    assert_eq!(
        Some(BufferRange::between(
            BufferPosition::line_col(0, 1),
            BufferPosition::line_col(4, 2),
        )),
        buffer.find_balanced_chars_at(BufferPosition::line_col(4, 0), b'(', b')')
    );
    assert_eq!(
        Some(BufferRange::between(
            BufferPosition::line_col(0, 1),
            BufferPosition::line_col(4, 2),
        )),
        buffer.find_balanced_chars_at(BufferPosition::line_col(0, 0), b'(', b')')
    );
    assert_eq!(
        Some(BufferRange::between(
            BufferPosition::line_col(0, 1),
            BufferPosition::line_col(4, 2),
        )),
        buffer.find_balanced_chars_at(BufferPosition::line_col(4, 2), b'(', b')')
    );
}
