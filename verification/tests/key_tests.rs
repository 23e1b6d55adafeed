use pepper_core::key::{format_key, parse_key, Key};
use pepper_core::protocol::{deserialize_key, serialize_key};

fn parse_one(text: &str) -> Key {
    let chars: Vec<char> = text.chars().collect();
    let (key, end) = parse_key(&chars, 0).unwrap();
    assert_eq!(end, chars.len());
    key
}

#[test]
fn key_parsing() {
    assert_eq!(Key::Backspace, parse_one("<backspace>"));
    assert_eq!(Key::Char(' '), parse_one("<space>"));
    assert_eq!(Key::Enter, parse_one("<enter>"));
    assert_eq!(Key::Left, parse_one("<left>"));
    assert_eq!(Key::Right, parse_one("<right>"));
    assert_eq!(Key::Up, parse_one("<up>"));
    assert_eq!(Key::Down, parse_one("<down>"));
    assert_eq!(Key::Home, parse_one("<home>"));
    assert_eq!(Key::End, parse_one("<end>"));
    assert_eq!(Key::PageUp, parse_one("<pageup>"));
    assert_eq!(Key::PageDown, parse_one("<pagedown>"));
    assert_eq!(Key::Tab, parse_one("<tab>"));
    assert_eq!(Key::Delete, parse_one("<delete>"));
    assert_eq!(Key::Esc, parse_one("<esc>"));

    for n in 1..=99u8 {
        let s = format!("<f{}>", n);
        assert_eq!(Key::F(n), parse_one(&s));
    }

    assert_eq!(Key::Ctrl('z'), parse_one("<c-z>"));
    assert_eq!(Key::Ctrl('0'), parse_one("<c-0>"));
    assert_eq!(Key::Ctrl('9'), parse_one("<c-9>"));

    assert_eq!(Key::Alt('a'), parse_one("<a-a>"));
    assert_eq!(Key::Alt('z'), parse_one("<a-z>"));
    assert_eq!(Key::Alt('0'), parse_one("<a-0>"));
    assert_eq!(Key::Alt('9'), parse_one("<a-9>"));

    assert_eq!(Key::Char('a'), parse_one("a"));
    assert_eq!(Key::Char('z'), parse_one("z"));
    assert_eq!(Key::Char('0'), parse_one("0"));
    assert_eq!(Key::Char('9'), parse_one("9"));
    assert_eq!(Key::Char('_'), parse_one("_"));
    assert_eq!(Key::Char('<'), parse_one("<less>"));
    assert_eq!(Key::Char('>'), parse_one("<greater>"));
    assert_eq!(Key::Char('\\'), parse_one("\\"));
}

#[test]
fn key_serialization() {
    fn assert_key_serialization(key: Key) {
        let mut buf = Vec::new();
        serialize_key(key, &mut buf);
        assert!(!buf.is_empty());
        match deserialize_key(&buf, 0) {
            Some((k, end)) => {
                assert_eq!(key, k);
                assert_eq!(end, buf.len());
            }
            None => assert!(false),
        }
    }

    assert_key_serialization(Key::Nothing);
    assert_key_serialization(Key::Backspace);
    assert_key_serialization(Key::Enter);
    assert_key_serialization(Key::Left);
    assert_key_serialization(Key::Right);
    assert_key_serialization(Key::Up);
    assert_key_serialization(Key::Down);
    assert_key_serialization(Key::Home);
    assert_key_serialization(Key::End);
    assert_key_serialization(Key::PageUp);
    assert_key_serialization(Key::PageDown);
    assert_key_serialization(Key::Tab);
    assert_key_serialization(Key::Delete);
    assert_key_serialization(Key::F(0));
    assert_key_serialization(Key::F(9));
    assert_key_serialization(Key::F(12));
    assert_key_serialization(Key::F(99));
    assert_key_serialization(Key::Char('a'));
    assert_key_serialization(Key::Char('z'));
    assert_key_serialization(Key::Char('A'));
    assert_key_serialization(Key::Char('Z'));
    assert_key_serialization(Key::Char('0'));
    assert_key_serialization(Key::Char('9'));
    assert_key_serialization(Key::Char('$'));
    assert_key_serialization(Key::Ctrl('a'));
    assert_key_serialization(Key::Ctrl('z'));
    assert_key_serialization(Key::Ctrl('A'));
    assert_key_serialization(Key::Ctrl('Z'));
    assert_key_serialization(Key::Ctrl('0'));
    assert_key_serialization(Key::Ctrl('9'));
    assert_key_serialization(Key::Ctrl('$'));
    assert_key_serialization(Key::Alt('a'));
    assert_key_serialization(Key::Alt('z'));
    assert_key_serialization(Key::Alt('A'));
    assert_key_serialization(Key::Alt('Z'));
    assert_key_serialization(Key::Alt('0'));
    assert_key_serialization(Key::Alt('9'));
    assert_key_serialization(Key::Alt('$'));
    assert_key_serialization(Key::Esc);
}

#[test]
fn key_format_parse_round_trip() {
    let keys = [
        Key::Backspace,
        Key::Enter,
        Key::Left,
        Key::Right,
        Key::Up,
        Key::Down,
        Key::Home,
        Key::End,
        Key::PageUp,
        Key::PageDown,
        Key::Tab,
        Key::Delete,
        Key::Esc,
        Key::F(1),
        Key::F(12),
        Key::F(99),
        Key::Char('x'),
        Key::Char(' '),
        Key::Char('<'),
        Key::Char('>'),
        Key::Ctrl('a'),
        Key::Ctrl('9'),
        Key::Alt('z'),
    ];
    for key in keys {
        let mut text: Vec<char> = Vec::new();
        format_key(key, &mut text);
        let (parsed, end) = parse_key(&text, 0).unwrap();
        assert_eq!(key, parsed);
        assert_eq!(end, text.len());
    }
    // a function key formats as <fN>
    let mut text: Vec<char> = Vec::new();
    format_key(Key::F(12), &mut text);
    let formatted: String = text.iter().collect();
    assert_eq!("<f12>", formatted);
}
