//! The binary wire protocol between client and server: little-endian
//! primitives, length-prefixed byte slices, a one-byte discriminant per
//! tagged union, and per-connection reassembly of event streams that arrive
//! in arbitrary fragments.

use vstd::prelude::*;

use crate::key::Key;

verus! {

/// Little-endian bytes of a `u16`.
pub open spec fn enc_u16(v: u16) -> Seq<u8> {
    seq![(v as int % 256) as u8, (v as int / 256) as u8]
}

/// Little-endian bytes of a `u32`.
pub open spec fn enc_u32(v: u32) -> Seq<u8> {
    seq![
        (v as int % 256) as u8,
        ((v as int / 256) % 256) as u8,
        ((v as int / 65536) % 256) as u8,
        (v as int / 16777216) as u8,
    ]
}

/// The `u16` the two little-endian bytes encode.
pub open spec fn dec_u16(b0: u8, b1: u8) -> int {
    b0 + 256 * b1
}

/// The `u32` the four little-endian bytes encode.
pub open spec fn dec_u32(b0: u8, b1: u8, b2: u8, b3: u8) -> int {
    b0 + 256 * b1 + 65536 * b2 + 16777216 * b3
}

/// Decoding the encoding of a `u16` gives the value back.
pub proof fn lemma_u16_round_trip(v: u16)
    ensures
        dec_u16(enc_u16(v)[0], enc_u16(v)[1]) == v,
{
}

/// Decoding the encoding of a `u32` gives the value back.
pub proof fn lemma_u32_round_trip(v: u32)
    ensures
        dec_u32(enc_u32(v)[0], enc_u32(v)[1], enc_u32(v)[2], enc_u32(v)[3]) == v,
{
    let x = v as int;
    assert(x % 256 + 256 * ((x / 256) % 256) + 65536 * ((x / 65536) % 256) + 16777216 * (x
        / 16777216) == x) by (nonlinear_arith)
        requires
            0 <= x < 4294967296,
    ;
}

/// Append the little-endian bytes of `v` to `out`.
pub fn write_u16(out: &mut Vec<u8>, v: u16)
    ensures
        final(out)@ == old(out)@ + enc_u16(v),
{
    out.push((v % 256) as u8);
    out.push((v / 256) as u8);
    proof {
        assert(out@ =~= old(out)@ + enc_u16(v));
    }
}

/// Append the little-endian bytes of `v` to `out`.
pub fn write_u32(out: &mut Vec<u8>, v: u32)
    ensures
        final(out)@ == old(out)@ + enc_u32(v),
{
    out.push((v % 256) as u8);
    out.push(((v / 256) % 256) as u8);
    out.push(((v / 65536) % 256) as u8);
    out.push((v / 16777216) as u8);
    proof {
        assert(out@ =~= old(out)@ + enc_u32(v));
    }
}

/// Relies on char::from_u32 of std: it returns `Some` exactly when the
/// number is a unicode scalar value (not a surrogate, at most 0x10FFFF),
/// and the returned character casts back to the same number.
#[verifier::external_body]
pub fn char_from_u32(n: u32) -> (r: Option<char>)
    ensures
        r is Some <==> (n < 0xd800 || (0xe000 <= n && n <= 0x10ffff)),
        r is Some ==> r->Some_0 as u32 == n,
{
    char::from_u32(n)
}

/// The wire form of a key: a one-byte discriminant, then the chord payload
/// where one applies; characters travel as their scalar value in four
/// little-endian bytes.
pub open spec fn enc_key(k: Key) -> Seq<u8> {
    match k {
        Key::Nothing => seq![0u8],
        Key::Backspace => seq![1u8],
        Key::Enter => seq![2u8],
        Key::Left => seq![3u8],
        Key::Right => seq![4u8],
        Key::Up => seq![5u8],
        Key::Down => seq![6u8],
        Key::Home => seq![7u8],
        Key::End => seq![8u8],
        Key::PageUp => seq![9u8],
        Key::PageDown => seq![10u8],
        Key::Tab => seq![11u8],
        Key::Delete => seq![12u8],
        Key::F(n) => seq![13u8, n],
        Key::Char(c) => seq![14u8] + enc_u32(c as u32),
        Key::Ctrl(c) => seq![15u8] + enc_u32(c as u32),
        Key::Alt(c) => seq![16u8] + enc_u32(c as u32),
        Key::Esc => seq![17u8],
    }
}

/// The key decoded at position `i` of `s` and the position after it.
pub open spec fn dec_key(s: Seq<u8>, i: int) -> Option<(Key, int)> {
    if i < 0 || i >= s.len() {
        Option::None
    } else {
        let d = s[i];
        if d == 0 {
            Option::Some((Key::Nothing, i + 1))
        } else if d == 1 {
            Option::Some((Key::Backspace, i + 1))
        } else if d == 2 {
            Option::Some((Key::Enter, i + 1))
        } else if d == 3 {
            Option::Some((Key::Left, i + 1))
        } else if d == 4 {
            Option::Some((Key::Right, i + 1))
        } else if d == 5 {
            Option::Some((Key::Up, i + 1))
        } else if d == 6 {
            Option::Some((Key::Down, i + 1))
        } else if d == 7 {
            Option::Some((Key::Home, i + 1))
        } else if d == 8 {
            Option::Some((Key::End, i + 1))
        } else if d == 9 {
            Option::Some((Key::PageUp, i + 1))
        } else if d == 10 {
            Option::Some((Key::PageDown, i + 1))
        } else if d == 11 {
            Option::Some((Key::Tab, i + 1))
        } else if d == 12 {
            Option::Some((Key::Delete, i + 1))
        } else if d == 13 {
            if i + 2 <= s.len() {
                Option::Some((Key::F(s[i + 1]), i + 2))
            } else {
                Option::None
            }
        } else if d == 14 || d == 15 || d == 16 {
            if i + 5 <= s.len() {
                let n = dec_u32(s[i + 1], s[i + 2], s[i + 3], s[i + 4]);
                if n < 0xd800 || (0xe000 <= n && n <= 0x10ffff) {
                    let c = (n as u32) as char;
                    if d == 14 {
                        Option::Some((Key::Char(c), i + 5))
                    } else if d == 15 {
                        Option::Some((Key::Ctrl(c), i + 5))
                    } else {
                        Option::Some((Key::Alt(c), i + 5))
                    }
                } else {
                    Option::None
                }
            } else {
                Option::None
            }
        } else if d == 17 {
            Option::Some((Key::Esc, i + 1))
        } else {
            Option::None
        }
    }
}

/// Append the wire form of `key` to `out`.
pub fn serialize_key(key: Key, out: &mut Vec<u8>)
    ensures
        final(out)@ == old(out)@ + enc_key(key),
{
    match key {
        Key::Nothing => out.push(0u8),
        Key::Backspace => out.push(1u8),
        Key::Enter => out.push(2u8),
        Key::Left => out.push(3u8),
        Key::Right => out.push(4u8),
        Key::Up => out.push(5u8),
        Key::Down => out.push(6u8),
        Key::Home => out.push(7u8),
        Key::End => out.push(8u8),
        Key::PageUp => out.push(9u8),
        Key::PageDown => out.push(10u8),
        Key::Tab => out.push(11u8),
        Key::Delete => out.push(12u8),
        Key::F(n) => {
            out.push(13u8);
            out.push(n);
        }
        Key::Char(c) => {
            out.push(14u8);
            write_u32(out, c as u32);
        }
        Key::Ctrl(c) => {
            out.push(15u8);
            write_u32(out, c as u32);
        }
        Key::Alt(c) => {
            out.push(16u8);
            write_u32(out, c as u32);
        }
        Key::Esc => out.push(17u8),
    }
    proof {
        assert(out@ =~= old(out)@ + enc_key(key));
    }
}

/// Decode one key at position `start` of `bytes`.
pub fn deserialize_key(bytes: &[u8], start: usize) -> (r: Option<(Key, usize)>)
    requires
        start <= bytes@.len(),
    ensures
        r is Some ==> dec_key(bytes@, start as int) == Option::Some((r->Some_0.0,
            r->Some_0.1 as int)) && start < r->Some_0.1 <= bytes@.len(),
        r is None ==> dec_key(bytes@, start as int) is None,
{
    let n = bytes.len();
    if start >= n {
        return None;
    }
    let d = bytes[start];
    if d == 13u8 {
        if n - start >= 2 {
            return Some((Key::F(bytes[start + 1]), start + 2));
        }
        return None;
    }
    if d == 14u8 || d == 15u8 || d == 16u8 {
        if n - start >= 5 {
            let b0 = bytes[start + 1];
            let b1 = bytes[start + 2];
            let b2 = bytes[start + 3];
            let b3 = bytes[start + 4];
            let v: u32 = b0 as u32 + 256 * (b1 as u32) + 65536 * (b2 as u32)
                + 16777216 * (b3 as u32);
            proof {
                assert(v == dec_u32(b0, b1, b2, b3));
            }
            match char_from_u32(v) {
                Some(c) => {
                    proof {
                        vstd::utf8::char_u32_cast(c, v);
                        assert((v as char) == c);
                    }
                    if d == 14u8 {
                        return Some((Key::Char(c), start + 5));
                    }
                    if d == 15u8 {
                        return Some((Key::Ctrl(c), start + 5));
                    }
                    return Some((Key::Alt(c), start + 5));
                }
                None => {
                    return None;
                }
            }
        }
        return None;
    }
    if d <= 12u8 {
        let key = match d {
            0u8 => Key::Nothing,
            1u8 => Key::Backspace,
            2u8 => Key::Enter,
            3u8 => Key::Left,
            4u8 => Key::Right,
            5u8 => Key::Up,
            6u8 => Key::Down,
            7u8 => Key::Home,
            8u8 => Key::End,
            9u8 => Key::PageUp,
            10u8 => Key::PageDown,
            11u8 => Key::Tab,
            _ => Key::Delete,
        };
        return Some((key, start + 1));
    }
    if d == 17u8 {
        return Some((Key::Esc, start + 1));
    }
    None
}

/// Encoding a key and decoding the bytes yields the key, wherever the
/// encoding stands in a longer stream.
pub proof fn lemma_key_wire_round_trip(k: Key, s: Seq<u8>, i: int)
    requires
        0 <= i,
        i + enc_key(k).len() <= s.len(),
        s.subrange(i, i + enc_key(k).len()) == enc_key(k),
    ensures
        dec_key(s, i) == Option::Some((k, i + enc_key(k).len())),
{
    let e = enc_key(k);
    assert forall|j: int| 0 <= j < e.len() implies s[i + j] == e[j] by {
        assert(s.subrange(i, i + e.len())[j] == s[i + j]);
    }
    assert(s[i + 0] == e[0]);
    assert(s[i] == e[0]);
    match k {
        Key::Char(c) => {
            assert(e[1] == enc_u32(c as u32)[0]);
            assert(e[2] == enc_u32(c as u32)[1]);
            assert(e[3] == enc_u32(c as u32)[2]);
            assert(e[4] == enc_u32(c as u32)[3]);
            lemma_char_payload_round_trip(c, s, i);
        }
        Key::Ctrl(c) => {
            assert(e[1] == enc_u32(c as u32)[0]);
            assert(e[2] == enc_u32(c as u32)[1]);
            assert(e[3] == enc_u32(c as u32)[2]);
            assert(e[4] == enc_u32(c as u32)[3]);
            lemma_char_payload_round_trip(c, s, i);
        }
        Key::Alt(c) => {
            assert(e[1] == enc_u32(c as u32)[0]);
            assert(e[2] == enc_u32(c as u32)[1]);
            assert(e[3] == enc_u32(c as u32)[2]);
            assert(e[4] == enc_u32(c as u32)[3]);
            lemma_char_payload_round_trip(c, s, i);
        }
        _ => {}
    }
}

/// The four payload bytes after a character key's discriminant decode to the
/// character again.
proof fn lemma_char_payload_round_trip(c: char, s: Seq<u8>, i: int)
    requires
        0 <= i,
        i + 5 <= s.len(),
        s[i + 1] == enc_u32(c as u32)[0],
        s[i + 2] == enc_u32(c as u32)[1],
        s[i + 3] == enc_u32(c as u32)[2],
        s[i + 4] == enc_u32(c as u32)[3],
    ensures
        dec_u32(s[i + 1], s[i + 2], s[i + 3], s[i + 4]) == c as u32,
        (c as u32) < 0xd800 || (0xe000 <= (c as u32) && (c as u32) <= 0x10ffff),
        ((dec_u32(s[i + 1], s[i + 2], s[i + 3], s[i + 4]) as u32) as char) == c,
{
    lemma_u32_round_trip(c as u32);
    assert((c as u32) < 0xd800 || (0xe000 <= (c as u32) && (c as u32) <= 0x10ffff));
    vstd::utf8::char_u32_cast(c, c as u32);
}

/// Which client a client-sent event is about.
#[derive(Debug, Clone, Copy, PartialEq, Eq, Structural)]
pub enum TargetClient {
    Sender,
    Focused,
}

/// An event a client sends the server.
#[derive(Debug, Clone, PartialEq, Eq)]
pub enum ClientEvent {
    Key(TargetClient, Key),
    Resize(u16, u16),
    Command(TargetClient, Vec<u8>),
    StdinInput(TargetClient, Vec<u8>),
}

/// The mathematical form of a client event.
pub enum ClientEventView {
    Key(TargetClient, Key),
    Resize(u16, u16),
    Command(TargetClient, Seq<u8>),
    StdinInput(TargetClient, Seq<u8>),
}

impl View for ClientEvent {
    type V = ClientEventView;

    open spec fn view(&self) -> ClientEventView {
        match self {
            ClientEvent::Key(t, k) => ClientEventView::Key(*t, *k),
            ClientEvent::Resize(w, h) => ClientEventView::Resize(*w, *h),
            ClientEvent::Command(t, bytes) => ClientEventView::Command(*t, bytes@),
            ClientEvent::StdinInput(t, bytes) => ClientEventView::StdinInput(*t, bytes@),
        }
    }
}

pub open spec fn enc_target(t: TargetClient) -> Seq<u8> {
    match t {
        TargetClient::Sender => seq![0u8],
        TargetClient::Focused => seq![1u8],
    }
}

/// A client event's payload fits the length prefix.
pub open spec fn client_event_wf(e: ClientEventView) -> bool {
    match e {
        ClientEventView::Command(_, bytes) => bytes.len() <= u32::MAX,
        ClientEventView::StdinInput(_, bytes) => bytes.len() <= u32::MAX,
        _ => true,
    }
}

/// The wire form of a client event.
pub open spec fn enc_client_event(e: ClientEventView) -> Seq<u8> {
    match e {
        ClientEventView::Key(t, k) => seq![0u8] + enc_target(t) + enc_key(k),
        ClientEventView::Resize(w, h) => seq![1u8] + enc_u16(w) + enc_u16(h),
        ClientEventView::Command(t, bytes) => seq![2u8] + enc_target(t)
            + enc_u32(bytes.len() as u32) + bytes,
        ClientEventView::StdinInput(t, bytes) => seq![3u8] + enc_target(t)
            + enc_u32(bytes.len() as u32) + bytes,
    }
}

pub open spec fn dec_target(s: Seq<u8>, i: int) -> Option<(TargetClient, int)> {
    if 0 <= i < s.len() {
        if s[i] == 0 {
            Option::Some((TargetClient::Sender, i + 1))
        } else if s[i] == 1 {
            Option::Some((TargetClient::Focused, i + 1))
        } else {
            Option::None
        }
    } else {
        Option::None
    }
}

/// The client event decoded at position `i` of `s` and the position after
/// it.
pub open spec fn dec_client_event(s: Seq<u8>, i: int) -> Option<(ClientEventView, int)> {
    if i < 0 || i >= s.len() {
        Option::None
    } else if s[i] == 0 {
        match dec_target(s, i + 1) {
            Option::Some((t, j)) => match dec_key(s, j) {
                Option::Some((k, j2)) => Option::Some((ClientEventView::Key(t, k), j2)),
                Option::None => Option::None,
            },
            Option::None => Option::None,
        }
    } else if s[i] == 1 {
        if i + 5 <= s.len() {
            Option::Some((ClientEventView::Resize(dec_u16(s[i + 1], s[i + 2]) as u16,
                dec_u16(s[i + 3], s[i + 4]) as u16), i + 5))
        } else {
            Option::None
        }
    } else if s[i] == 2 {
        match dec_target(s, i + 1) {
            Option::Some((t, j)) => match dec_bytes(s, j) {
                Option::Some((bytes, j2)) => Option::Some((ClientEventView::Command(t,
                    bytes), j2)),
                Option::None => Option::None,
            },
            Option::None => Option::None,
        }
    } else if s[i] == 3 {
        match dec_target(s, i + 1) {
            Option::Some((t, j)) => match dec_bytes(s, j) {
                Option::Some((bytes, j2)) => Option::Some((ClientEventView::StdinInput(t,
                    bytes), j2)),
                Option::None => Option::None,
            },
            Option::None => Option::None,
        }
    } else {
        Option::None
    }
}

/// A length-prefixed byte slice decoded at position `i` of `s`.
pub open spec fn dec_bytes(s: Seq<u8>, i: int) -> Option<(Seq<u8>, int)> {
    if 0 <= i && i + 4 <= s.len() {
        let len = dec_u32(s[i], s[i + 1], s[i + 2], s[i + 3]);
        if i + 4 + len <= s.len() {
            Option::Some((s.subrange(i + 4, i + 4 + len), i + 4 + len))
        } else {
            Option::None
        }
    } else {
        Option::None
    }
}

/// Append the wire form of `event` to `out`.
pub fn serialize_client_event(event: &ClientEvent, out: &mut Vec<u8>)
    requires
        client_event_wf(event@),
    ensures
        final(out)@ == old(out)@ + enc_client_event(event@),
{
    match event {
        ClientEvent::Key(t, k) => {
            out.push(0u8);
            serialize_target(*t, out);
            serialize_key(*k, out);
        }
        ClientEvent::Resize(w, h) => {
            out.push(1u8);
            write_u16(out, *w);
            write_u16(out, *h);
        }
        ClientEvent::Command(t, bytes) => {
            out.push(2u8);
            serialize_target(*t, out);
            write_u32(out, bytes.len() as u32);
            crate::text::append_bytes(out, bytes.as_slice());
        }
        ClientEvent::StdinInput(t, bytes) => {
            out.push(3u8);
            serialize_target(*t, out);
            write_u32(out, bytes.len() as u32);
            crate::text::append_bytes(out, bytes.as_slice());
        }
    }
    proof {
        assert(out@ =~= old(out)@ + enc_client_event(event@));
    }
}

fn serialize_target(t: TargetClient, out: &mut Vec<u8>)
    ensures
        final(out)@ == old(out)@ + enc_target(t),
{
    match t {
        TargetClient::Sender => out.push(0u8),
        TargetClient::Focused => out.push(1u8),
    }
    proof {
        assert(out@ =~= old(out)@ + enc_target(t));
    }
}

fn deserialize_target(bytes: &[u8], start: usize) -> (r: Option<(TargetClient, usize)>)
    requires
        start <= bytes@.len(),
    ensures
        r is Some ==> dec_target(bytes@, start as int) == Option::Some((r->Some_0.0,
            r->Some_0.1 as int)) && start < r->Some_0.1 <= bytes@.len(),
        r is None ==> dec_target(bytes@, start as int) is None,
{
    if start >= bytes.len() {
        return None;
    }
    if bytes[start] == 0u8 {
        Some((TargetClient::Sender, start + 1))
    } else if bytes[start] == 1u8 {
        Some((TargetClient::Focused, start + 1))
    } else {
        None
    }
}

/// Decode one client event at position `start` of `bytes`.
pub fn deserialize_client_event(bytes: &[u8], start: usize) -> (r: Option<(ClientEvent,
    usize)>)
    requires
        start <= bytes@.len(),
    ensures
        r is Some ==> (dec_client_event(bytes@, start as int) matches Option::Some((v, j))
            && v == r->Some_0.0@ && j == r->Some_0.1 as int
            && start < r->Some_0.1 <= bytes@.len()),
        r is None ==> dec_client_event(bytes@, start as int) is None,
{
    let n = bytes.len();
    if start >= n {
        return None;
    }
    let d = bytes[start];
    if d == 0u8 {
        match deserialize_target(bytes, start + 1) {
            Some((t, j)) => match deserialize_key(bytes, j) {
                Some((k, j2)) => Some((ClientEvent::Key(t, k), j2)),
                None => None,
            },
            None => None,
        }
    } else if d == 1u8 {
        if n - start >= 5 {
            let w = bytes[start + 1] as u16 + 256 * (bytes[start + 2] as u16);
            let h = bytes[start + 3] as u16 + 256 * (bytes[start + 4] as u16);
            Some((ClientEvent::Resize(w, h), start + 5))
        } else {
            None
        }
    } else if d == 2u8 {
        match deserialize_target(bytes, start + 1) {
            Some((t, j)) => match deserialize_bytes(bytes, j) {
                Some((payload, j2)) => Some((ClientEvent::Command(t, payload), j2)),
                None => None,
            },
            None => None,
        }
    } else if d == 3u8 {
        match deserialize_target(bytes, start + 1) {
            Some((t, j)) => match deserialize_bytes(bytes, j) {
                Some((payload, j2)) => Some((ClientEvent::StdinInput(t, payload), j2)),
                None => None,
            },
            None => None,
        }
    } else {
        None
    }
}

/// Decode one length-prefixed byte slice at position `start` of `bytes`.
fn deserialize_bytes(bytes: &[u8], start: usize) -> (r: Option<(Vec<u8>, usize)>)
    requires
        start <= bytes@.len(),
    ensures
        r is Some ==> (dec_bytes(bytes@, start as int) matches Option::Some((v, j))
            && v == r->Some_0.0@ && j == r->Some_0.1 as int
            && start < r->Some_0.1 <= bytes@.len()),
        r is None ==> dec_bytes(bytes@, start as int) is None,
{
    let n = bytes.len();
    if n - start < 4 {
        return None;
    }
    let b0 = bytes[start];
    let b1 = bytes[start + 1];
    let b2 = bytes[start + 2];
    let b3 = bytes[start + 3];
    let len: u64 = b0 as u64 + 256 * (b1 as u64) + 65536 * (b2 as u64)
        + 16777216 * (b3 as u64);
    proof {
        assert(len == dec_u32(b0, b1, b2, b3));
    }
    if (n - start - 4) as u64 >= len {
        let payload = crate::text::copy_range(bytes, start + 4, start + 4 + len as usize);
        Some((payload, start + 4 + len as usize))
    } else {
        None
    }
}

/// An event the server sends a client.
#[derive(Debug, Clone, PartialEq, Eq)]
pub enum ServerEvent {
    Display(Vec<u8>),
    Suspend,
    StdoutOutput(Vec<u8>),
}

/// The mathematical form of a server event.
pub enum ServerEventView {
    Display(Seq<u8>),
    Suspend,
    StdoutOutput(Seq<u8>),
}

impl View for ServerEvent {
    type V = ServerEventView;

    open spec fn view(&self) -> ServerEventView {
        match self {
            ServerEvent::Display(b) => ServerEventView::Display(b@),
            ServerEvent::Suspend => ServerEventView::Suspend,
            ServerEvent::StdoutOutput(b) => ServerEventView::StdoutOutput(b@),
        }
    }
}

/// A server event's payload fits the length prefix.
pub open spec fn server_event_wf(e: ServerEventView) -> bool {
    match e {
        ServerEventView::Display(bytes) => bytes.len() <= u32::MAX,
        ServerEventView::StdoutOutput(bytes) => bytes.len() <= u32::MAX,
        ServerEventView::Suspend => true,
    }
}

/// The wire form of a server event: a discriminant, then for the byte
/// variants a four-byte little-endian payload length and the payload.
pub open spec fn enc_server_event(e: ServerEventView) -> Seq<u8> {
    match e {
        ServerEventView::Display(bytes) => seq![0u8] + enc_u32(bytes.len() as u32) + bytes,
        ServerEventView::Suspend => seq![1u8],
        ServerEventView::StdoutOutput(bytes) => seq![2u8] + enc_u32(bytes.len() as u32)
            + bytes,
    }
}

/// The server event decoded at position `i` of `s`.
pub open spec fn dec_server_event(s: Seq<u8>, i: int) -> Option<(ServerEventView, int)> {
    if i < 0 || i >= s.len() {
        Option::None
    } else if s[i] == 0 {
        match dec_bytes(s, i + 1) {
            Option::Some((bytes, j)) => Option::Some((ServerEventView::Display(bytes), j)),
            Option::None => Option::None,
        }
    } else if s[i] == 1 {
        Option::Some((ServerEventView::Suspend, i + 1))
    } else if s[i] == 2 {
        match dec_bytes(s, i + 1) {
            Option::Some((bytes, j)) => Option::Some((ServerEventView::StdoutOutput(bytes),
                j)),
            Option::None => Option::None,
        }
    } else {
        Option::None
    }
}

impl ServerEvent {
    /// Size of the specialised header before a byte variant's payload: the
    /// discriminant and the four-byte length.
    pub fn bytes_variant_header_len() -> (r: usize)
        ensures
            r == 5,
    {
        5
    }

    /// Write a byte variant's header in place at the start of `buf`, whose
    /// remainder already holds the payload.
    pub fn serialize_bytes_variant_header(&self, buf: &mut Vec<u8>)
        requires
            !(*self is Suspend),
            5 <= old(buf)@.len() <= u32::MAX,
        ensures
            final(buf)@.len() == old(buf)@.len(),
            final(buf)@.subrange(5, final(buf)@.len() as int)
                == old(buf)@.subrange(5, old(buf)@.len() as int),
            final(buf)@[0] == (if *self is Display { 0u8 } else { 2u8 }),
            dec_u32(final(buf)@[1], final(buf)@[2], final(buf)@[3], final(buf)@[4])
                == old(buf)@.len() - 5,
    {
        let d: u8 = match self {
            ServerEvent::Display(_) => 0,
            ServerEvent::Suspend => 0,
            ServerEvent::StdoutOutput(_) => 2,
        };
        let len = (buf.len() - 5) as u32;
        buf.set(0, d);
        buf.set(1, (len % 256) as u8);
        buf.set(2, ((len / 256) % 256) as u8);
        buf.set(3, ((len / 65536) % 256) as u8);
        buf.set(4, (len / 16777216) as u8);
        proof {
            lemma_u32_round_trip(len);
            assert(final(buf)@.subrange(5, final(buf)@.len() as int)
                =~= old(buf)@.subrange(5, old(buf)@.len() as int));
        }
    }

    /// Append the wire form of this event to `out`.
    pub fn serialize(&self, out: &mut Vec<u8>)
        requires
            server_event_wf(self@),
        ensures
            final(out)@ == old(out)@ + enc_server_event(self@),
    {
        match self {
            ServerEvent::Display(bytes) => {
                out.push(0u8);
                write_u32(out, bytes.len() as u32);
                crate::text::append_bytes(out, bytes.as_slice());
            }
            ServerEvent::Suspend => out.push(1u8),
            ServerEvent::StdoutOutput(bytes) => {
                out.push(2u8);
                write_u32(out, bytes.len() as u32);
                crate::text::append_bytes(out, bytes.as_slice());
            }
        }
        proof {
            assert(out@ =~= old(out)@ + enc_server_event(self@));
        }
    }

    /// Decode one server event at position `start` of `bytes`.
    pub fn deserialize(bytes: &[u8], start: usize) -> (r: Option<(ServerEvent, usize)>)
        requires
            start <= bytes@.len(),
        ensures
            r is Some ==> (dec_server_event(bytes@, start as int) matches Option::Some((v,
                j)) && v == r->Some_0.0@ && j == r->Some_0.1 as int
                && start < r->Some_0.1 <= bytes@.len()),
            r is None ==> dec_server_event(bytes@, start as int) is None,
    {
        let n = bytes.len();
        if start >= n {
            return None;
        }
        let d = bytes[start];
        if d == 0u8 {
            match deserialize_bytes(bytes, start + 1) {
                Some((payload, j)) => Some((ServerEvent::Display(payload), j)),
                None => None,
            }
        } else if d == 1u8 {
            Some((ServerEvent::Suspend, start + 1))
        } else if d == 2u8 {
            match deserialize_bytes(bytes, start + 1) {
                Some((payload, j)) => Some((ServerEvent::StdoutOutput(payload), j)),
                None => None,
            }
        } else {
            None
        }
    }
}

/// One decode step always advances and stays within the stream.
pub proof fn lemma_dec_client_event_advances(s: Seq<u8>, i: int)
    requires
        dec_client_event(s, i) is Some,
    ensures
        i < dec_client_event(s, i)->Some_0.1 <= s.len(),
{
}

/// The concatenated wire form of a sequence of events.
pub open spec fn enc_client_events(evs: Seq<ClientEventView>) -> Seq<u8>
    decreases evs.len(),
{
    if evs.len() == 0 {
        Seq::empty()
    } else {
        enc_client_event(evs[0]) + enc_client_events(evs.drop_first())
    }
}

/// Every event's payload fits its length prefix.
pub open spec fn client_events_wf(evs: Seq<ClientEventView>) -> bool {
    forall|k: int| 0 <= k < evs.len() ==> client_event_wf(#[trigger] evs[k])
}

/// Greedy decoding from position `i`: the events decoded one after another,
/// and the position where decoding stopped.
pub open spec fn dec_client_events(s: Seq<u8>, i: int) -> (Seq<ClientEventView>, int)
    decreases s.len() - i,
    via dec_client_events_decreases
{
    if i < 0 || i > s.len() {
        (Seq::empty(), i)
    } else {
        match dec_client_event(s, i) {
            Option::Some((e, j)) => {
                let (rest, end) = dec_client_events(s, j);
                (seq![e] + rest, end)
            }
            Option::None => (Seq::empty(), i),
        }
    }
}

#[via_fn]
proof fn dec_client_events_decreases(s: Seq<u8>, i: int) {
    if 0 <= i <= s.len() && dec_client_event(s, i) is Some {
        lemma_dec_client_event_advances(s, i);
    }
}

/// An encoding never has the empty length.
pub proof fn lemma_enc_client_event_len(e: ClientEventView)
    ensures
        enc_client_event(e).len() >= 1,
        enc_client_event(e)[0] as int <= 3,
{
}

/// Encoding one event and decoding it where it stands in a longer stream
/// yields the event again.
pub proof fn lemma_client_event_round_trip(e: ClientEventView, s: Seq<u8>, i: int)
    requires
        client_event_wf(e),
        0 <= i,
        i + enc_client_event(e).len() <= s.len(),
        forall|j: int| 0 <= j < enc_client_event(e).len()
            ==> s[i + j] == #[trigger] enc_client_event(e)[j],
    ensures
        dec_client_event(s, i) == Option::Some((e, i + enc_client_event(e).len())),
{
    let enc = enc_client_event(e);
    assert(s[i + 0] == enc[0]);
    match e {
        ClientEventView::Key(t, k) => {
            assert(s[i] == 0u8);
            assert(s[i + 1] == enc[1]);
            assert(enc[1] == enc_target(t)[0]);
            assert(dec_target(s, i + 1) == Option::Some((t, i + 2)));
            let ke = enc_key(k);
            assert forall|j: int| 0 <= j < ke.len()
                implies s.subrange(i + 2, i + 2 + ke.len() as int)[j] == ke[j] by {
                assert(enc[2 + j] == ke[j]);
                assert(s[i + 2 + j] == enc[2 + j]);
            }
            assert(s.subrange(i + 2, i + 2 + ke.len() as int) =~= ke);
            lemma_key_wire_round_trip(k, s, i + 2);
        }
        ClientEventView::Resize(w, h) => {
            assert(s[i] == 1u8);
            assert(s[i + 1] == enc[1]);
            assert(s[i + 2] == enc[2]);
            assert(s[i + 3] == enc[3]);
            assert(s[i + 4] == enc[4]);
            assert(enc[1] == enc_u16(w)[0]);
            assert(enc[2] == enc_u16(w)[1]);
            assert(enc[3] == enc_u16(h)[0]);
            assert(enc[4] == enc_u16(h)[1]);
            lemma_u16_round_trip(w);
            lemma_u16_round_trip(h);
        }
        ClientEventView::Command(t, bytes) => {
            assert(s[i] == 2u8);
            assert(s[i + 1] == enc[1]);
            assert(enc[1] == enc_target(t)[0]);
            assert(dec_target(s, i + 1) == Option::Some((t, i + 2)));
            assert forall|j: int| 0 <= j < 4 + bytes.len()
                implies s[i + 2 + j] == #[trigger] (enc_u32(bytes.len() as u32)
                    + bytes)[j] by {
                assert(s[i + (2 + j)] == enc[2 + j]);
                assert(enc[2 + j] == (enc_u32(bytes.len() as u32) + bytes)[j]);
            }
            lemma_bytes_round_trip(bytes, s, i + 2);
        }
        ClientEventView::StdinInput(t, bytes) => {
            assert(s[i] == 3u8);
            assert(s[i + 1] == enc[1]);
            assert(enc[1] == enc_target(t)[0]);
            assert(dec_target(s, i + 1) == Option::Some((t, i + 2)));
            assert forall|j: int| 0 <= j < 4 + bytes.len()
                implies s[i + 2 + j] == #[trigger] (enc_u32(bytes.len() as u32)
                    + bytes)[j] by {
                assert(s[i + (2 + j)] == enc[2 + j]);
                assert(enc[2 + j] == (enc_u32(bytes.len() as u32) + bytes)[j]);
            }
            lemma_bytes_round_trip(bytes, s, i + 2);
        }
    }
}

/// A length-prefixed byte slice decodes to itself where its encoding stands.
proof fn lemma_bytes_round_trip(bytes: Seq<u8>, s: Seq<u8>, i: int)
    requires
        bytes.len() <= u32::MAX,
        0 <= i,
        i + 4 + bytes.len() <= s.len(),
        forall|j: int| 0 <= j < 4 + bytes.len()
            ==> s[i + j] == #[trigger] (enc_u32(bytes.len() as u32) + bytes)[j],
    ensures
        dec_bytes(s, i) == Option::Some((bytes, i + 4 + bytes.len())),
{
    let le = enc_u32(bytes.len() as u32);
    assert(s[i + 0] == (le + bytes)[0]);
    assert(s[i + 1] == (le + bytes)[1]);
    assert(s[i + 2] == (le + bytes)[2]);
    assert(s[i + 3] == (le + bytes)[3]);
    assert((le + bytes)[0] == le[0]);
    assert((le + bytes)[1] == le[1]);
    assert((le + bytes)[2] == le[2]);
    assert((le + bytes)[3] == le[3]);
    lemma_u32_round_trip(bytes.len() as u32);
    assert(s[i] == le[0]);
    assert(dec_u32(s[i], s[i + 1], s[i + 2], s[i + 3]) == bytes.len());
    assert forall|j: int| 0 <= j < bytes.len()
        implies s.subrange(i + 4, i + 4 + bytes.len() as int)[j] == bytes[j] by {
        assert((le + bytes)[4 + j] == bytes[j]);
        assert(s[i + (4 + j)] == (le + bytes)[4 + j]);
    }
    assert(s.subrange(i + 4, i + 4 + bytes.len() as int) =~= bytes);
}

/// Feeding a whole serialized stream to the greedy decoder yields exactly
/// the events that were serialized, in order, consuming every byte: framing
/// loses nothing and invents nothing, however the stream was assembled.
pub proof fn lemma_client_events_round_trip(evs: Seq<ClientEventView>, s: Seq<u8>, i: int)
    requires
        client_events_wf(evs),
        0 <= i <= s.len(),
        s.len() - i == enc_client_events(evs).len(),
        forall|j: int| 0 <= j < enc_client_events(evs).len()
            ==> s[i + j] == #[trigger] enc_client_events(evs)[j],
    ensures
        dec_client_events(s, i) == (evs, s.len() as int),
    decreases evs.len(),
{
    if evs.len() == 0 {
        assert(i == s.len());
        assert(dec_client_event(s, i) is None);
        assert(dec_client_events(s, i) == (Seq::<ClientEventView>::empty(), i));
        assert(evs =~= Seq::<ClientEventView>::empty());
    } else {
        let e = evs[0];
        let rest = evs.drop_first();
        let enc0 = enc_client_event(e);
        let enc_rest = enc_client_events(rest);
        assert(enc_client_events(evs) == enc0 + enc_rest);
        assert forall|j: int| 0 <= j < enc0.len()
            implies s[i + j] == #[trigger] enc0[j] by {
            assert((enc0 + enc_rest)[j] == enc0[j]);
        }
        assert(client_event_wf(e));
        lemma_client_event_round_trip(e, s, i);
        let mid = i + enc0.len() as int;
        assert forall|j: int| 0 <= j < enc_rest.len()
            implies s[mid + j] == #[trigger] enc_rest[j] by {
            assert((enc0 + enc_rest)[enc0.len() + j] == enc_rest[j]);
            assert(s[i + (enc0.len() + j)] == (enc0 + enc_rest)[enc0.len() + j]);
        }
        assert forall|k: int| 0 <= k < rest.len()
            implies client_event_wf(#[trigger] rest[k]) by {
            assert(rest[k] == evs[k + 1]);
        }
        lemma_client_events_round_trip(rest, s, mid);
        assert(dec_client_events(s, i) == (seq![e] + rest, s.len() as int));
        assert(seq![e] + rest =~= evs);
    }
}

/// A strict prefix of one event's encoding at the end of the stream decodes
/// to nothing: a partial event is held back until the rest of its bytes
/// arrive, never mistaken for a complete one.
pub proof fn lemma_client_event_prefix_pending(e: ClientEventView, s: Seq<u8>, i: int)
    requires
        client_event_wf(e),
        0 <= i <= s.len(),
        s.len() - i < enc_client_event(e).len(),
        forall|j: int| 0 <= j < s.len() - i ==> s[i + j] == #[trigger] enc_client_event(e)[j],
    ensures
        dec_client_event(s, i) is None,
{
    let enc = enc_client_event(e);
    if i == s.len() {
        return;
    }
    assert(s[i + 0] == enc[0]);
    match e {
        ClientEventView::Key(t, k) => {
            assert(s[i] == 0u8);
            if i + 1 < s.len() {
                assert(s[i + 1] == enc[1]);
                assert(enc[1] == enc_target(t)[0]);
                let ke = enc_key(k);
                assert(s.len() - (i + 2) < ke.len());
                assert forall|j: int| 0 <= j < s.len() - (i + 2)
                    implies s[i + 2 + j] == #[trigger] ke[j] by {
                    assert(enc[2 + j] == ke[j]);
                    assert(s[i + (2 + j)] == enc[2 + j]);
                }
                lemma_key_prefix_pending(k, s, i + 2);
            } else {
                assert(dec_target(s, i + 1) is None);
            }
        }
        ClientEventView::Resize(_, _) => {
            assert(s[i] == 1u8);
            assert(s.len() < i + 5);
        }
        ClientEventView::Command(t, bytes) => {
            assert(s[i] == 2u8);
            if i + 1 < s.len() {
                assert(s[i + 1] == enc[1]);
                assert(enc[1] == enc_target(t)[0]);
                assert forall|j: int| 0 <= j < s.len() - (i + 2)
                    implies s[i + 2 + j] == #[trigger] (enc_u32(bytes.len() as u32)
                        + bytes)[j] by {
                    assert(s[i + (2 + j)] == enc[2 + j]);
                    assert(enc[2 + j] == (enc_u32(bytes.len() as u32) + bytes)[j]);
                }
                lemma_bytes_prefix_pending(bytes, s, i + 2);
            } else {
                assert(dec_target(s, i + 1) is None);
            }
        }
        ClientEventView::StdinInput(t, bytes) => {
            assert(s[i] == 3u8);
            if i + 1 < s.len() {
                assert(s[i + 1] == enc[1]);
                assert(enc[1] == enc_target(t)[0]);
                assert forall|j: int| 0 <= j < s.len() - (i + 2)
                    implies s[i + 2 + j] == #[trigger] (enc_u32(bytes.len() as u32)
                        + bytes)[j] by {
                    assert(s[i + (2 + j)] == enc[2 + j]);
                    assert(enc[2 + j] == (enc_u32(bytes.len() as u32) + bytes)[j]);
                }
                lemma_bytes_prefix_pending(bytes, s, i + 2);
            } else {
                assert(dec_target(s, i + 1) is None);
            }
        }
    }
}

/// A strict prefix of a key's encoding at the end of the stream decodes to
/// nothing.
proof fn lemma_key_prefix_pending(k: Key, s: Seq<u8>, i: int)
    requires
        0 <= i <= s.len(),
        s.len() - i < enc_key(k).len(),
        forall|j: int| 0 <= j < s.len() - i ==> s[i + j] == #[trigger] enc_key(k)[j],
    ensures
        dec_key(s, i) is None,
{
    let enc = enc_key(k);
    if i < s.len() {
        assert(s[i + 0] == enc[0]);
        match k {
            Key::F(_) => {
                assert(s[i] == 13u8);
                assert(s.len() < i + 2);
            }
            Key::Char(_) => {
                assert(s[i] == 14u8);
                assert(s.len() < i + 5);
            }
            Key::Ctrl(_) => {
                assert(s[i] == 15u8);
                assert(s.len() < i + 5);
            }
            Key::Alt(_) => {
                assert(s[i] == 16u8);
                assert(s.len() < i + 5);
            }
            _ => {}
        }
    }
}

/// A strict prefix of a length-prefixed slice's encoding at the end of the
/// stream decodes to nothing.
proof fn lemma_bytes_prefix_pending(bytes: Seq<u8>, s: Seq<u8>, i: int)
    requires
        bytes.len() <= u32::MAX,
        0 <= i,
        i <= s.len() + 2,
        s.len() < i + 4 + bytes.len(),
        forall|j: int| 0 <= j < s.len() - i
            ==> s[i + j] == #[trigger] (enc_u32(bytes.len() as u32) + bytes)[j],
    ensures
        dec_bytes(s, i) is None,
{
    if i + 4 <= s.len() {
        let le = enc_u32(bytes.len() as u32);
        assert(s[i + 0] == (le + bytes)[0]);
        assert(s[i + 1] == (le + bytes)[1]);
        assert(s[i + 2] == (le + bytes)[2]);
        assert(s[i + 3] == (le + bytes)[3]);
        assert((le + bytes)[0] == le[0]);
        assert((le + bytes)[1] == le[1]);
        assert((le + bytes)[2] == le[2]);
        assert((le + bytes)[3] == le[3]);
        lemma_u32_round_trip(bytes.len() as u32);
        assert(s[i] == le[0]);
        assert(dec_u32(s[i], s[i + 1], s[i + 2], s[i + 3]) == bytes.len());
    }
}

/// Per-connection reassembly of the client event stream: bytes arrive in
/// arbitrary fragments, are appended to the connection's buffer, and whole
/// events are decoded greedily; a partial event's bytes stay buffered.
pub struct ClientEventReceiver {
    bufs: Vec<Vec<u8>>,
}

impl ClientEventReceiver {
    pub closed spec fn buf_count(&self) -> int {
        self.bufs@.len() as int
    }

    pub closed spec fn buf_at(&self, idx: int) -> Seq<u8> {
        self.bufs@[idx]@
    }

    pub fn new() -> (r: Self)
        ensures
            r.buf_count() == 0,
    {
        Self { bufs: Vec::new() }
    }

    /// How many bytes one connection's buffer holds.
    pub fn buffered_len(&self, index: usize) -> (r: usize)
        requires
            (index as int) < self.buf_count(),
        ensures
            r == self.buf_at(index as int).len(),
    {
        self.bufs[index].len()
    }

    /// Append newly received bytes to the client's buffer and hand back a
    /// walk over the buffered events.
    pub fn receive_events(&mut self, client_handle: crate::client::ClientHandle,
        bytes: &[u8]) -> (r: ClientEventIter)
        ensures
            final(self).buf_count() > client_handle.spec_index(),
            r.buf_index_val() == client_handle.spec_index(),
            r.read_len_val() == 0,
            final(self).buf_at(client_handle.spec_index())
                == if client_handle.spec_index() < old(self).buf_count() {
                old(self).buf_at(client_handle.spec_index()) + bytes@
            } else {
                bytes@
            },
            // other clients' buffers are untouched, and slots grown on the
            // way start empty
            forall|k: int| 0 <= k < old(self).buf_count()
                && k != client_handle.spec_index() ==> final(self).buf_at(k)
                == old(self).buf_at(k),
            forall|k: int| old(self).buf_count() <= k < final(self).buf_count()
                && k != client_handle.spec_index() ==> final(self).buf_at(k).len() == 0,
    {
        let buf_index = client_handle.into_index();
        while self.bufs.len() <= buf_index
            invariant
                self.bufs@.len() >= old(self).buf_count(),
                forall|k: int| 0 <= k < old(self).buf_count() && k < self.bufs@.len()
                    ==> (#[trigger] self.bufs@[k])@ == old(self).buf_at(k),
                old(self).buf_count() <= self.bufs@.len()
                    ==> forall|k: int| old(self).buf_count() <= k < self.bufs@.len()
                        ==> (#[trigger] self.bufs@[k])@.len() == 0,
            decreases buf_index + 1 - self.bufs@.len(),
        {
            let ghost prior = self.bufs@;
            let fresh: Vec<u8> = Vec::new();
            self.bufs.push(fresh);
            proof {
                assert forall|k: int| 0 <= k < old(self).buf_count()
                    && k < self.bufs@.len() implies (#[trigger] self.bufs@[k])@
                        == old(self).buf_at(k) by {
                    assert(k < prior.len());
                    assert(self.bufs@[k] == prior[k]);
                }
                assert forall|k: int| old(self).buf_count() <= k < self.bufs@.len()
                    implies (#[trigger] self.bufs@[k])@.len() == 0 by {
                    if k < prior.len() {
                        assert(self.bufs@[k] == prior[k]);
                    } else {
                        assert(self.bufs@[k] == fresh);
                    }
                }
            }
        }
        let ghost before = self.bufs@[buf_index as int]@;
        let existing = &self.bufs[buf_index];
        let mut buf = crate::text::copy_range(existing.as_slice(), 0, existing.len());
        proof {
            assert(buf@ =~= before);
        }
        crate::text::append_bytes(&mut buf, bytes);
        self.bufs.set(buf_index, buf);
        proof {
            assert(self.bufs@[buf_index as int]@ == before + bytes@);
            if client_handle.spec_index() >= old(self).buf_count() {
                assert(before =~= Seq::<u8>::empty());
                assert(before + bytes@ =~= bytes@);
            }
        }
        ClientEventIter { buf_index, read_len: 0 }
    }
}

/// A walk over one connection's buffered events: an index pair into the
/// receiver, so the receiver itself stays borrowable. `finish` hands the
/// consumed prefix back to the receiver; without it the walk's progress is
/// simply forgotten.
pub struct ClientEventIter {
    buf_index: usize,
    read_len: usize,
}

impl ClientEventIter {
    pub closed spec fn buf_index_val(&self) -> int {
        self.buf_index as int
    }

    pub closed spec fn read_len_val(&self) -> int {
        self.read_len as int
    }

    /// How many buffered bytes the walk has consumed so far.
    pub fn read_len(&self) -> (r: usize)
        ensures
            r == self.read_len_val(),
    {
        self.read_len
    }

    /// Decode the next whole event of the buffer, advancing past it; `None`
    /// when the remaining bytes hold no whole event.
    pub fn next(&mut self, receiver: &ClientEventReceiver) -> (r: Option<ClientEvent>)
        requires
            old(self).buf_index_val() < receiver.buf_count(),
            0 <= old(self).read_len_val()
                <= receiver.buf_at(old(self).buf_index_val()).len(),
        ensures
            final(self).buf_index_val() == old(self).buf_index_val(),
            r is Some ==> (dec_client_event(receiver.buf_at(old(self).buf_index_val()),
                old(self).read_len_val()) matches Option::Some((v, j)) && v == r->Some_0@
                && j == final(self).read_len_val()
                && final(self).read_len_val()
                    <= receiver.buf_at(old(self).buf_index_val()).len()),
            r is None ==> dec_client_event(receiver.buf_at(old(self).buf_index_val()),
                old(self).read_len_val()) is None && *final(self) == *old(self),
    {
        match deserialize_client_event(receiver.bufs[self.buf_index].as_slice(),
            self.read_len) {
            Some((event, next_len)) => {
                self.read_len = next_len;
                Some(event)
            }
            None => None,
        }
    }

    /// Drop the consumed prefix from the connection's buffer; the tail that
    /// held no whole event stays for the next batch of bytes.
    pub fn finish(self, receiver: &mut ClientEventReceiver)
        requires
            self.buf_index_val() < old(receiver).buf_count(),
            0 <= self.read_len_val() <= old(receiver).buf_at(self.buf_index_val()).len(),
        ensures
            final(receiver).buf_count() == old(receiver).buf_count(),
            final(receiver).buf_at(self.buf_index_val())
                == old(receiver).buf_at(self.buf_index_val()).skip(self.read_len_val()),
            forall|k: int| 0 <= k < old(receiver).buf_count() && k != self.buf_index_val()
                ==> final(receiver).buf_at(k) == old(receiver).buf_at(k),
    {
        let buf = &receiver.bufs[self.buf_index];
        let rest = crate::text::copy_range(buf.as_slice(), self.read_len, buf.len());
        receiver.bufs.set(self.buf_index, rest);
        proof {
            assert(final(receiver).buf_at(self.buf_index_val())
                =~= old(receiver).buf_at(self.buf_index_val()).skip(self.read_len_val()));
        }
    }
}

} // verus!

