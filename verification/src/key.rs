//! Keys and their textual form: `<backspace>`, `<space>`, `<c-a>`, `<f12>`,
//! `<less>` for `<`, bare printable characters otherwise. Parsing is greedy
//! over a character stream; formatting every key and parsing it back yields
//! the key again.

use vstd::prelude::*;

verus! {

/// A key a client can press, with its modifier where one applies.
#[derive(Debug, Clone, Copy, PartialEq, Eq, Structural)]
pub enum Key {
    Nothing,
    Backspace,
    Enter,
    Left,
    Right,
    Up,
    Down,
    Home,
    End,
    PageUp,
    PageDown,
    Tab,
    Delete,
    F(u8),
    Char(char),
    Ctrl(char),
    Alt(char),
    Esc,
}

/// Why a key failed to parse.
#[derive(Debug, Clone, Copy, PartialEq, Eq, Structural)]
pub enum KeyParseError {
    UnexpectedEnd,
    InvalidCharacter(char),
}

/// A parse failure over a whole key sequence, with the character index the
/// failure was found at.
#[derive(Debug, Clone, Copy, PartialEq, Eq, Structural)]
pub struct KeyParseAllError {
    pub index: usize,
    pub error: KeyParseError,
}

/// The textual form of a key.
pub open spec fn spec_format_key(k: Key) -> Seq<char> {
    match k {
        Key::Nothing => Seq::empty(),
        Key::Backspace => lit_backspace(),
        Key::Enter => lit_enter(),
        Key::Left => lit_left(),
        Key::Right => lit_right(),
        Key::Up => lit_up(),
        Key::Down => lit_down(),
        Key::Home => lit_home(),
        Key::End => lit_end(),
        Key::PageUp => lit_pageup(),
        Key::PageDown => lit_pagedown(),
        Key::Tab => lit_tab(),
        Key::Delete => lit_delete(),
        Key::Esc => lit_esc(),
        Key::F(n) => if n < 10 {
            seq!['<', 'f', digit_char(n as int), '>']
        } else if n < 100 {
            seq!['<', 'f', digit_char(n as int / 10), digit_char(n as int % 10), '>']
        } else {
            seq!['<', 'f', digit_char(n as int / 100), digit_char((n as int / 10) % 10),
                digit_char(n as int % 10), '>']
        },
        Key::Char(c) => if c == '<' {
            lit_less()
        } else if c == '>' {
            lit_greater()
        } else if c == ' ' {
            lit_space()
        } else {
            seq![c]
        },
        Key::Ctrl(c) => seq!['<', 'c', '-', c, '>'],
        Key::Alt(c) => seq!['<', 'a', '-', c, '>'],
    }
}

pub open spec fn digit_char(d: int) -> char {
    if d == 0 { '0' } else if d == 1 { '1' } else if d == 2 { '2' } else if d == 3 { '3' }
    else if d == 4 { '4' } else if d == 5 { '5' } else if d == 6 { '6' } else if d == 7 { '7' }
    else if d == 8 { '8' } else { '9' }
}

pub open spec fn digit_val(c: char) -> int {
    if c == '0' { 0 } else if c == '1' { 1 } else if c == '2' { 2 } else if c == '3' { 3 }
    else if c == '4' { 4 } else if c == '5' { 5 } else if c == '6' { 6 } else if c == '7' { 7 }
    else if c == '8' { 8 } else if c == '9' { 9 } else { -1 }
}

pub open spec fn is_digit(c: char) -> bool {
    digit_val(c) >= 0
}

pub open spec fn is_ascii_alphanumeric_char(c: char) -> bool {
    ('0' <= c && c <= '9') || ('a' <= c && c <= 'z') || ('A' <= c && c <= 'Z')
}

pub open spec fn lit_backspace() -> Seq<char> {
    seq!['<', 'b', 'a', 'c', 'k', 's', 'p', 'a', 'c', 'e', '>']
}

pub open spec fn lit_space() -> Seq<char> {
    seq!['<', 's', 'p', 'a', 'c', 'e', '>']
}

pub open spec fn lit_enter() -> Seq<char> {
    seq!['<', 'e', 'n', 't', 'e', 'r', '>']
}

pub open spec fn lit_left() -> Seq<char> {
    seq!['<', 'l', 'e', 'f', 't', '>']
}

pub open spec fn lit_right() -> Seq<char> {
    seq!['<', 'r', 'i', 'g', 'h', 't', '>']
}

pub open spec fn lit_up() -> Seq<char> {
    seq!['<', 'u', 'p', '>']
}

pub open spec fn lit_down() -> Seq<char> {
    seq!['<', 'd', 'o', 'w', 'n', '>']
}

pub open spec fn lit_home() -> Seq<char> {
    seq!['<', 'h', 'o', 'm', 'e', '>']
}

pub open spec fn lit_end() -> Seq<char> {
    seq!['<', 'e', 'n', 'd', '>']
}

pub open spec fn lit_pageup() -> Seq<char> {
    seq!['<', 'p', 'a', 'g', 'e', 'u', 'p', '>']
}

pub open spec fn lit_pagedown() -> Seq<char> {
    seq!['<', 'p', 'a', 'g', 'e', 'd', 'o', 'w', 'n', '>']
}

pub open spec fn lit_tab() -> Seq<char> {
    seq!['<', 't', 'a', 'b', '>']
}

pub open spec fn lit_delete() -> Seq<char> {
    seq!['<', 'd', 'e', 'l', 'e', 't', 'e', '>']
}

pub open spec fn lit_esc() -> Seq<char> {
    seq!['<', 'e', 's', 'c', '>']
}

pub open spec fn lit_less() -> Seq<char> {
    seq!['<', 'l', 'e', 's', 's', '>']
}

pub open spec fn lit_greater() -> Seq<char> {
    seq!['<', 'g', 'r', 'e', 'a', 't', 'e', 'r', '>']
}

/// `lit` occurs in `s` starting at `i`.
pub open spec fn matches_at(s: Seq<char>, i: int, lit: Seq<char>) -> bool {
    &&& 0 <= i
    &&& i + lit.len() <= s.len()
    &&& forall|j: int| 0 <= j < lit.len() ==> s[i + j] == lit[j]
}

/// The key parsed at position `i` of `s` and the position after it, or
/// nothing when no key starts there.
pub open spec fn spec_parse_key(s: Seq<char>, i: int) -> Option<(Key, int)> {
    if i < 0 || i >= s.len() {
        Option::None
    } else if s[i] != '<' {
        if s[i] == '>' {
            Option::None
        } else {
            Option::Some((Key::Char(s[i]), i + 1))
        }
    } else if matches_at(s, i, lit_backspace()) {
        Option::Some((Key::Backspace, i + lit_backspace().len()))
    } else if matches_at(s, i, lit_space()) {
        Option::Some((Key::Char(' '), i + lit_space().len()))
    } else if matches_at(s, i, lit_enter()) {
        Option::Some((Key::Enter, i + lit_enter().len()))
    } else if matches_at(s, i, lit_left()) {
        Option::Some((Key::Left, i + lit_left().len()))
    } else if matches_at(s, i, lit_right()) {
        Option::Some((Key::Right, i + lit_right().len()))
    } else if matches_at(s, i, lit_up()) {
        Option::Some((Key::Up, i + lit_up().len()))
    } else if matches_at(s, i, lit_down()) {
        Option::Some((Key::Down, i + lit_down().len()))
    } else if matches_at(s, i, lit_home()) {
        Option::Some((Key::Home, i + lit_home().len()))
    } else if matches_at(s, i, lit_end()) {
        Option::Some((Key::End, i + lit_end().len()))
    } else if matches_at(s, i, lit_pageup()) {
        Option::Some((Key::PageUp, i + lit_pageup().len()))
    } else if matches_at(s, i, lit_pagedown()) {
        Option::Some((Key::PageDown, i + lit_pagedown().len()))
    } else if matches_at(s, i, lit_tab()) {
        Option::Some((Key::Tab, i + lit_tab().len()))
    } else if matches_at(s, i, lit_delete()) {
        Option::Some((Key::Delete, i + lit_delete().len()))
    } else if matches_at(s, i, lit_esc()) {
        Option::Some((Key::Esc, i + lit_esc().len()))
    } else if matches_at(s, i, lit_less()) {
        Option::Some((Key::Char('<'), i + lit_less().len()))
    } else if matches_at(s, i, lit_greater()) {
        Option::Some((Key::Char('>'), i + lit_greater().len()))
    } else if i + 3 < s.len() && s[i + 1] == 'f' && is_digit(s[i + 2]) && s[i + 3] == '>' {
        Option::Some((Key::F(digit_val(s[i + 2]) as u8), i + 4))
    } else if i + 4 < s.len() && s[i + 1] == 'f' && is_digit(s[i + 2]) && is_digit(s[i + 3])
        && s[i + 4] == '>' {
        Option::Some((Key::F((digit_val(s[i + 2]) * 10 + digit_val(s[i + 3])) as u8), i + 5))
    } else if i + 4 < s.len() && s[i + 1] == 'c' && s[i + 2] == '-'
        && is_ascii_alphanumeric_char(s[i + 3]) && s[i + 4] == '>' {
        Option::Some((Key::Ctrl(s[i + 3]), i + 5))
    } else if i + 4 < s.len() && s[i + 1] == 'a' && s[i + 2] == '-'
        && is_ascii_alphanumeric_char(s[i + 3]) && s[i + 4] == '>' {
        Option::Some((Key::Alt(s[i + 3]), i + 5))
    } else {
        Option::None
    }
}

/// Append the textual form of `key` to `out`.
pub fn format_key(key: Key, out: &mut Vec<char>)
    ensures
        final(out)@ == old(out)@ + spec_format_key(key),
{
    let ghost before = out@;
    match key {
        Key::Nothing => {}
        Key::Backspace => push_lit_backspace(out),
        Key::Enter => push_chars(out, '<', 'e', 'n', 't', 'e', 'r', '>'),
        Key::Left => push_chars5(out, '<', 'l', 'e', 'f', 't'),
        Key::Right => push_chars(out, '<', 'r', 'i', 'g', 'h', 't', '>'),
        Key::Up => {
            out.push('<');
            out.push('u');
            out.push('p');
            out.push('>');
        }
        Key::Down => push_chars5(out, '<', 'd', 'o', 'w', 'n'),
        Key::Home => push_chars5(out, '<', 'h', 'o', 'm', 'e'),
        Key::End => {
            out.push('<');
            out.push('e');
            out.push('n');
            out.push('d');
            out.push('>');
        }
        Key::PageUp => {
            push_chars(out, '<', 'p', 'a', 'g', 'e', 'u', 'p');
            out.push('>');
        }
        Key::PageDown => {
            push_chars(out, '<', 'p', 'a', 'g', 'e', 'd', 'o');
            out.push('w');
            out.push('n');
            out.push('>');
        }
        Key::Tab => {
            out.push('<');
            out.push('t');
            out.push('a');
            out.push('b');
            out.push('>');
        }
        Key::Delete => {
            push_chars(out, '<', 'd', 'e', 'l', 'e', 't', 'e');
            out.push('>');
        }
        Key::Esc => {
            out.push('<');
            out.push('e');
            out.push('s');
            out.push('c');
            out.push('>');
        }
        Key::F(n) => {
            out.push('<');
            out.push('f');
            if n < 10 {
                out.push(digit_to_char(n));
            } else if n < 100 {
                out.push(digit_to_char(n / 10));
                out.push(digit_to_char(n % 10));
            } else {
                out.push(digit_to_char(n / 100));
                out.push(digit_to_char((n / 10) % 10));
                out.push(digit_to_char(n % 10));
            }
            out.push('>');
        }
        Key::Char(c) => {
            if c == '<' {
                push_chars5(out, '<', 'l', 'e', 's', 's');
            } else if c == '>' {
                push_chars(out, '<', 'g', 'r', 'e', 'a', 't', 'e');
                out.push('r');
                out.push('>');
            } else if c == ' ' {
                push_chars(out, '<', 's', 'p', 'a', 'c', 'e', '>');
            } else {
                out.push(c);
            }
        }
        Key::Ctrl(c) => {
            out.push('<');
            out.push('c');
            out.push('-');
            out.push(c);
            out.push('>');
        }
        Key::Alt(c) => {
            out.push('<');
            out.push('a');
            out.push('-');
            out.push(c);
            out.push('>');
        }
    }
    proof {
        assert(out@ =~= before + spec_format_key(key));
    }
}

fn push_chars5(out: &mut Vec<char>, a: char, b: char, c: char, d: char, e: char)
    ensures
        final(out)@ == old(out)@ + seq![a, b, c, d, e, '>'],
{
    out.push(a);
    out.push(b);
    out.push(c);
    out.push(d);
    out.push(e);
    out.push('>');
    proof {
        assert(out@ =~= old(out)@ + seq![a, b, c, d, e, '>']);
    }
}

fn push_chars(out: &mut Vec<char>, a: char, b: char, c: char, d: char, e: char, f: char,
    g: char)
    ensures
        final(out)@ == old(out)@ + seq![a, b, c, d, e, f, g],
{
    out.push(a);
    out.push(b);
    out.push(c);
    out.push(d);
    out.push(e);
    out.push(f);
    out.push(g);
    proof {
        assert(out@ =~= old(out)@ + seq![a, b, c, d, e, f, g]);
    }
}

fn push_lit_backspace(out: &mut Vec<char>)
    ensures
        final(out)@ == old(out)@ + lit_backspace(),
{
    out.push('<');
    out.push('b');
    out.push('a');
    out.push('c');
    out.push('k');
    out.push('s');
    out.push('p');
    out.push('a');
    out.push('c');
    out.push('e');
    out.push('>');
    proof {
        assert(out@ =~= old(out)@ + lit_backspace());
    }
}

fn digit_to_char(d: u8) -> (r: char)
    requires
        d < 10,
    ensures
        r == digit_char(d as int),
{
    match d {
        0 => '0',
        1 => '1',
        2 => '2',
        3 => '3',
        4 => '4',
        5 => '5',
        6 => '6',
        7 => '7',
        8 => '8',
        _ => '9',
    }
}

fn char_digit_val(c: char) -> (r: i32)
    ensures
        r == digit_val(c),
{
    match c {
        '0' => 0,
        '1' => 1,
        '2' => 2,
        '3' => 3,
        '4' => 4,
        '5' => 5,
        '6' => 6,
        '7' => 7,
        '8' => 8,
        '9' => 9,
        _ => -1,
    }
}

fn char_is_alnum(c: char) -> (r: bool)
    ensures
        r == is_ascii_alphanumeric_char(c),
{
    ('0' <= c && c <= '9') || ('a' <= c && c <= 'z') || ('A' <= c && c <= 'Z')
}

/// `lit` occurs in `chars` at `i` (executable form of `matches_at`).
fn try_match(chars: &[char], i: usize, lit: &Vec<char>) -> (r: bool)
    requires
        i <= chars@.len(),
    ensures
        r == matches_at(chars@, i as int, lit@),
{
    if lit.len() > chars.len() - i {
        return false;
    }
    let n = chars.len();
    let mut j: usize = 0;
    while j < lit.len()
        invariant
            n == chars@.len(),
            i + lit@.len() <= chars@.len(),
            j <= lit@.len(),
            forall|t: int| 0 <= t < j ==> chars@[i + t] == lit@[t],
        decreases lit@.len() - j,
    {
        if chars[i + j] != lit[j] {
            return false;
        }
        j = j + 1;
    }
    true
}

/// Parse one key at position `start` of `chars`. `Ok` carries the key and
/// the position after it; `Err` reports why no key starts there.
pub fn parse_key(chars: &[char], start: usize) -> (r: Result<(Key, usize), KeyParseError>)
    requires
        start <= chars@.len(),
    ensures
        r is Ok ==> spec_parse_key(chars@, start as int) == Option::Some((r->Ok_0.0,
            r->Ok_0.1 as int)) && start < r->Ok_0.1 <= chars@.len(),
        r is Err ==> spec_parse_key(chars@, start as int) is None,
{
    let n = chars.len();
    if start >= n {
        return Err(KeyParseError::UnexpectedEnd);
    }
    let c0 = chars[start];
    if c0 != '<' {
        if c0 == '>' {
            return Err(KeyParseError::InvalidCharacter('>'));
        }
        return Ok((Key::Char(c0), start + 1));
    }
    if try_match(chars, start, &lit_backspace_vec()) {
        return Ok((Key::Backspace, start + 11));
    }
    if try_match(chars, start, &lit_space_vec()) {
        return Ok((Key::Char(' '), start + 7));
    }
    if try_match(chars, start, &lit_enter_vec()) {
        return Ok((Key::Enter, start + 7));
    }
    if try_match(chars, start, &lit_left_vec()) {
        return Ok((Key::Left, start + 6));
    }
    if try_match(chars, start, &lit_right_vec()) {
        return Ok((Key::Right, start + 7));
    }
    if try_match(chars, start, &lit_up_vec()) {
        return Ok((Key::Up, start + 4));
    }
    if try_match(chars, start, &lit_down_vec()) {
        return Ok((Key::Down, start + 6));
    }
    if try_match(chars, start, &lit_home_vec()) {
        return Ok((Key::Home, start + 6));
    }
    if try_match(chars, start, &lit_end_vec()) {
        return Ok((Key::End, start + 5));
    }
    if try_match(chars, start, &lit_pageup_vec()) {
        return Ok((Key::PageUp, start + 8));
    }
    if try_match(chars, start, &lit_pagedown_vec()) {
        return Ok((Key::PageDown, start + 10));
    }
    if try_match(chars, start, &lit_tab_vec()) {
        return Ok((Key::Tab, start + 5));
    }
    if try_match(chars, start, &lit_delete_vec()) {
        return Ok((Key::Delete, start + 8));
    }
    if try_match(chars, start, &lit_esc_vec()) {
        return Ok((Key::Esc, start + 5));
    }
    if try_match(chars, start, &lit_less_vec()) {
        return Ok((Key::Char('<'), start + 6));
    }
    if try_match(chars, start, &lit_greater_vec()) {
        return Ok((Key::Char('>'), start + 9));
    }
    if n - start > 3 && chars[start + 1] == 'f' {
        let d0 = char_digit_val(chars[start + 2]);
        if d0 >= 0 && chars[start + 3] == '>' {
            return Ok((Key::F(d0 as u8), start + 4));
        }
        if n - start > 4 && d0 >= 0 {
            let d1 = char_digit_val(chars[start + 3]);
            if d1 >= 0 && chars[start + 4] == '>' {
                return Ok((Key::F((d0 * 10 + d1) as u8), start + 5));
            }
        }
    }
    if n - start > 4 && chars[start + 1] == 'c' && chars[start + 2] == '-'
        && char_is_alnum(chars[start + 3]) && chars[start + 4] == '>' {
        return Ok((Key::Ctrl(chars[start + 3]), start + 5));
    }
    if n - start > 4 && chars[start + 1] == 'a' && chars[start + 2] == '-'
        && char_is_alnum(chars[start + 3]) && chars[start + 4] == '>' {
        return Ok((Key::Alt(chars[start + 3]), start + 5));
    }
    if n - start > 1 {
        Err(KeyParseError::InvalidCharacter(chars[start + 1]))
    } else {
        Err(KeyParseError::UnexpectedEnd)
    }
}

fn lit_backspace_vec() -> (r: Vec<char>)
    ensures
        r@ == lit_backspace(),
{
    let r = vec!['<', 'b', 'a', 'c', 'k', 's', 'p', 'a', 'c', 'e', '>'];
    proof {
        assert(r@ =~= lit_backspace());
    }
    r
}

fn lit_space_vec() -> (r: Vec<char>)
    ensures
        r@ == lit_space(),
{
    let r = vec!['<', 's', 'p', 'a', 'c', 'e', '>'];
    proof {
        assert(r@ =~= lit_space());
    }
    r
}

fn lit_enter_vec() -> (r: Vec<char>)
    ensures
        r@ == lit_enter(),
{
    let r = vec!['<', 'e', 'n', 't', 'e', 'r', '>'];
    proof {
        assert(r@ =~= lit_enter());
    }
    r
}

fn lit_left_vec() -> (r: Vec<char>)
    ensures
        r@ == lit_left(),
{
    let r = vec!['<', 'l', 'e', 'f', 't', '>'];
    proof {
        assert(r@ =~= lit_left());
    }
    r
}

fn lit_right_vec() -> (r: Vec<char>)
    ensures
        r@ == lit_right(),
{
    let r = vec!['<', 'r', 'i', 'g', 'h', 't', '>'];
    proof {
        assert(r@ =~= lit_right());
    }
    r
}

fn lit_up_vec() -> (r: Vec<char>)
    ensures
        r@ == lit_up(),
{
    let r = vec!['<', 'u', 'p', '>'];
    proof {
        assert(r@ =~= lit_up());
    }
    r
}

fn lit_down_vec() -> (r: Vec<char>)
    ensures
        r@ == lit_down(),
{
    let r = vec!['<', 'd', 'o', 'w', 'n', '>'];
    proof {
        assert(r@ =~= lit_down());
    }
    r
}

fn lit_home_vec() -> (r: Vec<char>)
    ensures
        r@ == lit_home(),
{
    let r = vec!['<', 'h', 'o', 'm', 'e', '>'];
    proof {
        assert(r@ =~= lit_home());
    }
    r
}

fn lit_end_vec() -> (r: Vec<char>)
    ensures
        r@ == lit_end(),
{
    let r = vec!['<', 'e', 'n', 'd', '>'];
    proof {
        assert(r@ =~= lit_end());
    }
    r
}

fn lit_pageup_vec() -> (r: Vec<char>)
    ensures
        r@ == lit_pageup(),
{
    let r = vec!['<', 'p', 'a', 'g', 'e', 'u', 'p', '>'];
    proof {
        assert(r@ =~= lit_pageup());
    }
    r
}

fn lit_pagedown_vec() -> (r: Vec<char>)
    ensures
        r@ == lit_pagedown(),
{
    let r = vec!['<', 'p', 'a', 'g', 'e', 'd', 'o', 'w', 'n', '>'];
    proof {
        assert(r@ =~= lit_pagedown());
    }
    r
}

fn lit_tab_vec() -> (r: Vec<char>)
    ensures
        r@ == lit_tab(),
{
    let r = vec!['<', 't', 'a', 'b', '>'];
    proof {
        assert(r@ =~= lit_tab());
    }
    r
}

fn lit_delete_vec() -> (r: Vec<char>)
    ensures
        r@ == lit_delete(),
{
    let r = vec!['<', 'd', 'e', 'l', 'e', 't', 'e', '>'];
    proof {
        assert(r@ =~= lit_delete());
    }
    r
}

fn lit_esc_vec() -> (r: Vec<char>)
    ensures
        r@ == lit_esc(),
{
    let r = vec!['<', 'e', 's', 'c', '>'];
    proof {
        assert(r@ =~= lit_esc());
    }
    r
}

fn lit_less_vec() -> (r: Vec<char>)
    ensures
        r@ == lit_less(),
{
    let r = vec!['<', 'l', 'e', 's', 's', '>'];
    proof {
        assert(r@ =~= lit_less());
    }
    r
}

fn lit_greater_vec() -> (r: Vec<char>)
    ensures
        r@ == lit_greater(),
{
    let r = vec!['<', 'g', 'r', 'e', 'a', 't', 'e', 'r', '>'];
    proof {
        assert(r@ =~= lit_greater());
    }
    r
}

/// Walks a character sequence, yielding one parsed key at a time; a parse
/// failure carries the index it was found at and ends the walk.
pub struct KeyParser {
    chars: Vec<char>,
    index: usize,
    failed: bool,
}

impl KeyParser {
    pub closed spec fn chars_seq(&self) -> Seq<char> {
        self.chars@
    }

    pub closed spec fn index_val(&self) -> int {
        self.index as int
    }

    /// How much walking is left: a measure that every yielded item shrinks.
    pub closed spec fn measure_val(&self) -> int {
        (if self.index <= self.chars@.len() {
            self.chars@.len() - self.index
        } else {
            0int
        }) + (if self.failed {
            0int
        } else {
            1int
        })
    }

    pub fn new(chars: &[char]) -> (r: Self)
        ensures
            r.chars_seq() == chars@,
            r.index_val() == 0,
            r.measure_val() >= 0,
    {
        let mut copy: Vec<char> = Vec::new();
        let mut i: usize = 0;
        while i < chars.len()
            invariant
                i <= chars@.len(),
                copy@ == chars@.take(i as int),
            decreases chars@.len() - i,
        {
            copy.push(chars[i]);
            proof {
                assert(copy@ =~= chars@.take(i + 1 as int));
            }
            i = i + 1;
        }
        proof {
            assert(chars@.take(chars@.len() as int) =~= chars@);
        }
        Self { chars: copy, index: 0, failed: false }
    }

    /// The next key of the text, `None` at its end, or the error with its
    /// index when parsing fails; after a failure the walk stays ended.
    pub fn next(&mut self) -> (r: Option<Result<Key, KeyParseAllError>>)
        ensures
            final(self).chars_seq() == old(self).chars_seq(),
            final(self).measure_val() >= 0,
            r is Some ==> final(self).measure_val() < old(self).measure_val(),
            r matches Some(Ok(k)) ==> spec_parse_key(old(self).chars_seq(),
                old(self).index_val()) == Option::Some((k, final(self).index_val())),
    {
        if self.failed || self.index >= self.chars.len() {
            return None;
        }
        match parse_key(self.chars.as_slice(), self.index) {
            Ok((key, next_index)) => {
                self.index = next_index;
                Some(Ok(key))
            }
            Err(error) => {
                self.failed = true;
                let index = self.index;
                Some(Err(KeyParseAllError { index, error }))
            }
        }
    }
}

/// A candidate key name does not match when one of its characters differs
/// or the text is too short.
proof fn lemma_differs(s: Seq<char>, lit: Seq<char>, j: int)
    requires
        0 <= j < lit.len(),
        j >= s.len() || s[j] != lit[j],
    ensures
        !matches_at(s, 0, lit),
{
    if matches_at(s, 0, lit) {
        assert(s[0 + j] == lit[j]);
    }
}

/// Formatting a key and parsing the text back yields the key: the textual
/// key protocol round-trips. This holds for every key that has a parseable
/// form: every key but `Nothing` (which formats to nothing), function keys up
/// to 99, and control or alt chords on ascii alphanumerics.
pub proof fn lemma_key_format_parse_round_trip(k: Key)
    requires
        !(k is Nothing),
        k is F ==> k->F_0 <= 99,
        k is Ctrl ==> is_ascii_alphanumeric_char(k->Ctrl_0),
        k is Alt ==> is_ascii_alphanumeric_char(k->Alt_0),
    ensures
        spec_parse_key(spec_format_key(k), 0) == Option::Some((k,
            spec_format_key(k).len() as int)),
{
    let s = spec_format_key(k);
    match k {
        Key::Nothing => {}
        Key::Backspace => {
            assert(matches_at(s, 0, lit_backspace()));
        }
        Key::Enter => {
            lemma_differs(s, lit_space(), 1);
            assert(matches_at(s, 0, lit_enter()));
        }
        Key::Left => {
            assert(matches_at(s, 0, lit_left()));
        }
        Key::Right => {
            lemma_differs(s, lit_space(), 1);
            lemma_differs(s, lit_enter(), 1);
            lemma_differs(s, lit_left(), 1);
            assert(matches_at(s, 0, lit_right()));
        }
        Key::Up => {
            assert(matches_at(s, 0, lit_up()));
        }
        Key::Down => {
            lemma_differs(s, lit_left(), 1);
            lemma_differs(s, lit_up(), 1);
            assert(matches_at(s, 0, lit_down()));
        }
        Key::Home => {
            lemma_differs(s, lit_left(), 1);
            lemma_differs(s, lit_up(), 1);
            lemma_differs(s, lit_down(), 1);
            assert(matches_at(s, 0, lit_home()));
        }
        Key::End => {
            lemma_differs(s, lit_up(), 1);
            assert(matches_at(s, 0, lit_end()));
        }
        Key::PageUp => {
            lemma_differs(s, lit_space(), 1);
            lemma_differs(s, lit_enter(), 1);
            lemma_differs(s, lit_left(), 1);
            lemma_differs(s, lit_right(), 1);
            lemma_differs(s, lit_up(), 1);
            lemma_differs(s, lit_down(), 1);
            lemma_differs(s, lit_home(), 1);
            lemma_differs(s, lit_end(), 1);
            assert(matches_at(s, 0, lit_pageup()));
        }
        Key::PageDown => {
            lemma_differs(s, lit_space(), 1);
            lemma_differs(s, lit_enter(), 1);
            lemma_differs(s, lit_left(), 1);
            lemma_differs(s, lit_right(), 1);
            lemma_differs(s, lit_up(), 1);
            lemma_differs(s, lit_down(), 1);
            lemma_differs(s, lit_home(), 1);
            lemma_differs(s, lit_end(), 1);
            lemma_differs(s, lit_pageup(), 5);
            lemma_differs(s, lit_greater(), 1);
            assert(matches_at(s, 0, lit_pagedown()));
        }
        Key::Tab => {
            lemma_differs(s, lit_up(), 1);
            lemma_differs(s, lit_end(), 1);
            assert(matches_at(s, 0, lit_tab()));
        }
        Key::Delete => {
            lemma_differs(s, lit_space(), 1);
            lemma_differs(s, lit_enter(), 1);
            lemma_differs(s, lit_left(), 1);
            lemma_differs(s, lit_right(), 1);
            lemma_differs(s, lit_up(), 1);
            lemma_differs(s, lit_down(), 2);
            lemma_differs(s, lit_home(), 1);
            lemma_differs(s, lit_end(), 1);
            lemma_differs(s, lit_pageup(), 1);
            assert(matches_at(s, 0, lit_delete()));
        }
        Key::Esc => {
            lemma_differs(s, lit_up(), 1);
            lemma_differs(s, lit_end(), 2);
            lemma_differs(s, lit_tab(), 1);
            assert(matches_at(s, 0, lit_esc()));
        }
        Key::F(n) => {
            lemma_differs(s, lit_up(), 1);
            lemma_differs(s, lit_end(), 1);
            lemma_differs(s, lit_tab(), 1);
            lemma_differs(s, lit_esc(), 1);
            if n >= 10 {
                lemma_differs(s, lit_left(), 1);
                lemma_differs(s, lit_down(), 1);
                lemma_differs(s, lit_home(), 1);
                lemma_differs(s, lit_less(), 1);
            }
            if n < 10 {
                assert(s[2] == digit_char(n as int));
                assert(digit_val(digit_char(n as int)) == n as int);
                assert(s[3] == '>');
            } else {
                assert(digit_val(digit_char(n as int / 10)) == n as int / 10);
                assert(digit_val(digit_char(n as int % 10)) == n as int % 10);
                assert(digit_char(n as int / 10) != '>');
                assert(s[4] == '>');
                assert(digit_val(s[2]) * 10 + digit_val(s[3]) == n as int);
            }
        }
        Key::Char(c) => {
            if c == '<' {
                lemma_differs(s, lit_left(), 3);
                lemma_differs(s, lit_up(), 1);
                lemma_differs(s, lit_down(), 1);
                lemma_differs(s, lit_home(), 1);
                lemma_differs(s, lit_end(), 1);
                lemma_differs(s, lit_tab(), 1);
                lemma_differs(s, lit_esc(), 1);
                assert(matches_at(s, 0, lit_less()));
            } else if c == '>' {
                lemma_differs(s, lit_space(), 1);
                lemma_differs(s, lit_enter(), 1);
                lemma_differs(s, lit_left(), 1);
                lemma_differs(s, lit_right(), 1);
                lemma_differs(s, lit_up(), 1);
                lemma_differs(s, lit_down(), 1);
                lemma_differs(s, lit_home(), 1);
                lemma_differs(s, lit_end(), 1);
                lemma_differs(s, lit_pageup(), 1);
                lemma_differs(s, lit_tab(), 1);
                lemma_differs(s, lit_delete(), 1);
                lemma_differs(s, lit_esc(), 1);
                lemma_differs(s, lit_less(), 1);
                assert(matches_at(s, 0, lit_greater()));
            } else if c == ' ' {
                assert(matches_at(s, 0, lit_space()));
            } else {
                assert(s[0] == c);
            }
        }
        Key::Ctrl(c) => {
            lemma_differs(s, lit_up(), 1);
            lemma_differs(s, lit_end(), 1);
            lemma_differs(s, lit_tab(), 1);
            lemma_differs(s, lit_esc(), 1);
            assert(s[1] == 'c');
            assert(s[4] == '>');
        }
        Key::Alt(c) => {
            lemma_differs(s, lit_up(), 1);
            lemma_differs(s, lit_end(), 1);
            lemma_differs(s, lit_tab(), 1);
            lemma_differs(s, lit_esc(), 1);
            assert(s[1] == 'a');
            assert(s[4] == '>');
        }
    }
}

} // verus!
