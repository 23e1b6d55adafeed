//! Paths written inside text: `path:line,column` forms as they appear in
//! compiler output or grep results, and finding such a path around a byte
//! position of a line.

use vstd::prelude::*;

use crate::position::BufferPosition;

verus! {

/// Parse a 1-based `line[,column]` suffix into a position; anything after
/// the leading digits of each number is ignored. `None` without a digit.
pub fn parse_position(text: &[u8]) -> (r: Option<BufferPosition>)
    ensures
        r is Some ==> text@.len() >= 1,
{
    let n = text.len();
    let mut i: usize = 0;
    let mut line: u64 = 0;
    let mut saw_digit = false;
    while i < n && text[i] >= 0x30u8 && text[i] <= 0x39u8
        invariant
            i <= n,
            n == text@.len(),
            line <= 0xffffffffu64,
            saw_digit ==> n >= 1,
        decreases n - i,
    {
        if line < 0x19999999u64 {
            line = line * 10 + (text[i] - 0x30u8) as u64;
        }
        saw_digit = true;
        i = i + 1;
    }
    if !saw_digit {
        return None;
    }
    let line_index: u32 = if line > 0 {
        (line - 1) as u32
    } else {
        0
    };
    let mut column: u64 = 0;
    let mut saw_col = false;
    if i < n && text[i] == 0x2cu8 {
        i = i + 1;
        while i < n && text[i] >= 0x30u8 && text[i] <= 0x39u8
            invariant
                i <= n,
                n == text@.len(),
                column <= 0xffffffffu64,
            decreases n - i,
        {
            if column < 0x19999999u64 {
                column = column * 10 + (text[i] - 0x30u8) as u64;
            }
            saw_col = true;
            i = i + 1;
        }
    }
    let column_byte_index: u32 = if saw_col && column > 0 {
        (column - 1) as u32
    } else {
        0
    };
    Some(BufferPosition { line_index, column_byte_index })
}

/// Split a trimmed `path:position` into the path and the parsed position;
/// text without a parseable position after its last colon is all path.
pub fn parse_path_and_position(text: &[u8]) -> (r: (Vec<u8>, Option<BufferPosition>))
    ensures
        r.0@.len() <= text@.len(),
{
    let trimmed = trim_ascii(text);
    let n = trimmed.len();
    let mut colon: Option<usize> = None;
    let mut i: usize = n;
    while i > 0
        invariant
            i <= n,
            n == trimmed@.len(),
            colon matches Some(c) ==> c < n,
        decreases i,
    {
        i = i - 1;
        if trimmed[i] == 0x3au8 {
            colon = Some(i);
            break;
        }
    }
    match colon {
        Some(c) => {
            let suffix = crate::text::copy_range(trimmed.as_slice(), c + 1, n);
            match parse_position(suffix.as_slice()) {
                Some(position) => {
                    (crate::text::copy_range(trimmed.as_slice(), 0, c), Some(position))
                }
                None => (trimmed, None),
            }
        }
        None => (trimmed, None),
    }
}

/// The path under byte `index` of `text`, delimited by ascii whitespace,
/// with the `line[,column]` suffix after its last colon parsed off; a colon
/// at offset 1 is a drive letter and stays part of the path.
pub fn find_path_and_position_at(text: &[u8], index: usize) -> (r: (Vec<u8>,
    Option<BufferPosition>))
    requires
        index <= text@.len(),
    ensures
        r.0@.len() <= text@.len(),
{
    let n = text.len();
    // word start: after the last whitespace before `index`
    let mut from: usize = 0;
    let mut i: usize = index;
    let mut searching_start = true;
    while searching_start && i > 0
        invariant
            i <= index <= n,
            n == text@.len(),
            from <= index,
        decreases (if searching_start { 1int } else { 0int }), i,
    {
        i = i - 1;
        if is_ascii_ws(text[i]) {
            from = i + 1;
            searching_start = false;
        }
    }
    // word end: the first whitespace or colon at or after `index`
    let mut to: usize = n;
    let mut j: usize = index;
    let mut searching_end = true;
    while searching_end && j < n
        invariant
            index <= j <= n,
            n == text@.len(),
            to == n,
        decreases (if searching_end { 1int } else { 0int }), n - j,
    {
        if is_ascii_ws(text[j]) || text[j] == 0x3au8 {
            searching_end = false;
        } else {
            j = j + 1;
        }
    }
    if !searching_end {
        if from <= j && j - from == 1 {
            to = n;
        } else {
            to = j;
        }
    }
    if to < from {
        to = from;
    }
    // the path's own last colon, unless it is a drive letter's
    let mut colon: Option<usize> = None;
    let mut k: usize = to;
    let mut searching_colon = true;
    while searching_colon && k > from
        invariant
            from <= k <= to <= n,
            n == text@.len(),
            colon matches Some(c) ==> from <= c && c < to,
        decreases (if searching_colon { 1int } else { 0int }), k,
    {
        k = k - 1;
        if text[k] == 0x3au8 {
            colon = Some(k);
            searching_colon = false;
        }
    }
    let drive_colon = match colon {
        Some(c) => c == from + 1,
        None => true,
    };
    if drive_colon {
        let path = crate::text::copy_range(text, from, to);
        let position = if to < n && text[to] == 0x3au8 {
            let suffix = crate::text::copy_range(text, to + 1, n);
            parse_position(suffix.as_slice())
        } else {
            None
        };
        (path, position)
    } else {
        let c = match colon {
            Some(c) => c,
            None => to,
        };
        let path = crate::text::copy_range(text, from, c);
        let suffix = crate::text::copy_range(text, c + 1, to);
        let position = parse_position(suffix.as_slice());
        (path, position)
    }
}

/// Whether a byte is ascii whitespace.
pub fn is_ascii_ws(b: u8) -> (r: bool)
    ensures
        r == (b == 0x20 || (0x09 <= b && b <= 0x0d)),
{
    b == 0x20u8 || (0x09u8 <= b && b <= 0x0du8)
}

/// The text with ascii whitespace stripped from both ends.
pub fn trim_ascii(text: &[u8]) -> (r: Vec<u8>)
    ensures
        r@.len() <= text@.len(),
{
    let n = text.len();
    let mut start: usize = 0;
    while start < n && is_ascii_ws(text[start])
        invariant
            start <= n,
            n == text@.len(),
        decreases n - start,
    {
        start = start + 1;
    }
    let mut end: usize = n;
    while end > start && is_ascii_ws(text[end - 1])
        invariant
            start <= end <= n,
            n == text@.len(),
        decreases end,
    {
        end = end - 1;
    }
    crate::text::copy_range(text, start, end)
}

} // verus!
