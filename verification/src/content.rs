//! Line-oriented buffer content: a non-empty ordered list of utf-8 text
//! lines addressed by `BufferPosition` byte coordinates, with insert and
//! delete operations that report the affected range.
//!
//! The mathematical model is twofold: the list of line byte sequences, and
//! the flattened document (lines joined with `\n`). Insert and delete are
//! specified structurally over the lines; flattening lemmas connect the two.

use vstd::prelude::*;

use crate::position::{BufferPosition, BufferRange};
use crate::text::{
    copy_range, find_byte, flatten_lines, lemma_find_byte, lemma_flatten_append,
    lemma_flatten_len, lemma_flatten_prefix_first, lemma_flatten_split,
    lemma_flatten_suffix_last, lemma_split_lines_shape, nl, split_lines, split_text,
};

verus! {

/// One line of buffer text. The bytes are utf-8 and never hold a newline.
pub struct BufferLine {
    text: Vec<u8>,
}

impl View for BufferLine {
    type V = Seq<u8>;

    closed spec fn view(&self) -> Seq<u8> {
        self.text@
    }
}

impl BufferLine {
    /// A line holds no newline byte.
    pub open spec fn wf(self) -> bool {
        find_byte(self@, nl()) < 0
    }

    pub fn new() -> (r: Self)
        ensures
            r@ == Seq::<u8>::empty(),
            r.wf(),
    {
        let r = Self { text: Vec::new() };
        proof {
            assert(r@ =~= Seq::<u8>::empty());
        }
        r
    }

    /// The line's utf-8 bytes.
    pub fn as_str(&self) -> (r: &[u8])
        ensures
            r@ == self@,
    {
        self.text.as_slice()
    }

    /// Byte length of the line.
    pub fn len(&self) -> (r: usize)
        ensures
            r == self@.len(),
    {
        self.text.len()
    }

    /// Append `text` to the end of the line.
    pub fn push_text(&mut self, text: &[u8])
        ensures
            final(self)@ == old(self)@ + text@,
    {
        let mut i: usize = 0;
        while i < text.len()
            invariant
                i <= text@.len(),
                self@ == old(self)@ + text@.take(i as int),
            decreases text@.len() - i,
        {
            self.text.push(text[i]);
            proof {
                assert(old(self)@ + text@.take(i as int) + seq![text@[i as int]]
                    =~= old(self)@ + text@.take(i + 1 as int));
            }
            i = i + 1;
        }
        proof {
            assert(text@.take(text@.len() as int) =~= text@);
        }
    }

    /// Move the bytes from `index` on into `other`, clearing whatever
    /// `other` held; this line keeps the prefix.
    pub fn split_off(&mut self, other: &mut BufferLine, index: usize)
        requires
            index <= old(self)@.len(),
        ensures
            final(self)@ == old(self)@.take(index as int),
            final(other)@ == old(self)@.skip(index as int),
    {
        other.text.clear();
        let rest = copy_range(self.text.as_slice(), index, self.text.len());
        other.text = rest;
        self.text.truncate(index);
    }

    /// Insert `text` at byte offset `index`.
    pub fn insert_text(&mut self, index: usize, text: &[u8])
        requires
            index <= old(self)@.len(),
        ensures
            final(self)@ == old(self)@.take(index as int) + text@ + old(self)@.skip(index as int),
    {
        let tail = copy_range(self.text.as_slice(), index, self.text.len());
        self.text.truncate(index);
        self.push_text(text);
        self.push_text(tail.as_slice());
    }

    /// Remove the bytes between `from` and `to`.
    pub fn delete_range(&mut self, from: usize, to: usize)
        requires
            from <= to <= old(self)@.len(),
        ensures
            final(self)@ == old(self)@.take(from as int) + old(self)@.skip(to as int),
    {
        let tail = copy_range(self.text.as_slice(), to, self.text.len());
        self.text.truncate(from);
        self.push_text(tail.as_slice());
    }
}

/// Reuse of line buffers across edits, so that large edits do not thrash the
/// allocator. A released line's contents are never exposed: `acquire` clears.
pub struct BufferLinePool {
    pool: Vec<BufferLine>,
}

impl BufferLinePool {
    pub fn new() -> (r: Self) {
        Self { pool: Vec::new() }
    }

    /// A spare line, emptied, or a fresh one when the pool is dry.
    pub fn acquire(&mut self) -> (r: BufferLine)
        ensures
            r@ == Seq::<u8>::empty(),
            r.wf(),
    {
        match self.pool.pop() {
            Some(mut line) => {
                line.text.clear();
                proof {
                    assert(line@ =~= Seq::<u8>::empty());
                }
                line
            }
            None => BufferLine::new(),
        }
    }

    pub fn release(&mut self, line: BufferLine) {
        self.pool.push(line);
    }
}

/// The lines as byte sequences.
pub open spec fn lines_view(lines: Seq<BufferLine>) -> Seq<Seq<u8>> {
    lines.map_values(|l: BufferLine| l@)
}

/// `p` addresses a byte boundary within `lines`.
pub open spec fn valid_position(lines: Seq<Seq<u8>>, p: BufferPosition) -> bool {
    &&& (p.line_index as int) < lines.len()
    &&& p.column_byte_index <= lines[p.line_index as int].len()
}

/// Both endpoints of `r` address byte boundaries, in order.
pub open spec fn valid_range(lines: Seq<Seq<u8>>, r: BufferRange) -> bool {
    &&& r.wf()
    &&& valid_position(lines, r.from)
    &&& valid_position(lines, r.to)
}

/// The lines after inserting `text` at `p`: the line at `p` is split at the
/// column, the split head is joined with the first piece of `text`, each
/// embedded newline opens a new line, and the split tail is joined onto the
/// last piece.
pub open spec fn spec_insert_lines(lines: Seq<Seq<u8>>, p: BufferPosition, text: Seq<u8>)
    -> Seq<Seq<u8>> {
    let li = p.line_index as int;
    let col = p.column_byte_index as int;
    let head = lines[li].take(col);
    let tail = lines[li].skip(col);
    let pieces = split_lines(text);
    let joined = if pieces.len() == 1 {
        seq![head + text + tail]
    } else {
        seq![head + pieces.first()] + pieces.subrange(1, pieces.len() - 1)
            + seq![pieces.last() + tail]
    };
    lines.take(li) + joined + lines.skip(li + 1)
}

/// The end of the range an insertion at `p` covers.
pub open spec fn spec_insert_end(lines: Seq<Seq<u8>>, p: BufferPosition, text: Seq<u8>)
    -> BufferPosition {
    let pieces = split_lines(text);
    if pieces.len() == 1 {
        BufferPosition {
            line_index: p.line_index,
            column_byte_index: (p.column_byte_index + text.len()) as u32,
        }
    } else {
        BufferPosition {
            line_index: (p.line_index + pieces.len() - 1) as u32,
            column_byte_index: pieces.last().len() as u32,
        }
    }
}

/// The lines after deleting the text covered by `r`: the head of the first
/// line is rejoined with the tail of the last, and the lines between vanish.
pub open spec fn spec_delete_lines(lines: Seq<Seq<u8>>, r: BufferRange) -> Seq<Seq<u8>> {
    let fl = r.from.line_index as int;
    let tl = r.to.line_index as int;
    let merged = lines[fl].take(r.from.column_byte_index as int)
        + lines[tl].skip(r.to.column_byte_index as int);
    lines.take(fl) + seq![merged] + lines.skip(tl + 1)
}

/// The text covered by `r`: the suffix of the first line, the lines
/// strictly between, and the prefix of the last line, joined with newlines.
pub open spec fn range_text(lines: Seq<Seq<u8>>, r: BufferRange) -> Seq<u8> {
    let fl = r.from.line_index as int;
    let tl = r.to.line_index as int;
    let fcol = r.from.column_byte_index as int;
    let tcol = r.to.column_byte_index as int;
    if fl == tl {
        lines[fl].subrange(fcol, tcol)
    } else {
        flatten_lines(seq![lines[fl].skip(fcol)] + lines.subrange(fl + 1, tl)
            + seq![lines[tl].take(tcol)])
    }
}

/// The block an insertion splices in place of the split line, and what it
/// flattens to: the head of the split line, the text, and the tail.
proof fn lemma_insert_joined_flat(line: Seq<u8>, col: int, text: Seq<u8>)
    requires
        0 <= col <= line.len(),
    ensures
        ({
            let head = line.take(col);
            let tail = line.skip(col);
            let pieces = split_lines(text);
            let joined = if pieces.len() == 1 {
                seq![head + text + tail]
            } else {
                seq![head + pieces.first()] + pieces.subrange(1, pieces.len() - 1)
                    + seq![pieces.last() + tail]
            };
            flatten_lines(joined) == head + text + tail
        }),
{
    let head = line.take(col);
    let tail = line.skip(col);
    let pieces = split_lines(text);
    lemma_split_lines_shape(text);
    lemma_flatten_split(text);
    if pieces.len() == 1 {
        assert(flatten_lines(seq![head + text + tail]) == head + text + tail);
    } else {
        let np = pieces.len() as int;
        let mid = pieces.drop_last() + seq![pieces.last() + tail];
        lemma_flatten_suffix_last(pieces, tail);
        lemma_flatten_prefix_first(head, mid);
        assert(mid[0] == pieces[0]);
        assert(mid.drop_first() =~= pieces.subrange(1, np - 1) + seq![pieces.last() + tail]);
        let joined = seq![head + pieces.first()] + pieces.subrange(1, np - 1)
            + seq![pieces.last() + tail];
        assert(joined =~= seq![head + mid[0]] + mid.drop_first());
        assert(flatten_lines(joined) == head + flatten_lines(mid));
        assert(head + (text + tail) =~= head + text + tail);
    }
}

/// Flattening `lines.take(i) + block + lines.skip(j)` for a non-empty block,
/// expressed through `lemma_flatten_append` case by case.
proof fn lemma_flatten_splice(lines: Seq<Seq<u8>>, i: int, j: int, block: Seq<Seq<u8>>)
    requires
        0 <= i,
        i < j,
        j <= lines.len(),
        block.len() >= 1,
    ensures
        flatten_lines(lines.take(i) + block + lines.skip(j)) == if i == 0 && j == lines.len() {
            flatten_lines(block)
        } else if i == 0 {
            flatten_lines(block) + seq![nl()] + flatten_lines(lines.skip(j))
        } else if j == lines.len() {
            flatten_lines(lines.take(i)) + seq![nl()] + flatten_lines(block)
        } else {
            flatten_lines(lines.take(i)) + seq![nl()] + flatten_lines(block) + seq![nl()]
                + flatten_lines(lines.skip(j))
        },
{
    let pre = lines.take(i);
    let post = lines.skip(j);
    if i == 0 && j == lines.len() {
        assert(pre + block + post =~= block);
    } else if i == 0 {
        assert(pre + block + post =~= block + post);
        lemma_flatten_append(block, post);
    } else if j == lines.len() {
        assert(pre + block + post =~= pre + block);
        lemma_flatten_append(pre, block);
    } else {
        lemma_flatten_append(block, post);
        lemma_flatten_append(pre, block + post);
        assert(pre + block + post =~= pre + (block + post));
        assert(flatten_lines(pre) + seq![nl()] + (flatten_lines(block) + seq![nl()]
                + flatten_lines(post))
            =~= flatten_lines(pre) + seq![nl()] + flatten_lines(block) + seq![nl()]
                + flatten_lines(post));
    }
}

/// An insertion grows the flattened document by exactly the inserted text;
/// inserting into a fresh single empty line yields exactly the text.
pub proof fn lemma_insert_flatten(lines: Seq<Seq<u8>>, p: BufferPosition, text: Seq<u8>)
    requires
        lines.len() >= 1,
        valid_position(lines, p),
    ensures
        flatten_lines(spec_insert_lines(lines, p, text)).len()
            == flatten_lines(lines).len() + text.len(),
        lines == seq![Seq::<u8>::empty()] ==> flatten_lines(spec_insert_lines(lines, p, text))
            == text,
{
    let li = p.line_index as int;
    let col = p.column_byte_index as int;
    let head = lines[li].take(col);
    let tail = lines[li].skip(col);
    let pieces = split_lines(text);
    let joined = if pieces.len() == 1 {
        seq![head + text + tail]
    } else {
        seq![head + pieces.first()] + pieces.subrange(1, pieces.len() - 1)
            + seq![pieces.last() + tail]
    };
    lemma_insert_joined_flat(lines[li], col, text);
    lemma_flatten_splice(lines, li, li + 1, joined);
    lemma_flatten_splice(lines, li, li + 1, seq![lines[li]]);
    assert(lines.take(li) + seq![lines[li]] + lines.skip(li + 1) =~= lines);
    assert(flatten_lines(seq![lines[li]]) == lines[li]);
    assert(head + tail =~= lines[li]);
    if lines == seq![Seq::<u8>::empty()] {
        assert(head + text + tail =~= text);
    }
}

/// Deleting exactly the range an insertion covered restores the lines.
pub proof fn lemma_insert_then_delete_lines(lines: Seq<Seq<u8>>, p: BufferPosition, text: Seq<u8>)
    requires
        lines.len() >= 1,
        valid_position(lines, p),
        p.column_byte_index + text.len() <= u32::MAX,
        p.line_index + split_lines(text).len() - 1 <= u32::MAX,
    ensures
        ({
            let inserted = spec_insert_lines(lines, p, text);
            let r = BufferRange { from: p, to: spec_insert_end(lines, p, text) };
            &&& spec_delete_lines(inserted, r) == lines
            &&& valid_range(inserted, r)
            &&& range_text(inserted, r) == text
        }),
{
    let li = p.line_index as int;
    let col = p.column_byte_index as int;
    let head = lines[li].take(col);
    let tail = lines[li].skip(col);
    let pieces = split_lines(text);
    let np = pieces.len() as int;
    lemma_split_lines_shape(text);
    lemma_flatten_split(text);
    let inserted = spec_insert_lines(lines, p, text);
    let e = spec_insert_end(lines, p, text);
    let r = BufferRange { from: p, to: e };
    if np == 1 {
        assert(inserted =~= lines.take(li) + seq![head + text + tail] + lines.skip(li + 1));
        assert(inserted[li] == head + text + tail);
        assert(e.line_index as int == li);
        assert(e.column_byte_index as int == col + text.len());
        assert(inserted[li].take(col) =~= head);
        assert(inserted[li].skip(col + text.len()) =~= tail);
        assert(spec_delete_lines(inserted, r)
            =~= lines.take(li) + seq![head + tail] + lines.skip(li + 1));
        assert(head + tail =~= lines[li]);
        assert(lines.take(li) + seq![lines[li]] + lines.skip(li + 1) =~= lines);
        assert(inserted[li].subrange(col, col + text.len()) =~= text);
    } else {
        let tl = li + np - 1;
        assert(inserted =~= lines.take(li) + (seq![head + pieces.first()]
            + pieces.subrange(1, np - 1) + seq![pieces.last() + tail]) + lines.skip(li + 1));
        assert(inserted.len() == lines.len() + np - 1);
        assert(e.line_index as int == tl);
        assert(e.column_byte_index as int == pieces.last().len());
        assert(inserted[li] == head + pieces.first());
        assert(inserted[tl] == pieces.last() + tail);
        assert(inserted[li].take(col) =~= head);
        assert(inserted[tl].skip(pieces.last().len() as int) =~= tail);
        assert(spec_delete_lines(inserted, r)
            =~= inserted.take(li) + seq![head + tail] + inserted.skip(tl + 1));
        assert(inserted.take(li) =~= lines.take(li));
        assert(inserted.skip(tl + 1) =~= lines.skip(li + 1));
        assert(head + tail =~= lines[li]);
        assert(lines.take(li) + seq![lines[li]] + lines.skip(li + 1) =~= lines);
        // the covered text is the inserted text
        assert(inserted[li].skip(col) =~= pieces.first());
        assert(inserted[tl].take(pieces.last().len() as int) =~= pieces.last());
        assert(inserted.subrange(li + 1, tl) =~= pieces.subrange(1, np - 1));
        assert(seq![pieces.first()] + pieces.subrange(1, np - 1) + seq![pieces.last()]
            =~= pieces);
        assert(range_text(inserted, r) == flatten_lines(pieces));
    }
}

/// Re-inserting the text a deletion removed, at the deletion's start,
/// restores the lines, and the insertion covers the deleted range again.
pub proof fn lemma_delete_then_insert_lines(lines: Seq<Seq<u8>>, r: BufferRange)
    requires
        lines.len() >= 1,
        valid_range(lines, r),
        forall|i: int| 0 <= i < lines.len() ==> find_byte(#[trigger] lines[i], nl()) < 0,
    ensures
        ({
            let deleted = spec_delete_lines(lines, r);
            let text = range_text(lines, r);
            &&& spec_insert_lines(deleted, r.from, text) == lines
            &&& spec_insert_end(deleted, r.from, text) == r.to
            &&& valid_position(deleted, r.from)
            &&& deleted.len() >= 1
        }),
{
    let fl = r.from.line_index as int;
    let tl = r.to.line_index as int;
    let fcol = r.from.column_byte_index as int;
    let tcol = r.to.column_byte_index as int;
    let deleted = spec_delete_lines(lines, r);
    let text = range_text(lines, r);
    let merged = lines[fl].take(fcol) + lines[tl].skip(tcol);
    assert(deleted =~= lines.take(fl) + seq![merged] + lines.skip(tl + 1));
    assert(deleted[fl] == merged);
    assert(merged.take(fcol) =~= lines[fl].take(fcol));
    assert(merged.skip(fcol) =~= lines[tl].skip(tcol));
    if fl == tl {
        assert(text == lines[fl].subrange(fcol, tcol));
        lemma_no_nl_split(text, lines[fl], fcol, tcol);
        let pieces = split_lines(text);
        assert(pieces.len() == 1);
        assert(spec_insert_lines(deleted, r.from, text)
            =~= deleted.take(fl) + seq![merged.take(fcol) + text + merged.skip(fcol)]
                + deleted.skip(fl + 1));
        assert(merged.take(fcol) + text + merged.skip(fcol) =~= lines[fl]);
        assert(deleted.take(fl) =~= lines.take(fl));
        assert(deleted.skip(fl + 1) =~= lines.skip(fl + 1));
        assert(lines.take(fl) + seq![lines[fl]] + lines.skip(fl + 1) =~= lines);
    } else {
        let covered = seq![lines[fl].skip(fcol)] + lines.subrange(fl + 1, tl)
            + seq![lines[tl].take(tcol)];
        assert(covered.len() == tl - fl + 1);
        lemma_split_flatten_exact(covered, lines, fl, tl, fcol, tcol);
        let pieces = split_lines(text);
        assert(pieces == covered);
        assert(pieces.len() == tl - fl + 1);
        assert(pieces.first() == lines[fl].skip(fcol));
        assert(pieces.last() == lines[tl].take(tcol));
        let np = pieces.len() as int;
        assert(spec_insert_lines(deleted, r.from, text)
            =~= deleted.take(fl) + (seq![merged.take(fcol) + pieces.first()]
                + pieces.subrange(1, np - 1) + seq![pieces.last() + merged.skip(fcol)])
                + deleted.skip(fl + 1));
        assert(merged.take(fcol) + pieces.first() =~= lines[fl]);
        assert(pieces.last() + merged.skip(fcol) =~= lines[tl]);
        assert(pieces.subrange(1, np - 1) =~= lines.subrange(fl + 1, tl));
        assert(deleted.take(fl) =~= lines.take(fl));
        assert(deleted.skip(fl + 1) =~= lines.skip(tl + 1));
        assert(spec_insert_lines(deleted, r.from, text) =~= lines.take(fl)
            + seq![lines[fl]] + lines.subrange(fl + 1, tl) + seq![lines[tl]]
            + lines.skip(tl + 1));
        assert(lines.take(fl) + seq![lines[fl]] + lines.subrange(fl + 1, tl)
            + seq![lines[tl]] + lines.skip(tl + 1) =~= lines);
        assert(spec_insert_end(deleted, r.from, text).line_index as int == fl + np - 1);
    }
}

/// Joining two newline-free byte sequences yields a newline-free sequence.
proof fn lemma_cat2_no_nl(a: Seq<u8>, b: Seq<u8>)
    requires
        find_byte(a, nl()) < 0,
        find_byte(b, nl()) < 0,
    ensures
        find_byte(a + b, nl()) < 0,
{
    lemma_find_byte(a, nl());
    lemma_find_byte(b, nl());
    lemma_find_byte(a + b, nl());
    let f = find_byte(a + b, nl());
    if f >= 0 {
        if f < a.len() {
            assert((a + b)[f] == a[f]);
        } else {
            assert((a + b)[f] == b[f - a.len()]);
        }
    }
}

/// The head of a line, a single-piece text, and the tail of the line join
/// into a newline-free sequence.
proof fn lemma_cat3_no_nl(line: Seq<u8>, col: int, text: Seq<u8>, sp: Seq<Seq<u8>>)
    requires
        find_byte(line, nl()) < 0,
        0 <= col <= line.len(),
        sp == split_lines(text),
        sp.len() == 1,
    ensures
        find_byte(line.take(col) + text + line.skip(col), nl()) < 0,
{
    lemma_find_byte(line, nl());
    lemma_find_byte(line.take(col), nl());
    let f1 = find_byte(line.take(col), nl());
    if f1 >= 0 {
        assert(line[f1] == nl());
    }
    lemma_find_byte_skip(line, col);
    lemma_split_lines_shape(text);
    lemma_flatten_split(text);
    assert(flatten_lines(sp) == sp[0]);
    assert(text == sp[0]);
    lemma_cat2_no_nl(line.take(col), text);
    lemma_cat2_no_nl(line.take(col) + text, line.skip(col));
}

/// Every line of an insertion result is newline-free, given newline-free
/// inputs.
proof fn lemma_insert_lines_no_nl(lines: Seq<Seq<u8>>, p: BufferPosition, text: Seq<u8>, i: int)
    requires
        lines.len() >= 1,
        valid_position(lines, p),
        forall|k: int| 0 <= k < lines.len() ==> find_byte(#[trigger] lines[k], nl()) < 0,
        0 <= i < spec_insert_lines(lines, p, text).len(),
    ensures
        find_byte(spec_insert_lines(lines, p, text)[i], nl()) < 0,
{
    let li = p.line_index as int;
    let col = p.column_byte_index as int;
    let head = lines[li].take(col);
    let tail = lines[li].skip(col);
    let pieces = split_lines(text);
    let np = pieces.len() as int;
    lemma_split_lines_shape(text);
    lemma_find_byte(lines[li], nl());
    lemma_find_byte_skip(lines[li], col);
    let fh = find_byte(head, nl());
    lemma_find_byte(head, nl());
    if fh >= 0 {
        assert(lines[li][fh] == nl());
    }
    let result = spec_insert_lines(lines, p, text);
    if np == 1 {
        lemma_cat3_no_nl(lines[li], col, text, pieces);
        if i < li {
            assert(result[i] == lines[i]);
        } else if i > li {
            assert(result[i] == lines[i]);
        }
    } else {
        lemma_cat2_no_nl(head, pieces.first());
        lemma_cat2_no_nl(pieces.last(), tail);
        if i < li {
            assert(result[i] == lines[i]);
        } else if i == li {
            assert(result[i] == head + pieces.first());
        } else if i < li + np - 1 {
            assert(result[i] == pieces[i - li]);
        } else if i == li + np - 1 {
            assert(result[i] == pieces.last() + tail);
        } else {
            assert(result[i] == lines[i - np + 1]);
        }
    }
}

/// Insertion into newline-free lines yields newline-free lines.
pub proof fn lemma_insert_lines_keeps_no_nl(lines: Seq<Seq<u8>>, p: BufferPosition,
    text: Seq<u8>)
    requires
        lines.len() >= 1,
        valid_position(lines, p),
        forall|k: int| 0 <= k < lines.len() ==> find_byte(#[trigger] lines[k], nl()) < 0,
    ensures
        forall|i: int| 0 <= i < spec_insert_lines(lines, p, text).len()
            ==> find_byte(#[trigger] spec_insert_lines(lines, p, text)[i], nl()) < 0,
{
    assert forall|i: int| 0 <= i < spec_insert_lines(lines, p, text).len()
        implies find_byte(#[trigger] spec_insert_lines(lines, p, text)[i], nl()) < 0 by {
        lemma_insert_lines_no_nl(lines, p, text, i);
    }
}

/// Deletion from newline-free lines yields newline-free lines.
pub proof fn lemma_delete_lines_keeps_no_nl(lines: Seq<Seq<u8>>, r: BufferRange)
    requires
        lines.len() >= 1,
        valid_range(lines, r),
        forall|k: int| 0 <= k < lines.len() ==> find_byte(#[trigger] lines[k], nl()) < 0,
    ensures
        forall|i: int| 0 <= i < spec_delete_lines(lines, r).len()
            ==> find_byte(#[trigger] spec_delete_lines(lines, r)[i], nl()) < 0,
{
    let fl = r.from.line_index as int;
    let tl = r.to.line_index as int;
    let deleted = spec_delete_lines(lines, r);
    assert forall|i: int| 0 <= i < deleted.len()
        implies find_byte(#[trigger] deleted[i], nl()) < 0 by {
        if i < fl {
            assert(deleted[i] == lines[i]);
        } else if i == fl {
            lemma_find_byte_take(lines[fl], r.from.column_byte_index as int);
            lemma_find_byte_skip(lines[tl], r.to.column_byte_index as int);
            lemma_cat2_no_nl(lines[fl].take(r.from.column_byte_index as int),
                lines[tl].skip(r.to.column_byte_index as int));
        } else {
            assert(deleted[i] == lines[i + (tl - fl)]);
        }
    }
}

/// A subrange of a newline-free line splits into a single piece.
proof fn lemma_no_nl_split(text: Seq<u8>, line: Seq<u8>, fcol: int, tcol: int)
    requires
        find_byte(line, nl()) < 0,
        0 <= fcol <= tcol <= line.len(),
        text == line.subrange(fcol, tcol),
    ensures
        split_lines(text) == seq![text],
{
    lemma_find_byte(line, nl());
    lemma_find_byte(text, nl());
    let f = find_byte(text, nl());
    if f >= 0 {
        assert(text[f] == line[fcol + f]);
        assert(false);
    }
}

/// Splitting the flattened covered block of a multi-line range yields the
/// block itself: each block line came from a buffer line and holds no
/// newline.
proof fn lemma_split_flatten_exact(
    covered: Seq<Seq<u8>>,
    lines: Seq<Seq<u8>>,
    fl: int,
    tl: int,
    fcol: int,
    tcol: int,
)
    requires
        0 <= fl < tl < lines.len(),
        0 <= fcol <= lines[fl].len(),
        0 <= tcol <= lines[tl].len(),
        forall|i: int| 0 <= i < lines.len() ==> find_byte(#[trigger] lines[i], nl()) < 0,
        covered == seq![lines[fl].skip(fcol)] + lines.subrange(fl + 1, tl)
            + seq![lines[tl].take(tcol)],
    ensures
        split_lines(flatten_lines(covered)) == covered,
{
    assert forall|i: int| 0 <= i < covered.len()
        implies find_byte(#[trigger] covered[i], nl()) < 0 by {
        if i == 0 {
            lemma_find_byte_skip(lines[fl], fcol);
        } else if i == covered.len() - 1 {
            lemma_find_byte(lines[tl], nl());
            lemma_find_byte(lines[tl].take(tcol), nl());
            let f = find_byte(lines[tl].take(tcol), nl());
            if f >= 0 {
                assert(lines[tl][f] == nl());
            }
        } else {
            assert(covered[i] == lines[fl + i]);
        }
    }
    lemma_split_of_flatten(covered);
}

/// Splitting undoes flattening for any block of newline-free lines.
pub proof fn lemma_split_of_flatten(block: Seq<Seq<u8>>)
    requires
        block.len() >= 1,
        forall|i: int| 0 <= i < block.len() ==> find_byte(#[trigger] block[i], nl()) < 0,
    ensures
        split_lines(flatten_lines(block)) == block,
    decreases block.len(),
{
    if block.len() == 1 {
        assert(flatten_lines(block) == block[0]);
        lemma_find_byte(block[0], nl());
        assert(split_lines(block[0]) =~= seq![block[0]]);
        assert(seq![block[0]] =~= block);
    } else {
        let rest = block.drop_first();
        assert forall|i: int| 0 <= i < rest.len()
            implies find_byte(#[trigger] rest[i], nl()) < 0 by {
            assert(rest[i] == block[i + 1]);
        }
        lemma_split_of_flatten(rest);
        let flat = flatten_lines(block);
        assert(flat == block[0] + seq![nl()] + flatten_lines(rest));
        let k = block[0].len() as int;
        lemma_find_byte(block[0], nl());
        assert(flat[k] == nl());
        assert forall|j: int| 0 <= j < k implies flat[j] != nl() by {
            assert(flat[j] == block[0][j]);
        }
        crate::text::lemma_find_byte_unique(flat, nl(), k);
        assert(flat.take(k) =~= block[0]);
        assert(flat.skip(k + 1) =~= flatten_lines(rest));
        assert(split_lines(flat) == seq![block[0]] + split_lines(flatten_lines(rest)));
        assert(seq![block[0]] + rest =~= block);
    }
}

/// Non-empty ordered list of text lines with a pool of spare line buffers.
pub struct BufferContent {
    lines: Vec<BufferLine>,
    line_pool: BufferLinePool,
}

impl BufferContent {
    /// The content as a sequence of line byte sequences.
    pub closed spec fn view_lines(&self) -> Seq<Seq<u8>> {
        lines_view(self.lines@)
    }

    /// The whole document: lines joined with `\n`.
    pub open spec fn flat(&self) -> Seq<u8> {
        flatten_lines(self.view_lines())
    }

    /// Invariant: at least one line always exists, no line holds a newline,
    /// and the flattened document fits in the position coordinate space.
    pub open spec fn wf(&self) -> bool {
        &&& self.view_lines().len() >= 1
        &&& forall|i: int| 0 <= i < self.view_lines().len()
            ==> find_byte(#[trigger] self.view_lines()[i], nl()) < 0
        &&& self.flat().len() <= u32::MAX
    }

    /// Every line is no longer than the document, and the line count is
    /// bounded by the document length plus one.
    pub proof fn lemma_wf_bounds(&self)
        requires
            self.wf(),
        ensures
            self.view_lines().len() <= u32::MAX as int + 1,
            forall|i: int| 0 <= i < self.view_lines().len()
                ==> #[trigger] self.view_lines()[i].len() <= u32::MAX,
    {
        lemma_flatten_len(self.view_lines());
    }

    /// A fresh content: one empty line.
    pub fn new() -> (r: Self)
        ensures
            r.wf(),
            r.view_lines() == seq![Seq::<u8>::empty()],
            r.flat() == Seq::<u8>::empty(),
    {
        let mut lines: Vec<BufferLine> = Vec::new();
        lines.push(BufferLine::new());
        let r = Self { lines, line_pool: BufferLinePool::new() };
        proof {
            assert(r.view_lines() =~= seq![Seq::<u8>::empty()]);
        }
        r
    }

    pub fn line_count(&self) -> (r: usize)
        ensures
            r == self.view_lines().len(),
    {
        self.lines.len()
    }

    /// Read access to all lines.
    pub fn lines(&self) -> (r: &Vec<BufferLine>)
        ensures
            lines_view(r@) == self.view_lines(),
    {
        &self.lines
    }

    pub fn line_at(&self, index: usize) -> (r: &BufferLine)
        requires
            index < self.view_lines().len(),
        ensures
            r@ == self.view_lines()[index as int],
    {
        &self.lines[index]
    }

    /// The position one past the last byte of the last line.
    pub fn end(&self) -> (r: BufferPosition)
        requires
            self.wf(),
        ensures
            r.line_index as int == self.view_lines().len() - 1,
            r.column_byte_index == self.view_lines().last().len(),
    {
        proof {
            self.lemma_wf_bounds();
        }
        let last_line_index = self.lines.len() - 1;
        BufferPosition {
            line_index: last_line_index as u32,
            column_byte_index: self.lines[last_line_index].len() as u32,
        }
    }

    /// Whether the flattened document would still fit the coordinate space
    /// after growing by `extra` bytes.
    pub fn flat_len_fits(&self, extra: usize) -> (r: bool)
        requires
            self.wf(),
        ensures
            r == (self.flat().len() + extra <= u32::MAX),
    {
        let mut acc: u64 = 0;
        let n = self.lines.len();
        let mut i: usize = 0;
        proof {
            self.lemma_wf_bounds();
            lemma_flatten_len(self.view_lines());
        }
        while i < n
            invariant
                self.wf(),
                n == self.view_lines().len(),
                i <= n,
                i == 0 ==> acc == 0,
                i >= 1 ==> acc == flatten_lines(self.view_lines().take(i as int)).len(),
                acc <= u32::MAX,
            decreases n - i,
        {
            let line_len = self.lines[i].len() as u64;
            proof {
                let lv = self.view_lines();
                lemma_flatten_len(lv);
                if i == 0 {
                    assert(lv.take(1) =~= seq![lv[0]]);
                    assert(flatten_lines(lv.take(1)) == lv[0]);
                } else {
                    lemma_flatten_append(lv.take(i as int), seq![lv[i as int]]);
                    assert(lv.take(i as int) + seq![lv[i as int]] =~= lv.take(i + 1 as int));
                    assert(flatten_lines(seq![lv[i as int]]) == lv[i as int]);
                }
                lemma_flatten_prefix_le(lv, i + 1);
            }
            if i == 0 {
                acc = line_len;
            } else {
                acc = acc + 1 + line_len;
            }
            i = i + 1;
        }
        proof {
            assert(self.view_lines().take(n as int) =~= self.view_lines());
        }
        let extra64 = extra as u64;
        if extra64 > 0xffffffffu64 {
            return false;
        }
        acc + extra64 <= 0xffffffffu64
    }

    /// Clamp a position onto the content: the line index onto the last line,
    /// the column onto the line's end.
    pub fn saturate_position(&self, position: BufferPosition) -> (r: BufferPosition)
        requires
            self.wf(),
        ensures
            valid_position(self.view_lines(), r),
            valid_position(self.view_lines(), position) ==> r == position,
            r.line_index as int == if (position.line_index as int) < self.view_lines().len() {
                position.line_index as int
            } else {
                self.view_lines().len() - 1
            },
            r.column_byte_index as int == if position.column_byte_index as int
                <= self.view_lines()[r.line_index as int].len() {
                position.column_byte_index as int
            } else {
                self.view_lines()[r.line_index as int].len() as int
            },
    {
        proof {
            self.lemma_wf_bounds();
        }
        let mut position = position;
        let last = (self.lines.len() - 1) as u64;
        if position.line_index as u64 > last {
            position.line_index = last as u32;
        }
        let line_len = self.lines[position.line_index as usize].len() as u64;
        if position.column_byte_index as u64 > line_len {
            position.column_byte_index = line_len as u32;
        }
        position
    }

    /// Serialize the content: each line followed by a newline, appended to
    /// `out`. The result is the flattened document plus a trailing newline.
    pub fn write(&self, out: &mut Vec<u8>)
        requires
            self.wf(),
        ensures
            final(out)@ == old(out)@ + self.flat() + seq![nl()],
    {
        let mut i: usize = 0;
        let n = self.lines.len();
        while i < n
            invariant
                n == self.view_lines().len(),
                self.wf(),
                i <= n,
                i == 0 ==> out@ == old(out)@,
                i >= 1 ==> out@ == old(out)@
                    + flatten_lines(self.view_lines().take(i as int)) + seq![nl()],
            decreases n - i,
        {
            let ghost prev = out@;
            let mut j: usize = 0;
            let line = self.lines[i].as_str();
            while j < line.len()
                invariant
                    j <= line@.len(),
                    out@ == prev + line@.take(j as int),
                decreases line@.len() - j,
            {
                out.push(line[j]);
                proof {
                    assert(prev + line@.take(j as int) + seq![line@[j as int]]
                        =~= prev + line@.take(j + 1 as int));
                }
                j = j + 1;
            }
            out.push(10u8);
            proof {
                let lv = self.view_lines();
                assert(line@.take(line@.len() as int) =~= line@);
                if i == 0 {
                    assert(lv.take(1) =~= seq![lv[0]]);
                    assert(flatten_lines(seq![lv[0]]) == lv[0]);
                    assert(out@ =~= old(out)@ + flatten_lines(lv.take(1)) + seq![nl()]);
                } else {
                    lemma_flatten_append(lv.take(i as int), seq![lv[i as int]]);
                    assert(lv.take(i as int) + seq![lv[i as int]] =~= lv.take(i + 1 as int));
                    assert(flatten_lines(seq![lv[i as int]]) == lv[i as int]);
                    assert(out@ =~= old(out)@ + flatten_lines(lv.take(i + 1 as int))
                        + seq![nl()]);
                }
            }
            i = i + 1;
        }
        proof {
            assert(self.view_lines().take(n as int) =~= self.view_lines());
        }
    }

    /// Insert `text` at `position`, splitting at embedded newlines. Returns
    /// the range that covers exactly the inserted text.
    pub fn insert_text(&mut self, position: BufferPosition, text: &[u8]) -> (r: BufferRange)
        requires
            old(self).wf(),
            valid_position(old(self).view_lines(), position),
            old(self).flat().len() + text@.len() <= u32::MAX,
        ensures
            final(self).wf(),
            final(self).view_lines() == spec_insert_lines(old(self).view_lines(), position,
                text@),
            final(self).flat().len() == old(self).flat().len() + text@.len(),
            r.from == position,
            r.to == spec_insert_end(old(self).view_lines(), position, text@),
            r.wf(),
            valid_range(final(self).view_lines(), r),
            range_text(final(self).view_lines(), r) == text@,
            spec_delete_lines(final(self).view_lines(), r) == old(self).view_lines(),
    {
        let ghost orig = self.view_lines();
        let li = position.line_index as usize;
        let col = position.column_byte_index as usize;
        proof {
            self.lemma_wf_bounds();
            lemma_flatten_len(orig);
            lemma_split_lines_shape(text@);
            lemma_insert_flatten(orig, position, text@);
            lemma_insert_then_delete_lines(orig, position, text@);
        }
        let mut pieces = split_text(text);
        let ghost sp = split_lines(text@);
        let np = pieces.len();

        let target = self.lines.remove(li);
        let head = copy_range(target.as_str(), 0, col);
        let tail = copy_range(target.as_str(), col, target.len());
        self.line_pool.release(target);
        proof {
            assert(self.view_lines() =~= orig.take(li as int) + orig.skip(li + 1));
            assert(head@ =~= orig[li as int].take(col as int));
            assert(tail@ =~= orig[li as int].skip(col as int));
        }

        let end_position: BufferPosition;
        if np == 1 {
            let mut new_line = head;
            crate::text::append_bytes(&mut new_line, text);
            crate::text::append_bytes(&mut new_line, tail.as_slice());
            proof {
                lemma_cat3_no_nl(orig[li as int], col as int, text@, sp);
            }
            self.lines.insert(li, BufferLine { text: new_line });
            end_position = BufferPosition {
                line_index: position.line_index,
                column_byte_index: position.column_byte_index + text.len() as u32,
            };
            proof {
                assert(self.view_lines() =~= spec_insert_lines(orig, position, text@));
            }
        } else {
            let mut last = pieces.pop().unwrap();
            let last_len = last.len();
            proof {
                assert(pieces@.map_values(|piece: Vec<u8>| piece@) =~= sp.drop_last());
                assert(last@ == sp.last());
                lemma_find_byte_skip(orig[li as int], col as int);
                lemma_cat2_no_nl(sp.last(), orig[li as int].skip(col as int));
            }
            crate::text::append_bytes(&mut last, tail.as_slice());
            self.lines.insert(li, BufferLine { text: last });
            proof {
                assert(self.view_lines() =~= orig.take(li as int)
                    + seq![sp.last() + tail@] + orig.skip(li + 1));
            }
            while pieces.len() > 1
                invariant
                    1 <= pieces@.len() <= sp.len() - 1,
                    pieces@.map_values(|piece: Vec<u8>| piece@)
                        == sp.take(pieces@.len() as int),
                    sp == split_lines(text@),
                    (li as int) < orig.len(),
                    col as int <= orig[li as int].len(),
                    self.lines@.len() == orig.len() + sp.len() - pieces@.len() - 1,
                    self.view_lines() =~= orig.take(li as int)
                        + sp.subrange(pieces@.len() as int, sp.len() - 1)
                        + seq![sp.last() + orig[li as int].skip(col as int)]
                        + orig.skip(li + 1),
                decreases pieces@.len(),
            {
                let ghost k = pieces@.len() as int;
                let ghost prior = self.view_lines();
                let ghost op = pieces@;
                let piece = pieces.pop().unwrap();
                proof {
                    assert(piece == op.last());
                    assert(op.map_values(|p2: Vec<u8>| p2@)[k - 1] == op[k - 1]@);
                    assert(piece@ == sp.take(k)[k - 1]);
                    assert(piece@ == sp[k - 1]);
                    assert forall|j: int| 0 <= j < k - 1
                        implies pieces@.map_values(|p2: Vec<u8>| p2@)[j]
                            == #[trigger] sp.take(k - 1)[j] by {
                        assert(pieces@[j] == op[j]);
                        assert(op.map_values(|p2: Vec<u8>| p2@)[j] == op[j]@);
                        assert(op[j]@ == sp.take(k)[j]);
                    }
                    assert(pieces@.map_values(|p2: Vec<u8>| p2@) =~= sp.take(k - 1));
                }
                self.lines.insert(li, BufferLine { text: piece });
                proof {
                    assert(self.view_lines() =~= prior.insert(li as int, sp[k - 1]));
                    assert(self.view_lines() =~= orig.take(li as int)
                        + sp.subrange(k - 1, sp.len() - 1)
                        + seq![sp.last() + orig[li as int].skip(col as int)]
                        + orig.skip(li + 1));
                }
            }
            let ghost op0 = pieces@;
            let p0 = pieces.pop().unwrap();
            proof {
                assert(p0 == op0.last());
                assert(op0.map_values(|p2: Vec<u8>| p2@)[0] == op0[0]@);
                assert(p0@ == sp.take(1)[0]);
                assert(p0@ == sp[0]);
                lemma_find_byte_take(orig[li as int], col as int);
                lemma_cat2_no_nl(orig[li as int].take(col as int), sp[0]);
            }
            let mut first_line = head;
            crate::text::append_bytes(&mut first_line, p0.as_slice());
            let ghost prior = self.view_lines();
            self.lines.insert(li, BufferLine { text: first_line });
            end_position = BufferPosition {
                line_index: position.line_index + (np - 1) as u32,
                column_byte_index: last_len as u32,
            };
            proof {
                assert(self.view_lines() =~= prior.insert(li as int,
                    orig[li as int].take(col as int) + sp[0]));
                assert(self.view_lines() =~= spec_insert_lines(orig, position, text@));
            }
        }
        proof {
            let newv = self.view_lines();
            assert forall|i: int| 0 <= i < newv.len()
                implies find_byte(#[trigger] newv[i], nl()) < 0 by {
                lemma_insert_lines_no_nl(orig, position, text@, i);
            }
        }
        BufferRange { from: position, to: end_position }
    }

    /// Remove the text covered by `range`, rejoining the split line.
    /// Drained middle lines return to the line pool.
    #[verifier::rlimit(50)]
    pub fn delete_range(&mut self, range: BufferRange)
        requires
            old(self).wf(),
            valid_range(old(self).view_lines(), range),
        ensures
            final(self).wf(),
            final(self).view_lines() == spec_delete_lines(old(self).view_lines(), range),
            final(self).flat().len() == old(self).flat().len()
                - range_text(old(self).view_lines(), range).len(),
            spec_insert_lines(final(self).view_lines(), range.from,
                range_text(old(self).view_lines(), range)) == old(self).view_lines(),
            spec_insert_end(final(self).view_lines(), range.from,
                range_text(old(self).view_lines(), range)) == range.to,
    {
        let ghost orig = self.view_lines();
        let fl = range.from.line_index as usize;
        let tl = range.to.line_index as usize;
        let fcol = range.from.column_byte_index as usize;
        let tcol = range.to.column_byte_index as usize;
        proof {
            self.lemma_wf_bounds();
            lemma_flatten_len(orig);
            lemma_delete_then_insert_lines(orig, range);
            lemma_insert_flatten(spec_delete_lines(orig, range), range.from,
                range_text(orig, range));
        }
        if fl == tl {
            let target = self.lines.remove(fl);
            proof {
                assert(self.view_lines() =~= orig.take(fl as int) + orig.skip(fl + 1));
                assert(target@ == orig[fl as int]);
            }
            let mut merged = copy_range(target.as_str(), 0, fcol);
            let suffix = copy_range(target.as_str(), tcol, target.len());
            crate::text::append_bytes(&mut merged, suffix.as_slice());
            self.line_pool.release(target);
            proof {
                assert(merged@ =~= orig[fl as int].take(fcol as int)
                    + orig[fl as int].skip(tcol as int));
                lemma_find_byte_take(orig[fl as int], fcol as int);
                lemma_find_byte_skip(orig[fl as int], tcol as int);
                lemma_cat2_no_nl(orig[fl as int].take(fcol as int),
                    orig[fl as int].skip(tcol as int));
            }
            self.lines.insert(fl, BufferLine { text: merged });
            proof {
                assert(self.view_lines() =~= spec_delete_lines(orig, range));
            }
        } else {
            let from_line = self.lines.remove(fl);
            let mut removed: usize = 0;
            let ghost mid_base = orig.take(fl as int) + orig.skip(fl + 1);
            proof {
                assert(from_line@ == orig[fl as int]);
                assert(self.view_lines() =~= mid_base);
            }
            while removed < tl - fl - 1
                invariant
                    removed <= tl - fl - 1,
                    (fl as int) < (tl as int) < orig.len(),
                    self.lines@.len() == orig.len() - 1 - removed,
                    self.view_lines() =~= orig.take(fl as int)
                        + orig.skip(fl + 1 + removed),
                decreases tl - fl - 1 - removed,
            {
                let ghost prior = self.view_lines();
                let line = self.lines.remove(fl);
                self.line_pool.release(line);
                proof {
                    assert(self.view_lines() =~= prior.remove(fl as int));
                    assert(self.view_lines() =~= orig.take(fl as int)
                        + orig.skip(fl + 1 + removed + 1));
                }
                removed = removed + 1;
            }
            let ghost before_to = self.view_lines();
            let to_line = self.lines.remove(fl);
            proof {
                assert(before_to[fl as int] == orig[tl as int]);
                assert(to_line@ == orig[tl as int]);
                assert(self.view_lines() =~= before_to.remove(fl as int));
                assert(self.view_lines() =~= orig.take(fl as int) + orig.skip(tl + 1));
            }
            let mut merged = copy_range(from_line.as_str(), 0, fcol);
            let suffix = copy_range(to_line.as_str(), tcol, to_line.len());
            crate::text::append_bytes(&mut merged, suffix.as_slice());
            self.line_pool.release(from_line);
            self.line_pool.release(to_line);
            proof {
                assert(merged@ =~= orig[fl as int].take(fcol as int)
                    + orig[tl as int].skip(tcol as int));
                lemma_find_byte_take(orig[fl as int], fcol as int);
                lemma_find_byte_skip(orig[tl as int], tcol as int);
                lemma_cat2_no_nl(orig[fl as int].take(fcol as int),
                    orig[tl as int].skip(tcol as int));
            }
            let ghost gap = self.view_lines();
            self.lines.insert(fl, BufferLine { text: merged });
            proof {
                assert(self.view_lines() =~= gap.insert(fl as int, merged@));
                assert(self.view_lines() =~= spec_delete_lines(orig, range));
            }
        }
        proof {
            let newv = self.view_lines();
            let deleted = spec_delete_lines(orig, range);
            assert forall|i: int| 0 <= i < newv.len()
                implies find_byte(#[trigger] newv[i], nl()) < 0 by {
                if i < fl as int {
                    assert(deleted[i] == orig[i]);
                } else if i > fl as int {
                    assert(deleted[i] == orig[i + (tl - fl) as int]);
                }
            }
        }
    }

    /// Reset to a single empty line, returning all lines to the pool.
    pub fn clear(&mut self)
        ensures
            final(self).wf(),
            final(self).view_lines() == seq![Seq::<u8>::empty()],
            final(self).flat() == Seq::<u8>::empty(),
    {
        while self.lines.len() > 0
            invariant
                true,
            decreases self.lines@.len(),
        {
            let line = self.lines.pop().unwrap();
            self.line_pool.release(line);
        }
        let line = self.line_pool.acquire();
        self.lines.push(line);
        proof {
            assert(self.view_lines() =~= seq![Seq::<u8>::empty()]);
        }
    }

    /// Append the text covered by `range` to `out`, with a newline between
    /// each pair of adjacent covered lines.
    pub fn append_range_text_to_string(&self, range: BufferRange, out: &mut Vec<u8>)
        requires
            self.wf(),
            valid_range(self.view_lines(), range),
        ensures
            final(out)@ == old(out)@ + range_text(self.view_lines(), range),
    {
        let fl = range.from.line_index as usize;
        let tl = range.to.line_index as usize;
        let fcol = range.from.column_byte_index as usize;
        let tcol = range.to.column_byte_index as usize;
        proof {
            self.lemma_wf_bounds();
        }
        if fl == tl {
            let piece = copy_range(self.lines[fl].as_str(), fcol, tcol);
            crate::text::append_bytes(out, piece.as_slice());
        } else {
            let ghost lines = self.view_lines();
            let ghost covered = seq![lines[fl as int].skip(fcol as int)]
                + lines.subrange(fl + 1, tl as int) + seq![lines[tl as int].take(tcol as int)];
            let first = copy_range(self.lines[fl].as_str(), fcol, self.lines[fl].len());
            crate::text::append_bytes(out, first.as_slice());
            out.push(10u8);
            proof {
                assert(covered.len() >= 2);
                assert(covered.take(1) =~= seq![covered[0]]);
                assert(out@ =~= old(out)@ + flatten_lines(covered.take(1)) + seq![nl()]);
            }
            let mut i: usize = fl + 1;
            while i < tl
                invariant
                    fl < i <= tl < self.view_lines().len(),
                    fcol as int <= self.view_lines()[fl as int].len(),
                    tcol as int <= self.view_lines()[tl as int].len(),
                    self.wf(),
                    covered == seq![self.view_lines()[fl as int].skip(fcol as int)]
                        + self.view_lines().subrange(fl + 1, tl as int)
                        + seq![self.view_lines()[tl as int].take(tcol as int)],
                    out@ == old(out)@ + flatten_lines(covered.take(i - fl)) + seq![nl()],
                decreases tl - i,
            {
                let line = copy_range(self.lines[i].as_str(), 0, self.lines[i].len());
                crate::text::append_bytes(out, line.as_slice());
                out.push(10u8);
                proof {
                    let k = i - fl;
                    assert(covered[k as int] == self.view_lines()[i as int]);
                    lemma_flatten_append(covered.take(k as int), seq![covered[k as int]]);
                    assert(covered.take(k as int) + seq![covered[k as int]]
                        =~= covered.take(k + 1 as int));
                    assert(out@ =~= old(out)@ + flatten_lines(covered.take(k + 1 as int))
                        + seq![nl()]);
                }
                i = i + 1;
            }
            let last = copy_range(self.lines[tl].as_str(), 0, tcol);
            crate::text::append_bytes(out, last.as_slice());
            proof {
                let k = (tl - fl) as int;
                lemma_flatten_append(covered.take(k), seq![covered[k]]);
                assert(covered.take(k) + seq![covered[k]] =~= covered.take(k + 1));
                assert(covered.take(k + 1) =~= covered);
                assert(out@ =~= old(out)@ + flatten_lines(covered));
            }
        }
    }

    /// Replace the content with `bytes` read from storage: split at newlines,
    /// drop the final empty piece a trailing newline leaves, strip one `\r`
    /// from each line end, and strip a leading utf-8 byte-order mark.
    pub fn read(&mut self, bytes: &[u8])
        requires
            bytes@.len() <= u32::MAX,
        ensures
            final(self).wf(),
            final(self).view_lines() == spec_read_lines(bytes@),
    {
        while self.lines.len() > 0
            invariant
                true,
            decreases self.lines@.len(),
        {
            let line = self.lines.pop().unwrap();
            self.line_pool.release(line);
        }

        let mut pieces = split_text(bytes);
        proof {
            lemma_split_lines_shape(bytes@);
        }
        if pieces.len() > 1 && pieces[pieces.len() - 1].len() == 0 {
            let ghost before = pieces@.map_values(|piece: Vec<u8>| piece@);
            pieces.pop();
            proof {
                assert(pieces@.map_values(|piece: Vec<u8>| piece@) =~= before.drop_last());
            }
        }

        let ghost kept = pieces@.map_values(|piece: Vec<u8>| piece@);
        proof {
            let all = split_lines(bytes@);
            assert forall|k: int| 0 <= k < kept.len()
                implies find_byte(#[trigger] kept[k], nl()) < 0
                    && kept[k].len() <= bytes@.len() by {
                assert(kept[k] == all[k]);
            }
        }
        let mut i: usize = 0;
        let n = pieces.len();
        while i < n
            invariant
                n == pieces@.len(),
                pieces@.map_values(|piece: Vec<u8>| piece@) == kept,
                i <= n,
                self.lines@.len() == i,
                self.view_lines() == kept.take(i as int).map_values(
                    |piece: Seq<u8>| strip_cr(piece)),
                forall|k: int| 0 <= k < kept.len() ==> find_byte(#[trigger] kept[k], nl()) < 0
                    && kept[k].len() <= bytes@.len(),
            decreases n - i,
        {
            let piece = &pieces[i];
            let end = if piece.len() > 0 && piece[piece.len() - 1] == 13u8 {
                piece.len() - 1
            } else {
                piece.len()
            };
            let stripped = copy_range(piece.as_slice(), 0, end);
            proof {
                assert(piece@ == kept[i as int]);
                assert(stripped@ =~= strip_cr(kept[i as int]));
            }
            let ghost prior = self.view_lines();
            self.lines.push(BufferLine { text: stripped });
            proof {
                assert(self.view_lines() =~= prior.push(stripped@));
                assert(self.view_lines() =~= kept.take(i + 1 as int).map_values(
                    |piece: Seq<u8>| strip_cr(piece)));
            }
            i = i + 1;
        }
        proof {
            assert(kept.take(n as int) =~= kept);
        }

        // strip a utf-8 byte-order mark from the first line
        let first = self.lines[0].as_str();
        if first.len() >= 3 && first[0] == 0xefu8 && first[1] == 0xbbu8 && first[2] == 0xbfu8 {
            let rest = copy_range(first, 3, first.len());
            let ghost prior = self.view_lines();
            self.lines.set(0, BufferLine { text: rest });
            proof {
                assert(rest@ =~= prior[0].skip(3));
                assert(self.view_lines() =~= prior.update(0, prior[0].skip(3)));
            }
        }

        proof {
            let result = self.view_lines();
            assert(result =~= spec_read_lines(bytes@));
            lemma_read_flat_len(result, bytes@);
            let stripped_all = kept.map_values(|piece: Seq<u8>| strip_cr(piece));
            assert forall|k: int| 0 <= k < result.len()
                implies find_byte(#[trigger] result[k], nl()) < 0 by {
                lemma_find_byte_prefix(kept[k], strip_cr(kept[k]));
                if k == 0 {
                    lemma_find_byte_skip(strip_cr(kept[0]), if strip_cr(kept[0]).len() >= 3
                        && strip_cr(kept[0])[0] == 0xefu8 && strip_cr(kept[0])[1] == 0xbbu8
                        && strip_cr(kept[0])[2] == 0xbfu8 { 3int } else { 0int });
                    assert(result[0] == strip_bom(strip_cr(kept[0])));
                }
            }
        }
    }
}

/// One carriage return stripped from the end of a line, when present.
pub open spec fn strip_cr(piece: Seq<u8>) -> Seq<u8> {
    if piece.len() > 0 && piece.last() == 13u8 {
        piece.drop_last()
    } else {
        piece
    }
}

/// A leading utf-8 byte-order mark stripped, when present.
pub open spec fn strip_bom(piece: Seq<u8>) -> Seq<u8> {
    if piece.len() >= 3 && piece[0] == 0xefu8 && piece[1] == 0xbbu8 && piece[2] == 0xbfu8 {
        piece.skip(3)
    } else {
        piece
    }
}

/// The lines that reading `bytes` from storage produces.
pub open spec fn spec_read_lines(bytes: Seq<u8>) -> Seq<Seq<u8>> {
    let pieces = split_lines(bytes);
    let kept = if pieces.len() > 1 && pieces.last().len() == 0 {
        pieces.drop_last()
    } else {
        pieces
    };
    let stripped = kept.map_values(|piece: Seq<u8>| strip_cr(piece));
    stripped.update(0, strip_bom(stripped[0]))
}

/// A prefix of a newline-free byte sequence is newline-free.
pub proof fn lemma_find_byte_prefix(s: Seq<u8>, pre: Seq<u8>)
    requires
        find_byte(s, nl()) < 0,
        pre.len() <= s.len(),
        forall|j: int| 0 <= j < pre.len() ==> pre[j] == s[j],
    ensures
        find_byte(pre, nl()) < 0,
{
    lemma_find_byte(s, nl());
    lemma_find_byte(pre, nl());
    let f = find_byte(pre, nl());
    if f >= 0 {
        assert(s[f] == nl());
    }
}

/// Buffer round-trip law: inserting any text at the origin of a fresh
/// single-empty-line buffer and serializing the result (lines joined by
/// newlines, with one trailing newline) yields exactly the text followed by
/// one newline. A text that itself ends in a newline therefore comes back
/// with one more: the trailing empty line the insertion leaves is made
/// visible by the serializer.
pub proof fn lemma_buffer_round_trip(text: Seq<u8>)
    ensures
        flatten_lines(spec_insert_lines(seq![Seq::<u8>::empty()],
            BufferPosition { line_index: 0, column_byte_index: 0 }, text)) == text,
        flatten_lines(spec_insert_lines(seq![Seq::<u8>::empty()],
            BufferPosition { line_index: 0, column_byte_index: 0 }, text))
            + seq![nl()] == text + seq![nl()],
{
    let zero = BufferPosition { line_index: 0, column_byte_index: 0 };
    lemma_insert_flatten(seq![Seq::<u8>::empty()], zero, text);
}

/// A flattened prefix is no longer than the whole flattened text.
pub proof fn lemma_flatten_prefix_le(lines: Seq<Seq<u8>>, i: int)
    requires
        1 <= i <= lines.len(),
    ensures
        flatten_lines(lines.take(i)).len() <= flatten_lines(lines).len(),
{
    if i < lines.len() {
        lemma_flatten_append(lines.take(i), lines.skip(i));
        assert(lines.take(i) + lines.skip(i) =~= lines);
    } else {
        assert(lines.take(i) =~= lines);
    }
}

/// A prefix taken from a newline-free byte sequence is newline-free.
pub proof fn lemma_find_byte_take(s: Seq<u8>, k: int)
    requires
        find_byte(s, nl()) < 0,
        0 <= k <= s.len(),
    ensures
        find_byte(s.take(k), nl()) < 0,
{
    lemma_find_byte(s, nl());
    lemma_find_byte(s.take(k), nl());
    let f = find_byte(s.take(k), nl());
    if f >= 0 {
        assert(s.take(k)[f] == s[f]);
        assert(s[f] == nl());
    }
}

/// A suffix of a newline-free byte sequence is newline-free.
pub proof fn lemma_find_byte_skip(s: Seq<u8>, k: int)
    requires
        find_byte(s, nl()) < 0,
        0 <= k <= s.len(),
    ensures
        find_byte(s.skip(k), nl()) < 0,
{
    lemma_find_byte(s, nl());
    lemma_find_byte(s.skip(k), nl());
    let f = find_byte(s.skip(k), nl());
    if f >= 0 {
        assert(s.skip(k)[f] == s[k + f]);
        assert(s[k + f] == nl());
    }
}

/// Reading keeps each line within the source length, so the flattened result
/// stays within bounds.
pub proof fn lemma_read_flat_len(lines: Seq<Seq<u8>>, bytes: Seq<u8>)
    requires
        lines == spec_read_lines(bytes),
        bytes.len() <= u32::MAX,
    ensures
        flatten_lines(lines).len() <= u32::MAX,
{
    lemma_flatten_split(bytes);
    lemma_split_lines_shape(bytes);
    lemma_read_is_shorter(lines, bytes);
}

/// The flattened read result is no longer than the source bytes.
proof fn lemma_read_is_shorter(lines: Seq<Seq<u8>>, bytes: Seq<u8>)
    requires
        lines == spec_read_lines(bytes),
    ensures
        flatten_lines(lines).len() <= bytes.len(),
{
    let pieces = split_lines(bytes);
    lemma_split_lines_shape(bytes);
    lemma_flatten_split(bytes);
    let kept = if pieces.len() > 1 && pieces.last().len() == 0 {
        pieces.drop_last()
    } else {
        pieces
    };
    lemma_flatten_len_le(kept, pieces);
    let stripped = kept.map_values(|piece: Seq<u8>| strip_cr(piece));
    lemma_flatten_pointwise_le(stripped.update(0, strip_bom(stripped[0])), kept);
}

/// Dropping a trailing empty line cannot lengthen the flattened text.
proof fn lemma_flatten_len_le(kept: Seq<Seq<u8>>, pieces: Seq<Seq<u8>>)
    requires
        kept == pieces || (pieces.len() > 1 && pieces.last().len() == 0
            && kept == pieces.drop_last()),
    ensures
        flatten_lines(kept).len() <= flatten_lines(pieces).len(),
{
    if kept != pieces {
        lemma_flatten_suffix_last(pieces.drop_last(), Seq::empty());
        assert(pieces.drop_last().last() + Seq::<u8>::empty()
            =~= pieces.drop_last().last());
        assert(pieces.drop_last().drop_last() + seq![pieces.drop_last().last()]
            =~= pieces.drop_last());
        lemma_flatten_append(pieces.drop_last(), seq![pieces.last()]);
        assert(pieces.drop_last() + seq![pieces.last()] =~= pieces);
        assert(flatten_lines(seq![pieces.last()]) == pieces.last());
    }
}

/// Shortening lines pointwise shortens the flattened text.
proof fn lemma_flatten_pointwise_le(a: Seq<Seq<u8>>, b: Seq<Seq<u8>>)
    requires
        a.len() == b.len(),
        forall|i: int| 0 <= i < a.len() ==> #[trigger] a[i].len() <= b[i].len(),
    ensures
        flatten_lines(a).len() <= flatten_lines(b).len(),
    decreases a.len(),
{
    if a.len() > 1 {
        assert forall|i: int| 0 <= i < a.drop_first().len()
            implies #[trigger] a.drop_first()[i].len() <= b.drop_first()[i].len() by {
            assert(a.drop_first()[i] == a[i + 1]);
            assert(b.drop_first()[i] == b[i + 1]);
        }
        lemma_flatten_pointwise_le(a.drop_first(), b.drop_first());
    }
}

/// A word with its byte index within one line.
pub struct WordRefWithIndex {
    pub kind: crate::word::WordKind,
    pub text: Vec<u8>,
    pub index: usize,
}

impl WordRefWithIndex {
    /// The same word placed at a line of the buffer.
    pub fn to_word_ref_with_position(self, line_index: usize) -> (r: WordRefWithPosition)
        requires
            line_index <= u32::MAX,
            self.index <= u32::MAX,
        ensures
            r.kind == self.kind,
            r.text@ == self.text@,
            r.position.line_index == line_index,
            r.position.column_byte_index == self.index,
    {
        WordRefWithPosition {
            kind: self.kind,
            text: self.text,
            position: BufferPosition {
                line_index: line_index as u32,
                column_byte_index: self.index as u32,
            },
        }
    }
}

/// A word with the buffer position it starts at.
pub struct WordRefWithPosition {
    pub kind: crate::word::WordKind,
    pub text: Vec<u8>,
    pub position: BufferPosition,
}

/// The words of a line that start before byte `mid_start`, in line order.
pub open spec fn words_before_spec(ws: Seq<crate::word::WordSpan>, mid_start: int)
    -> Seq<crate::word::WordSpan> {
    ws.filter(|w: crate::word::WordSpan| (w.index as int) < mid_start)
}

/// The words of a line that start after the middle word's run — or, when
/// the middle word is the empty run at the position, at or after it — in
/// line order.
pub open spec fn words_after_spec(ws: Seq<crate::word::WordSpan>, mid_start: int,
    mid_len: int) -> Seq<crate::word::WordSpan> {
    ws.filter(|w: crate::word::WordSpan| if mid_len > 0 {
        w.index as int >= mid_start + mid_len
    } else {
        w.index as int >= mid_start
    })
}

/// A placed word agrees with a span of the given line.
pub open spec fn word_ref_matches(r: WordRefWithPosition, li: u32, line: Seq<u8>,
    w: crate::word::WordSpan) -> bool {
    &&& r.kind == w.kind
    &&& r.position.line_index == li
    &&& r.position.column_byte_index as int == w.index as int
    &&& r.text@ == line.subrange(w.index as int, w.index + w.len)
}

/// The before-filter over one appended word.
proof fn lemma_words_before_push(ws: Seq<crate::word::WordSpan>, w: crate::word::WordSpan,
    mid_start: int)
    ensures
        words_before_spec(ws.push(w), mid_start) == if (w.index as int) < mid_start {
            words_before_spec(ws, mid_start).push(w)
        } else {
            words_before_spec(ws, mid_start)
        },
{
    reveal(Seq::filter);
    assert(ws.push(w).drop_last() =~= ws);
}

/// The after-filter over one appended word.
proof fn lemma_words_after_push(ws: Seq<crate::word::WordSpan>, w: crate::word::WordSpan,
    mid_start: int, mid_len: int)
    ensures
        words_after_spec(ws.push(w), mid_start, mid_len) == if (if mid_len > 0 {
            w.index as int >= mid_start + mid_len
        } else {
            w.index as int >= mid_start
        }) {
            words_after_spec(ws, mid_start, mid_len).push(w)
        } else {
            words_after_spec(ws, mid_start, mid_len)
        },
{
    reveal(Seq::filter);
    assert(ws.push(w).drop_last() =~= ws);
}

impl WordRefWithPosition {
    /// The position one past the word's last byte.
    pub fn end_position(&self) -> (r: BufferPosition)
        requires
            self.position.column_byte_index + self.text@.len() <= u32::MAX,
        ensures
            r.line_index == self.position.line_index,
            r.column_byte_index == self.position.column_byte_index + self.text@.len(),
    {
        BufferPosition {
            line_index: self.position.line_index,
            column_byte_index: self.position.column_byte_index + self.text.len() as u32,
        }
    }
}

impl BufferContent {
    /// The whole document as one byte sequence, lines joined by newlines.
    pub fn text_bytes(&self) -> (r: Vec<u8>)
        requires
            self.wf(),
        ensures
            r@ == self.flat(),
    {
        let mut out: Vec<u8> = Vec::new();
        self.write(&mut out);
        let ghost full = out@;
        out.pop();
        proof {
            assert(full =~= self.flat() + seq![nl()]);
            assert(full.drop_last() =~= self.flat());
        }
        out
    }

    /// The ranges every occurrence of the pattern's literal head covers,
    /// line by line, appended to `ranges`: each appended range sits on one
    /// line and covers the pattern's head at its start.
    pub fn find_search_ranges(&self, pattern: &crate::pattern::Pattern,
        ranges: &mut Vec<BufferRange>)
        requires
            self.wf(),
        ensures
            final(ranges)@.len() >= old(ranges)@.len(),
            forall|t: int| 0 <= t < old(ranges)@.len() ==> #[trigger] final(ranges)@[t]
                == old(ranges)@[t],
            forall|t: int| old(ranges)@.len() <= t < final(ranges)@.len()
                ==> appended_search_range(#[trigger] final(ranges)@[t],
                    self.view_lines(), pattern.prefix_bytes(), pattern.is_anchored()),
    {
        if pattern.is_empty() {
            return;
        }
        proof {
            self.lemma_wf_bounds();
        }
        let n = self.lines.len();
        let mut li: usize = 0;
        while li < n && li <= 0xffffffffusize
            invariant
                li <= n,
                n == self.view_lines().len(),
                n <= 0xffffffffusize + 1,
                self.wf(),
                ranges@.len() >= old(ranges)@.len(),
                forall|t: int| 0 <= t < old(ranges)@.len() ==> #[trigger] ranges@[t]
                    == old(ranges)@[t],
                forall|t: int| old(ranges)@.len() <= t < ranges@.len()
                    ==> appended_search_range(#[trigger] ranges@[t], self.view_lines(),
                        pattern.prefix_bytes(), pattern.is_anchored()),
            decreases n - li,
        {
            proof {
                self.lemma_wf_bounds();
            }
            let line = self.line_at(li);
            let found = pattern.match_indices(line.as_str());
            let mut k: usize = 0;
            let fn_count = found.len();
            while k < fn_count
                invariant
                    k <= fn_count,
                    fn_count == found@.len(),
                    li <= 0xffffffffusize,
                    (li as int) < self.view_lines().len(),
                    self.wf(),
                    line@ == self.view_lines()[li as int],
                    forall|t: int| 0 <= t < found@.len() ==> ({
                        let m = #[trigger] found@[t];
                        &&& m.0 <= m.1 <= line@.len()
                        &&& m.0 + pattern.prefix_bytes().len() <= m.1
                        &&& line@.subrange(m.0 as int,
                            m.0 + pattern.prefix_bytes().len())
                            == pattern.prefix_bytes()
                        &&& (pattern.is_anchored() ==> m.0 == 0)
                    }),
                    line@.len() <= u32::MAX,
                    ranges@.len() >= old(ranges)@.len(),
                    forall|t: int| 0 <= t < old(ranges)@.len() ==> #[trigger] ranges@[t]
                        == old(ranges)@[t],
                    forall|t: int| old(ranges)@.len() <= t < ranges@.len()
                        ==> appended_search_range(#[trigger] ranges@[t],
                            self.view_lines(), pattern.prefix_bytes(),
                            pattern.is_anchored()),
                decreases fn_count - k,
            {
                let (from, to) = found[k];
                ranges.push(BufferRange {
                    from: BufferPosition {
                        line_index: li as u32,
                        column_byte_index: from as u32,
                    },
                    to: BufferPosition {
                        line_index: li as u32,
                        column_byte_index: to as u32,
                    },
                });
                k = k + 1;
            }
            li = li + 1;
        }
    }

    /// The word around `position` (saturated): the maximal same-kind byte
    /// run containing it, or the empty whitespace word at the line's end.
    pub fn word_at(&self, position: BufferPosition) -> (r: WordRefWithPosition)
        requires
            self.wf(),
        ensures
            r.position.line_index == sat_pos_spec(self.view_lines(), position).line_index,
            ({
                let lines = self.view_lines();
                let sp = sat_pos_spec(lines, position);
                let line = lines[sp.line_index as int];
                let col = sp.column_byte_index as int;
                let start = r.position.column_byte_index as int;
                let len = r.text@.len() as int;
                &&& (col == line.len() ==> r.kind == crate::word::WordKind::Whitespace
                    && start == col && len == 0)
                &&& (col < line.len() ==> {
                    &&& r.kind == crate::word::byte_kind(line[col])
                    &&& start <= col < start + len
                    &&& start + len <= line.len()
                    &&& r.text@ == line.subrange(start, start + len)
                    &&& (forall|t: int| start <= t < start + len
                        ==> crate::word::byte_kind(#[trigger] line[t]) == r.kind)
                    &&& (start > 0 ==> crate::word::byte_kind(line[start - 1]) != r.kind)
                    &&& (start + len < line.len()
                        ==> crate::word::byte_kind(line[start + len]) != r.kind)
                })
            }),
    {
        proof {
            self.lemma_wf_bounds();
        }
        let position = self.saturate_position(position);
        let line = self.line_at(position.line_index as usize);
        let span = crate::word::word_span_at(line.as_str(), position.column_byte_index
            as usize);
        let text = copy_range(line.as_str(), span.index, span.index + span.len);
        WordRefWithPosition {
            kind: span.kind,
            text,
            position: BufferPosition {
                line_index: position.line_index,
                column_byte_index: span.index as u32,
            },
        }
    }

    /// The word around `position` (saturated), together with the line's
    /// words before it (from nearest to farthest) and the words after it
    /// (in line order).
    pub fn words_from(&self, position: BufferPosition) -> (r: (WordRefWithPosition,
        Vec<WordRefWithPosition>, Vec<WordRefWithPosition>))
        requires
            self.wf(),
        ensures
            ({
                let lines = self.view_lines();
                let sp = sat_pos_spec(lines, position);
                let line = lines[sp.line_index as int];
                let col = sp.column_byte_index as int;
                let ws = crate::word::spec_words(line, 0);
                let mid_start = r.0.position.column_byte_index as int;
                let mid_len = r.0.text@.len() as int;
                let before = words_before_spec(ws, mid_start);
                let after = words_after_spec(ws, mid_start, mid_len);
                &&& r.0.position.line_index == sp.line_index
                &&& (col == line.len() ==> r.0.kind == crate::word::WordKind::Whitespace
                    && mid_start == col && mid_len == 0)
                &&& (col < line.len() ==> r.0.kind == crate::word::byte_kind(line[col])
                    && mid_start <= col < mid_start + mid_len
                    && mid_start + mid_len <= line.len())
                &&& r.0.text@ == line.subrange(mid_start, mid_start + mid_len)
                &&& r.1@.len() == before.len()
                &&& (forall|t: int| 0 <= t < before.len()
                    ==> word_ref_matches(#[trigger] r.1@[t], sp.line_index, line,
                        before[before.len() - 1 - t]))
                &&& r.2@.len() == after.len()
                &&& (forall|t: int| 0 <= t < after.len()
                    ==> word_ref_matches(#[trigger] r.2@[t], sp.line_index, line,
                        after[t]))
            }),
    {
        proof {
            self.lemma_wf_bounds();
        }
        let position = self.saturate_position(position);
        let li = position.line_index as usize;
        let line = self.line_at(li);
        let mid_span = crate::word::word_span_at(line.as_str(),
            position.column_byte_index as usize);
        let words = crate::word::words_of_line(line.as_str());
        let ghost ms = mid_span.index as int;
        let ghost ml = mid_span.len as int;
        let ghost ws = crate::word::spec_words(line@, 0);
        proof {
            crate::word::lemma_words_in_bounds(line@, 0);
            assert(ws.take(0) =~= Seq::<crate::word::WordSpan>::empty());
            reveal(Seq::filter);
        }
        let mut left: Vec<WordRefWithPosition> = Vec::new();
        let mut right: Vec<WordRefWithPosition> = Vec::new();
        let mut k: usize = 0;
        proof {
            self.lemma_wf_bounds();
        }
        while k < words.len()
            invariant
                words@ == ws,
                ws == crate::word::spec_words(line@, 0),
                k <= ws.len(),
                line@ == self.view_lines()[li as int],
                self.wf(),
                (li as int) < self.view_lines().len(),
                line@.len() <= u32::MAX,
                li <= u32::MAX,
                li == position.line_index as usize,
                ms == mid_span.index as int,
                ml == mid_span.len as int,
                mid_span.index + mid_span.len <= line@.len(),
                forall|t: int| 0 <= t < ws.len() ==> (#[trigger] ws[t]).index
                    + ws[t].len <= line@.len(),
                left@.len() == words_before_spec(ws.take(k as int), ms).len(),
                forall|t: int| 0 <= t < left@.len()
                    ==> word_ref_matches(#[trigger] left@[t], li as u32, line@,
                        words_before_spec(ws.take(k as int), ms)[t]),
                right@.len() == words_after_spec(ws.take(k as int), ms, ml).len(),
                forall|t: int| 0 <= t < right@.len()
                    ==> word_ref_matches(#[trigger] right@[t], li as u32, line@,
                        words_after_spec(ws.take(k as int), ms, ml)[t]),
            decreases ws.len() - k,
        {
            let w = words[k];
            proof {
                self.lemma_wf_bounds();
                assert(ws.take(k + 1 as int) =~= ws.take(k as int).push(ws[k as int]));
                lemma_words_before_push(ws.take(k as int), ws[k as int], ms);
                lemma_words_after_push(ws.take(k as int), ws[k as int], ms, ml);
            }
            let ghost prior_left = left@;
            let ghost prior_right = right@;
            if w.index < mid_span.index {
                let text = copy_range(line.as_str(), w.index, w.index + w.len);
                left.push(WordRefWithPosition {
                    kind: w.kind,
                    text,
                    position: BufferPosition {
                        line_index: position.line_index,
                        column_byte_index: w.index as u32,
                    },
                });
                proof {
                    let fb = words_before_spec(ws.take(k + 1 as int), ms);
                    assert(fb == words_before_spec(ws.take(k as int), ms).push(
                        ws[k as int]));
                    assert forall|t: int| 0 <= t < left@.len()
                        implies word_ref_matches(#[trigger] left@[t], li as u32, line@,
                            fb[t]) by {
                        if t < prior_left.len() {
                            assert(left@[t] == prior_left[t]);
                            assert(fb[t] == words_before_spec(ws.take(k as int), ms)[t]);
                        } else {
                            assert(left@[t] == left@.last());
                            assert(fb[t] == ws[k as int]);
                        }
                    }
                }
            } else if w.index >= mid_span.index + mid_span.len && mid_span.len > 0
                || (mid_span.len == 0 && w.index >= mid_span.index) {
                let text = copy_range(line.as_str(), w.index, w.index + w.len);
                right.push(WordRefWithPosition {
                    kind: w.kind,
                    text,
                    position: BufferPosition {
                        line_index: position.line_index,
                        column_byte_index: w.index as u32,
                    },
                });
                proof {
                    let fa = words_after_spec(ws.take(k + 1 as int), ms, ml);
                    assert(fa == words_after_spec(ws.take(k as int), ms, ml).push(
                        ws[k as int]));
                    assert forall|t: int| 0 <= t < right@.len()
                        implies word_ref_matches(#[trigger] right@[t], li as u32, line@,
                            fa[t]) by {
                        if t < prior_right.len() {
                            assert(right@[t] == prior_right[t]);
                            assert(fa[t] == words_after_spec(ws.take(k as int), ms,
                                ml)[t]);
                        } else {
                            assert(right@[t] == right@.last());
                            assert(fa[t] == ws[k as int]);
                        }
                    }
                }
            } else {
                proof {
                    assert(words_before_spec(ws.take(k + 1 as int), ms)
                        == words_before_spec(ws.take(k as int), ms));
                    assert(words_after_spec(ws.take(k + 1 as int), ms, ml)
                        == words_after_spec(ws.take(k as int), ms, ml));
                }
            }
            k = k + 1;
        }
        proof {
            assert(ws.take(ws.len() as int) =~= ws);
        }
        let ghost before = words_before_spec(ws, ms);
        // nearest-first on the left
        let mut left_rev: Vec<WordRefWithPosition> = Vec::new();
        while left.len() > 0
            invariant
                left_rev@.len() + left@.len() == before.len(),
                forall|t: int| 0 <= t < left@.len()
                    ==> word_ref_matches(#[trigger] left@[t], li as u32, line@, before[t]),
                forall|t: int| 0 <= t < left_rev@.len()
                    ==> word_ref_matches(#[trigger] left_rev@[t], li as u32, line@,
                        before[before.len() - 1 - t]),
            decreases left@.len(),
        {
            let w = left.pop().unwrap();
            left_rev.push(w);
        }
        let mid_text = copy_range(line.as_str(), mid_span.index,
            mid_span.index + mid_span.len);
        let mid = WordRefWithPosition {
            kind: mid_span.kind,
            text: mid_text,
            position: BufferPosition {
                line_index: position.line_index,
                column_byte_index: mid_span.index as u32,
            },
        };
        (mid, left_rev, right)
    }

    /// The position one character before `position` on its line, or the
    /// line's start: steps back over a whole utf-8 character.
    pub fn position_before(&self, position: BufferPosition) -> (r: BufferPosition)
        requires
            self.wf(),
            valid_position(self.view_lines(), position),
        ensures
            r.line_index == position.line_index,
            r.column_byte_index <= position.column_byte_index,
    {
        proof {
            self.lemma_wf_bounds();
        }
        let line = self.line_at(position.line_index as usize);
        let bytes = line.as_str();
        let mut col = position.column_byte_index as usize;
        while col > 0 && 0x80u8 <= bytes[col - 1] && bytes[col - 1] < 0xc0u8
            invariant
                col <= bytes@.len(),
                col <= position.column_byte_index,
                bytes@.len() <= u32::MAX,
            decreases col,
        {
            col = col - 1;
        }
        if col > 0 {
            col = col - 1;
        }
        BufferPosition {
            line_index: position.line_index,
            column_byte_index: col as u32,
        }
    }

    /// The innermost pair of `delimiter` bytes around `position` on its
    /// line; the returned range excludes the delimiters, and `None` comes
    /// back exactly when the saturated position sits between no pair.
    pub fn find_delimiter_pair_at(&self, position: BufferPosition, delimiter: u8) -> (r:
        Option<BufferRange>)
        requires
            self.wf(),
        ensures
            r matches Some(range) ==> {
                let lines = self.view_lines();
                let li = sat_pos_spec(lines, position).line_index as int;
                &&& range.from.line_index as int == li
                &&& range.to.line_index as int == li
                &&& 1 <= range.from.column_byte_index
                &&& range.from.column_byte_index <= range.to.column_byte_index
                &&& range.to.column_byte_index < lines[li].len()
                &&& lines[li][range.from.column_byte_index - 1] == delimiter
                &&& lines[li][range.to.column_byte_index as int] == delimiter
            },
            ({
                let lines = self.view_lines();
                let sp = sat_pos_spec(lines, position);
                let line = lines[sp.line_index as int];
                match spec_delimiter_pair(line, sp.column_byte_index as int, delimiter) {
                    Some(p) => r == Some(BufferRange {
                        from: BufferPosition {
                            line_index: sp.line_index,
                            column_byte_index: p.0 as u32,
                        },
                        to: BufferPosition {
                            line_index: sp.line_index,
                            column_byte_index: p.1 as u32,
                        },
                    }),
                    None => r is None,
                }
            }),
    {
        proof {
            self.lemma_wf_bounds();
        }
        let position = self.saturate_position(position);
        let line = self.line_at(position.line_index as usize);
        match find_delimiter_pair(line.as_str(), position.column_byte_index as usize,
            delimiter) {
            Some((from, to)) => Some(BufferRange {
                from: BufferPosition {
                    line_index: position.line_index,
                    column_byte_index: from as u32,
                },
                to: BufferPosition {
                    line_index: position.line_index,
                    column_byte_index: to as u32,
                },
            }),
            None => None,
        }
    }

    /// The innermost balanced pair of `open`/`close` bytes around
    /// `position` (saturated), searching outward across lines with a
    /// balance counter; the returned range excludes the delimiters, and
    /// `None` comes back exactly when one side has no unmatched delimiter.
    pub fn find_balanced_chars_at(&self, position: BufferPosition, open: u8, close: u8)
        -> (r: Option<BufferRange>)
        requires
            self.wf(),
        ensures
            r matches Some(range) ==> {
                let lines = self.view_lines();
                &&& (range.from.line_index as int) < lines.len()
                &&& (range.to.line_index as int) < lines.len()
                &&& range.from.column_byte_index >= 1
                &&& range.from.column_byte_index <= lines[range.from.line_index
                    as int].len()
                &&& range.to.column_byte_index < lines[range.to.line_index as int].len()
                &&& lines[range.from.line_index as int][range.from.column_byte_index - 1]
                    == open
                &&& lines[range.to.line_index as int][range.to.column_byte_index as int]
                    == close
            },
            ({
                let lines = self.view_lines();
                let sp = sat_pos_spec(lines, position);
                match spec_balanced_range(lines, sp, open, close) {
                    Some(range2) => r == Some(range2),
                    None => r is None,
                }
            }),
    {
        proof {
            self.lemma_wf_bounds();
        }
        let ghost lines = self.view_lines();
        let ghost orig_pos = position;
        let position = self.saturate_position(position);
        proof {
            assert(position == sat_pos_spec(lines, orig_pos));
        }
        let li = position.line_index as usize;
        let col = position.column_byte_index as usize;
        let line = self.line_at(li);
        let bytes = line.as_str();

        // a delimiter directly at the position settles its own side
        let at_open = col < bytes.len() && bytes[col] == open;
        let at_close = col < bytes.len() && bytes[col] == close;

        // scan right for the closing delimiter
        let right_position: BufferPosition;
        if at_close {
            right_position = position;
            proof {
                assert(spec_balanced_right(lines, position, open, close)
                    == Some(right_position));
            }
        } else {
            let start = if at_open {
                col + 1
            } else {
                col
            };
            let mut balance: u64 = 0;
            match scan_close(bytes, start, open, close, &mut balance) {
                Some(i) => {
                    right_position = BufferPosition {
                        line_index: position.line_index,
                        column_byte_index: i as u32,
                    };
                    proof {
                        assert(spec_balanced_right(lines, position, open, close)
                            == Some(right_position));
                    }
                }
                None => {
                    let ghost b0 = balance;
                    let mut found: Option<BufferPosition> = None;
                    let n = self.line_count();
                    proof {
                        assert((li as int) < lines.len());
                        crate::text::lemma_flatten_len(lines.take(li + 1 as int));
                        assert(lines.take(li + 1 as int)[li as int] == lines[li as int]);
                        assert(b0 <= lines[li as int].len());
                    }
                    let mut k = li + 1;
                    while k < n
                        invariant_except_break
                            found is None,
                            spec_doc_close_scan(lines, li + 1 as int, open, close,
                                b0 as int) == spec_doc_close_scan(lines, k as int, open,
                                close, balance as int),
                            balance as int <= flatten_lines(lines.take(k as int)).len(),
                        invariant
                            self.wf(),
                            lines == self.view_lines(),
                            n == lines.len(),
                            li < n,
                            li + 1 <= k <= n,
                            flatten_lines(lines).len() <= u32::MAX,
                        ensures
                            found matches Some(p) ==> spec_doc_close_scan(lines,
                                li + 1 as int, open, close, b0 as int) == Some(p)
                                && (p.line_index as int) < lines.len()
                                && p.column_byte_index
                                    < lines[p.line_index as int].len()
                                && lines[p.line_index as int][p.column_byte_index as int]
                                    == close,
                            found is None ==> spec_doc_close_scan(lines, li + 1 as int,
                                open, close, b0 as int) is None,
                        decreases n - k,
                    {
                        proof {
                            self.lemma_wf_bounds();
                            lemma_flatten_take_le(lines, k as int);
                        }
                        let other = self.line_at(k);
                        let ghost bal_pre = balance;
                        match scan_close(other.as_str(), 0, open, close, &mut balance) {
                            Some(i) => {
                                found = Some(BufferPosition {
                                    line_index: k as u32,
                                    column_byte_index: i as u32,
                                });
                                proof {
                                    assert(spec_close_scan(lines[k as int], 0, open,
                                        close, bal_pre as int) == Ok::<int, int>(i as int));
                                    assert(spec_doc_close_scan(lines, k as int, open,
                                        close, bal_pre as int) == found);
                                }
                                break;
                            }
                            None => {
                                proof {
                                    assert(spec_doc_close_scan(lines, k as int, open,
                                        close, bal_pre as int) == spec_doc_close_scan(
                                        lines, k + 1 as int, open, close,
                                        balance as int));
                                }
                            }
                        }
                        k = k + 1;
                    }
                    match found {
                        Some(p) => {
                            right_position = p;
                            proof {
                                assert(spec_balanced_right(lines, position, open, close)
                                    == Some(right_position));
                            }
                        }
                        None => {
                            proof {
                                assert(spec_balanced_right(lines, position, open, close)
                                    is None);
                            }
                            return None;
                        }
                    }
                }
            }
        }
        proof {
            assert(spec_balanced_right(lines, position, open, close)
                == Some(right_position));
        }

        // scan left for the opening delimiter
        let left_position: BufferPosition;
        if at_open {
            left_position = BufferPosition {
                line_index: position.line_index,
                column_byte_index: (col + 1) as u32,
            };
            proof {
                assert(lines[li as int][col as int] == open);
                assert(spec_balanced_left(lines, position, open, close)
                    == Some(left_position));
            }
        } else {
            let mut balance: u64 = 0;
            match scan_open(bytes, col, open, close, &mut balance) {
                Some(i) => {
                    left_position = BufferPosition {
                        line_index: position.line_index,
                        column_byte_index: (i + 1) as u32,
                    };
                    proof {
                        assert(spec_balanced_left(lines, position, open, close)
                            == Some(left_position));
                    }
                }
                None => {
                    let ghost b0 = balance;
                    let mut found: Option<BufferPosition> = None;
                    proof {
                        crate::text::lemma_flatten_len(lines.skip(li as int));
                        assert(lines.skip(li as int)[0] == lines[li as int]);
                        assert(b0 <= lines[li as int].len());
                    }
                    let mut k = li;
                    while k > 0
                        invariant_except_break
                            found is None,
                            spec_doc_open_scan(lines, li as int, open, close, b0 as int)
                                == spec_doc_open_scan(lines, k as int, open, close,
                                balance as int),
                            balance as int <= flatten_lines(lines.skip(k as int)).len(),
                        invariant
                            self.wf(),
                            lines == self.view_lines(),
                            k <= li < lines.len(),
                            flatten_lines(lines).len() <= u32::MAX,
                        ensures
                            found matches Some(p) ==> spec_doc_open_scan(lines,
                                li as int, open, close, b0 as int) == Some(p)
                                && (p.line_index as int) < lines.len()
                                && p.column_byte_index >= 1
                                && p.column_byte_index
                                    <= lines[p.line_index as int].len()
                                && lines[p.line_index as int][p.column_byte_index - 1]
                                    == open,
                            found is None ==> spec_doc_open_scan(lines, li as int, open,
                                close, b0 as int) is None,
                        decreases k,
                    {
                        proof {
                            self.lemma_wf_bounds();
                            lemma_flatten_skip_le(lines, k as int);
                        }
                        k = k - 1;
                        let other = self.line_at(k);
                        let ghost bal_pre = balance;
                        match scan_open(other.as_str(), other.len(), open, close,
                            &mut balance) {
                            Some(i) => {
                                found = Some(BufferPosition {
                                    line_index: k as u32,
                                    column_byte_index: (i + 1) as u32,
                                });
                                proof {
                                    assert(spec_open_scan(lines[k as int],
                                        lines[k as int].len() as int, open, close,
                                        bal_pre as int) == Ok::<int, int>(i as int));
                                    assert(spec_doc_open_scan(lines, k + 1 as int, open,
                                        close, bal_pre as int) == found);
                                }
                                break;
                            }
                            None => {
                                proof {
                                    assert(spec_doc_open_scan(lines, k + 1 as int, open,
                                        close, bal_pre as int) == spec_doc_open_scan(
                                        lines, k as int, open, close, balance as int));
                                }
                            }
                        }
                    }
                    match found {
                        Some(p) => {
                            left_position = p;
                            proof {
                                assert(spec_balanced_left(lines, position, open, close)
                                    == Some(left_position));
                            }
                        }
                        None => {
                            proof {
                                assert(spec_balanced_left(lines, position, open, close)
                                    is None);
                            }
                            return None;
                        }
                    }
                }
            }
        }

        proof {
            assert(spec_balanced_left(lines, position, open, close)
                == Some(left_position));
            assert(spec_balanced_range(lines, position, open, close)
                == Some(BufferRange { from: left_position, to: right_position }));
        }
        Some(BufferRange { from: left_position, to: right_position })
    }
}

/// A range a search appended: it sits on one line within the content, and
/// the line carries the pattern's literal head at the range's start (at the
/// line's start, for an anchored pattern).
pub open spec fn appended_search_range(rg: BufferRange, lines: Seq<Seq<u8>>,
    head: Seq<u8>, anchored: bool) -> bool {
    &&& rg.from.line_index == rg.to.line_index
    &&& (rg.from.line_index as int) < lines.len()
    &&& rg.from.column_byte_index <= rg.to.column_byte_index
    &&& rg.to.column_byte_index <= lines[rg.from.line_index as int].len()
    &&& rg.from.column_byte_index + head.len() <= rg.to.column_byte_index
    &&& lines[rg.from.line_index as int].subrange(rg.from.column_byte_index as int,
        rg.from.column_byte_index + head.len()) == head
    &&& (anchored ==> rg.from.column_byte_index == 0)
}

/// A saturated position, for contracts: alias of `sat_pos` in the buffer
/// module's sense.
pub open spec fn sat_pos_spec(lines: Seq<Seq<u8>>, p: BufferPosition) -> BufferPosition {
    let li = if (p.line_index as int) < lines.len() {
        p.line_index as int
    } else {
        lines.len() - 1
    };
    let col = if p.column_byte_index <= lines[li].len() {
        p.column_byte_index as int
    } else {
        lines[li].len() as int
    };
    BufferPosition { line_index: li as u32, column_byte_index: col as u32 }
}

/// The delimiter-pair scan from byte `i` on, with `open_at` the unmatched
/// opening delimiter seen so far: delimiter occurrences pair up first with
/// second, third with fourth, and so on, and the pair whose opening and
/// closing occurrence enclose `index` (inclusive) is returned, exclusive of
/// the delimiters. `None` means no pair of the text encloses `index`.
pub open spec fn spec_delimiter_pair_from(
    text: Seq<u8>,
    index: int,
    delimiter: u8,
    i: int,
    open_at: Option<int>,
) -> Option<(int, int)>
    decreases text.len() - i,
{
    if i < 0 || i >= text.len() {
        None
    } else if text[i] == delimiter {
        if i >= index {
            match open_at {
                Some(a) => Some((a + 1, i)),
                None => if i != index {
                    None
                } else {
                    spec_delimiter_pair_from(text, index, delimiter, i + 1, Some(i))
                },
            }
        } else {
            match open_at {
                Some(_) => spec_delimiter_pair_from(text, index, delimiter, i + 1, None),
                None => spec_delimiter_pair_from(text, index, delimiter, i + 1, Some(i)),
            }
        }
    } else {
        spec_delimiter_pair_from(text, index, delimiter, i + 1, open_at)
    }
}

/// The pair of `delimiter` occurrences enclosing `index`, exclusive of the
/// delimiters; `None` when `index` sits between no pair.
pub open spec fn spec_delimiter_pair(text: Seq<u8>, index: int, delimiter: u8) -> Option<(
    int,
    int,
)> {
    spec_delimiter_pair_from(text, index, delimiter, 0, None)
}

/// The innermost pair of identical `delimiter` bytes around byte `index` of
/// `text`; the returned pair excludes the delimiters, and `None` comes back
/// exactly when `index` does not sit between a matched pair.
pub fn find_delimiter_pair(text: &[u8], index: usize, delimiter: u8) -> (r: Option<(usize,
    usize)>)
    requires
        text@.len() <= u32::MAX,
    ensures
        r matches Some((from, to)) ==> 1 <= from <= to < text@.len()
            && text@[from - 1] == delimiter && text@[to as int] == delimiter,
        r matches Some((from, to)) ==> spec_delimiter_pair(text@, index as int, delimiter)
            == Some((from as int, to as int)),
        r is None ==> spec_delimiter_pair(text@, index as int, delimiter) is None,
{
    let mut is_right_delim = false;
    let mut last_i: usize = 0;
    let mut i: usize = 0;
    let n = text.len();
    while i < n
        invariant
            n == text@.len(),
            i <= n,
            is_right_delim ==> last_i < i && last_i < n && text@[last_i as int]
                == delimiter,
            spec_delimiter_pair(text@, index as int, delimiter)
                == spec_delimiter_pair_from(text@, index as int, delimiter, i as int,
                if is_right_delim {
                    Some(last_i as int)
                } else {
                    None
                }),
        decreases n - i,
    {
        if text[i] == delimiter {
            if i >= index {
                if is_right_delim {
                    return Some((last_i + 1, i));
                }
                if i != index {
                    return None;
                }
            }
            is_right_delim = !is_right_delim;
            last_i = i;
        }
        i = i + 1;
    }
    None
}

/// The rightward scan within one line from byte `i`: `Ok` carries the byte
/// index of the first `close` not matched by an `open` seen on the way
/// (starting `b` deep), `Err` the nesting depth carried into the next line.
pub open spec fn spec_close_scan(line: Seq<u8>, i: int, open: u8, close: u8, b: int)
    -> Result<int, int>
    decreases line.len() - i,
{
    if i < 0 || i >= line.len() {
        Err(b)
    } else if line[i] == close {
        if b == 0 {
            Ok(i)
        } else {
            spec_close_scan(line, i + 1, open, close, b - 1)
        }
    } else if line[i] == open {
        spec_close_scan(line, i + 1, open, close, b + 1)
    } else {
        spec_close_scan(line, i + 1, open, close, b)
    }
}

/// The leftward scan within one line from just before byte `end`: `Ok`
/// carries the byte index of the first `open` not matched by a `close` seen
/// on the way, `Err` the nesting depth carried into the line above.
pub open spec fn spec_open_scan(line: Seq<u8>, end: int, open: u8, close: u8, b: int)
    -> Result<int, int>
    decreases end,
{
    if end <= 0 {
        Err(b)
    } else {
        let i = end - 1;
        if line[i] == open {
            if b == 0 {
                Ok(i)
            } else {
                spec_open_scan(line, i, open, close, b - 1)
            }
        } else if line[i] == close {
            spec_open_scan(line, i, open, close, b + 1)
        } else {
            spec_open_scan(line, i, open, close, b)
        }
    }
}

/// The rightward scan continued over whole lines from `li` on; the position
/// of the unmatched `close`, when one exists.
pub open spec fn spec_doc_close_scan(lines: Seq<Seq<u8>>, li: int, open: u8, close: u8,
    b: int) -> Option<BufferPosition>
    decreases lines.len() - li,
{
    if li < 0 || li >= lines.len() {
        None
    } else {
        match spec_close_scan(lines[li], 0, open, close, b) {
            Ok(i) => Some(BufferPosition {
                line_index: li as u32,
                column_byte_index: i as u32,
            }),
            Err(b2) => spec_doc_close_scan(lines, li + 1, open, close, b2),
        }
    }
}

/// The leftward scan continued over the whole lines above `li`; the
/// position just after the unmatched `open`, when one exists.
pub open spec fn spec_doc_open_scan(lines: Seq<Seq<u8>>, li: int, open: u8, close: u8,
    b: int) -> Option<BufferPosition>
    decreases li,
{
    if li <= 0 || li > lines.len() {
        None
    } else {
        match spec_open_scan(lines[li - 1], lines[li - 1].len() as int, open, close, b) {
            Ok(i) => Some(BufferPosition {
                line_index: (li - 1) as u32,
                column_byte_index: (i + 1) as u32,
            }),
            Err(b2) => spec_doc_open_scan(lines, li - 1, open, close, b2),
        }
    }
}

/// The closing side of the balanced range around `p`: the nearest `close`
/// at or after `p` not matched by an intervening `open`, the scan running
/// across lines; a `close` directly at `p` counts, an `open` directly at
/// `p` is stepped over as the range's own opener.
pub open spec fn spec_balanced_right(lines: Seq<Seq<u8>>, p: BufferPosition, open: u8,
    close: u8) -> Option<BufferPosition> {
    let li = p.line_index as int;
    let col = p.column_byte_index as int;
    let line = lines[li];
    let at_open = col < line.len() && line[col] == open;
    let at_close = col < line.len() && line[col] == close;
    if at_close {
        Some(p)
    } else {
        let start = if at_open {
            col + 1
        } else {
            col
        };
        match spec_close_scan(line, start, open, close, 0) {
            Ok(i) => Some(BufferPosition {
                line_index: p.line_index,
                column_byte_index: i as u32,
            }),
            Err(b) => spec_doc_close_scan(lines, li + 1, open, close, b),
        }
    }
}

/// The opening side of the balanced range around `p`: the position just
/// after the nearest `open` before `p` not matched by an intervening
/// `close`; an `open` directly at `p` counts as its own opener.
pub open spec fn spec_balanced_left(lines: Seq<Seq<u8>>, p: BufferPosition, open: u8,
    close: u8) -> Option<BufferPosition> {
    let li = p.line_index as int;
    let col = p.column_byte_index as int;
    let line = lines[li];
    let at_open = col < line.len() && line[col] == open;
    if at_open {
        Some(BufferPosition { line_index: p.line_index, column_byte_index: (col + 1) as u32 })
    } else {
        match spec_open_scan(line, col, open, close, 0) {
            Ok(i) => Some(BufferPosition {
                line_index: p.line_index,
                column_byte_index: (i + 1) as u32,
            }),
            Err(b) => spec_doc_open_scan(lines, li, open, close, b),
        }
    }
}

/// The balanced range around a position: both sides' unmatched delimiters,
/// exclusive of the delimiters themselves; `None` comes back exactly when
/// either side has no unmatched delimiter left in the content.
pub open spec fn spec_balanced_range(lines: Seq<Seq<u8>>, p: BufferPosition, open: u8,
    close: u8) -> Option<BufferRange> {
    match (spec_balanced_left(lines, p, open, close), spec_balanced_right(lines, p, open,
        close)) {
        (Some(l), Some(r)) => Some(BufferRange { from: l, to: r }),
        _ => None,
    }
}

/// A line prefix of the split document is no longer than the whole, and
/// grows by the next line and its newline.
proof fn lemma_flatten_take_le(lines: Seq<Seq<u8>>, k: int)
    requires
        1 <= k <= lines.len(),
    ensures
        flatten_lines(lines.take(k)).len() <= flatten_lines(lines).len(),
        k < lines.len() ==> flatten_lines(lines.take(k + 1)).len()
            == flatten_lines(lines.take(k)).len() + 1 + lines[k].len(),
{
    if k < lines.len() {
        crate::text::lemma_flatten_append(lines.take(k), seq![lines[k]]);
        assert(lines.take(k + 1) =~= lines.take(k) + seq![lines[k]]);
        crate::text::lemma_flatten_append(lines.take(k), lines.skip(k));
        assert(lines =~= lines.take(k) + lines.skip(k));
    } else {
        assert(lines.take(k) =~= lines);
    }
}

/// A line suffix of the split document is no longer than the whole, and
/// grows by the line above and its newline.
proof fn lemma_flatten_skip_le(lines: Seq<Seq<u8>>, k: int)
    requires
        0 <= k < lines.len(),
    ensures
        flatten_lines(lines.skip(k)).len() <= flatten_lines(lines).len(),
        k >= 1 ==> flatten_lines(lines.skip(k - 1)).len()
            == lines[k - 1].len() + 1 + flatten_lines(lines.skip(k)).len(),
{
    if k >= 1 {
        crate::text::lemma_flatten_append(seq![lines[k - 1]], lines.skip(k));
        assert(lines.skip(k - 1) =~= seq![lines[k - 1]] + lines.skip(k));
        crate::text::lemma_flatten_append(lines.take(k), lines.skip(k));
        assert(lines =~= lines.take(k) + lines.skip(k));
    } else {
        assert(lines.skip(k) =~= lines);
    }
}

/// Scan right from `start` for an unbalanced `close`, counting nested
/// `open`/`close` pairs in `balance`.
fn scan_close(text: &[u8], start: usize, open: u8, close: u8, balance: &mut u64) -> (r:
    Option<usize>)
    requires
        start <= text@.len(),
        text@.len() <= u32::MAX,
        *old(balance) + text@.len() - start <= u64::MAX,
    ensures
        r matches Some(i) ==> start <= i < text@.len() && text@[i as int] == close
            && spec_close_scan(text@, start as int, open, close, *old(balance) as int)
                == Ok::<int, int>(i as int),
        r is None ==> spec_close_scan(text@, start as int, open, close,
            *old(balance) as int) == Err::<int, int>(*final(balance) as int)
            && *final(balance) <= *old(balance) + text@.len() - start,
{
    let mut b = *balance;
    let mut i = start;
    let n = text.len();
    while i < n
        invariant
            n == text@.len(),
            start <= i <= n,
            b <= *old(balance) + i - start,
            *old(balance) + n - start <= u64::MAX,
            spec_close_scan(text@, i as int, open, close, b as int)
                == spec_close_scan(text@, start as int, open, close,
                *old(balance) as int),
        decreases n - i,
    {
        if text[i] == close {
            if b == 0 {
                *balance = 0;
                return Some(i);
            }
            b = b - 1;
        } else if text[i] == open {
            if b < 0xffffffffffffffffu64 {
                b = b + 1;
            }
        }
        i = i + 1;
    }
    *balance = b;
    None
}

/// Scan left from just before `end` for an unbalanced `open`, counting
/// nested pairs in `balance`.
fn scan_open(text: &[u8], end: usize, open: u8, close: u8, balance: &mut u64) -> (r:
    Option<usize>)
    requires
        end <= text@.len(),
        text@.len() <= u32::MAX,
        *old(balance) + end <= u64::MAX,
    ensures
        r matches Some(i) ==> i < end && text@[i as int] == open
            && spec_open_scan(text@, end as int, open, close, *old(balance) as int)
                == Ok::<int, int>(i as int),
        r is None ==> spec_open_scan(text@, end as int, open, close,
            *old(balance) as int) == Err::<int, int>(*final(balance) as int)
            && *final(balance) <= *old(balance) + end,
{
    let mut b = *balance;
    let mut i = end;
    while i > 0
        invariant
            i <= end <= text@.len(),
            b <= *old(balance) + (end - i),
            *old(balance) + end <= u64::MAX,
            spec_open_scan(text@, i as int, open, close, b as int)
                == spec_open_scan(text@, end as int, open, close, *old(balance) as int),
        decreases i,
    {
        i = i - 1;
        if text[i] == open {
            if b == 0 {
                *balance = 0;
                return Some(i);
            }
            b = b - 1;
        } else if text[i] == close {
            if b < 0xffffffffffffffffu64 {
                b = b + 1;
            }
        }
    }
    *balance = b;
    None
}

} // verus!
