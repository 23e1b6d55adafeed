//! Words within a line: maximal runs of bytes of one kind. Identifier bytes
//! are ascii alphanumerics, underscores, and all non-ascii utf-8 bytes;
//! ascii whitespace separates; everything else is symbol punctuation.

use vstd::prelude::*;

use crate::text::copy_range;

verus! {

/// The classification a byte run falls under.
#[derive(Debug, Clone, Copy, PartialEq, Eq, Structural)]
pub enum WordKind {
    Identifier,
    Symbol,
    Whitespace,
}

/// The kind of a single byte.
pub open spec fn byte_kind(b: u8) -> WordKind {
    if (0x30 <= b <= 0x39) || (0x41 <= b <= 0x5a) || (0x61 <= b <= 0x7a) || b == 0x5f
        || b >= 0x80 {
        WordKind::Identifier
    } else if b == 0x20 || (0x09 <= b <= 0x0d) {
        WordKind::Whitespace
    } else {
        WordKind::Symbol
    }
}

/// Executable form of `byte_kind`.
pub fn classify_byte(b: u8) -> (r: WordKind)
    ensures
        r == byte_kind(b),
{
    if (0x30u8 <= b && b <= 0x39u8) || (0x41u8 <= b && b <= 0x5au8)
        || (0x61u8 <= b && b <= 0x7au8) || b == 0x5fu8 || b >= 0x80u8 {
        WordKind::Identifier
    } else if b == 0x20u8 || (0x09u8 <= b && b <= 0x0du8) {
        WordKind::Whitespace
    } else {
        WordKind::Symbol
    }
}

/// How far the run of bytes of kind `k` starting at `i` extends.
pub open spec fn run_len(line: Seq<u8>, i: int, k: WordKind) -> int
    decreases line.len() - i,
{
    if i < 0 || i >= line.len() || byte_kind(line[i]) != k {
        0
    } else {
        1 + run_len(line, i + 1, k)
    }
}

/// A run stays within the line, covers only bytes of its kind, and is
/// maximal.
pub proof fn lemma_run_len(line: Seq<u8>, i: int, k: WordKind)
    requires
        0 <= i <= line.len(),
    ensures
        0 <= run_len(line, i, k) <= line.len() - i,
        forall|j: int| i <= j < i + run_len(line, i, k) ==> byte_kind(#[trigger] line[j]) == k,
        i + run_len(line, i, k) < line.len()
            ==> byte_kind(line[i + run_len(line, i, k)]) != k,
        i < line.len() && byte_kind(line[i]) == k ==> run_len(line, i, k) >= 1,
    decreases line.len() - i,
{
    if i < line.len() && byte_kind(line[i]) == k {
        lemma_run_len(line, i + 1, k);
    }
}

/// One word of a line: its kind and the byte range it covers.
#[derive(Debug, Clone, Copy, PartialEq, Eq, Structural)]
pub struct WordSpan {
    pub kind: WordKind,
    pub index: usize,
    pub len: usize,
}

/// The words of `line` from byte `i` on: maximal same-kind runs, in order.
pub open spec fn spec_words(line: Seq<u8>, i: int) -> Seq<WordSpan>
    decreases line.len() - i,
    via spec_words_decreases
{
    if i < 0 || i >= line.len() {
        Seq::empty()
    } else {
        let k = byte_kind(line[i]);
        let l = run_len(line, i, k);
        seq![WordSpan { kind: k, index: i as usize, len: l as usize }]
            + spec_words(line, i + l)
    }
}

#[via_fn]
proof fn spec_words_decreases(line: Seq<u8>, i: int) {
    if 0 <= i < line.len() {
        lemma_run_len(line, i, byte_kind(line[i]));
    }
}

/// The texts of the identifier words of `line`.
pub open spec fn ident_texts(line: Seq<u8>) -> Seq<Seq<u8>> {
    spec_words(line, 0).filter(|w: WordSpan| w.kind == WordKind::Identifier)
        .map_values(|w: WordSpan| line.subrange(w.index as int, w.index + w.len))
}

/// All words of `line`, with their byte ranges.
pub fn words_of_line(line: &[u8]) -> (r: Vec<WordSpan>)
    requires
        line@.len() <= u32::MAX,
    ensures
        r@ == spec_words(line@, 0),
{
    let mut r: Vec<WordSpan> = Vec::new();
    let mut i: usize = 0;
    proof {
        assert(r@ + spec_words(line@, 0) =~= spec_words(line@, 0));
    }
    while i < line.len()
        invariant
            i <= line@.len(),
            line@.len() <= u32::MAX,
            r@ + spec_words(line@, i as int) =~= spec_words(line@, 0),
        decreases line@.len() - i,
    {
        let k = classify_byte(line[i]);
        let mut j = i + 1;
        proof {
            lemma_run_len(line@, i as int, k);
            lemma_run_len(line@, i + 1, k);
        }
        while j < line.len() && run_continues(line, j, k)
            invariant
                i < j <= line@.len(),
                byte_kind(line@[i as int]) == k,
                forall|t: int| i <= t < j ==> byte_kind(#[trigger] line@[t]) == k,
            decreases line@.len() - j,
        {
            j = j + 1;
        }
        proof {
            lemma_run_exact(line@, i as int, j as int, k);
        }
        let ghost prior = r@;
        r.push(WordSpan { kind: k, index: i, len: j - i });
        proof {
            assert(spec_words(line@, i as int) == seq![WordSpan {
                kind: k,
                index: i,
                len: (j - i) as usize,
            }] + spec_words(line@, j as int));
            assert(r@ + spec_words(line@, j as int) =~= prior
                + spec_words(line@, i as int));
        }
        i = j;
    }
    proof {
        assert(r@ =~= r@ + spec_words(line@, i as int));
    }
    r
}

/// Whether the run of kind `k` continues at byte `j`.
fn run_continues(line: &[u8], j: usize, k: WordKind) -> (r: bool)
    requires
        (j as int) < line@.len(),
    ensures
        r == (byte_kind(line@[j as int]) == k),
{
    let kj = classify_byte(line[j]);
    match (kj, k) {
        (WordKind::Identifier, WordKind::Identifier) => true,
        (WordKind::Symbol, WordKind::Symbol) => true,
        (WordKind::Whitespace, WordKind::Whitespace) => true,
        _ => false,
    }
}

/// A scanned maximal run agrees with `run_len`.
proof fn lemma_run_exact(line: Seq<u8>, i: int, j: int, k: WordKind)
    requires
        0 <= i < j <= line.len(),
        forall|t: int| i <= t < j ==> byte_kind(#[trigger] line[t]) == k,
        j < line.len() ==> byte_kind(line[j]) != k,
    ensures
        run_len(line, i, k) == j - i,
    decreases j - i,
{
    if i + 1 < j {
        lemma_run_exact(line, i + 1, j, k);
    } else {
        lemma_run_len(line, i + 1, k);
        assert(run_len(line, i + 1, k) == 0);
    }
}

/// The word around byte `index` of `line`: the maximal same-kind run
/// containing it, or an empty whitespace word at the line's end.
pub fn word_span_at(line: &[u8], index: usize) -> (r: WordSpan)
    requires
        index <= line@.len(),
        line@.len() <= u32::MAX,
    ensures
        index == line@.len() ==> r.kind == WordKind::Whitespace && r.index == index
            && r.len == 0,
        (index as int) < line@.len() ==> {
            &&& r.kind == byte_kind(line@[index as int])
            &&& r.index <= index < r.index + r.len
            &&& r.index + r.len <= line@.len()
            &&& forall|t: int| r.index <= t < r.index + r.len
                ==> byte_kind(#[trigger] line@[t]) == r.kind
            &&& r.index > 0 ==> byte_kind(line@[r.index - 1]) != r.kind
            &&& r.index + r.len < line@.len() ==> byte_kind(line@[r.index + r.len])
                != r.kind
        },
{
    if index >= line.len() {
        return WordSpan { kind: WordKind::Whitespace, index, len: 0 };
    }
    let k = classify_byte(line[index]);
    let mut s = index;
    while s > 0 && run_continues(line, s - 1, k)
        invariant
            s <= index < line@.len(),
            forall|t: int| s <= t <= index ==> byte_kind(#[trigger] line@[t]) == k,
        decreases s,
    {
        s = s - 1;
    }
    let mut e = index + 1;
    while e < line.len() && run_continues(line, e, k)
        invariant
            index < e <= line@.len(),
            forall|t: int| index <= t < e ==> byte_kind(#[trigger] line@[t]) == k,
        decreases line@.len() - e,
    {
        e = e + 1;
    }
    WordSpan { kind: k, index: s, len: e - s }
}

/// The texts of the identifier words of `line`, in order.
pub fn identifier_words(line: &[u8]) -> (r: Vec<Vec<u8>>)
    requires
        line@.len() <= u32::MAX,
    ensures
        r@.map_values(|w: Vec<u8>| w@) == ident_texts(line@),
{
    let words = words_of_line(line);
    let mut r: Vec<Vec<u8>> = Vec::new();
    let mut i: usize = 0;
    proof {
        lemma_words_in_bounds(line@, 0);
        assert(words@.take(0) =~= Seq::<WordSpan>::empty());
        assert(r@.map_values(|w: Vec<u8>| w@) =~= words@.take(0)
            .filter(|w: WordSpan| w.kind == WordKind::Identifier)
            .map_values(|w: WordSpan| line@.subrange(w.index as int, w.index + w.len)));
    }
    while i < words.len()
        invariant
            i <= words@.len(),
            line@.len() <= u32::MAX,
            words@ == spec_words(line@, 0),
            forall|t: int| 0 <= t < words@.len() ==> (#[trigger] words@[t]).index
                + words@[t].len <= line@.len(),
            r@.map_values(|w: Vec<u8>| w@) == words@.take(i as int)
                .filter(|w: WordSpan| w.kind == WordKind::Identifier)
                .map_values(|w: WordSpan| line@.subrange(w.index as int, w.index + w.len)),
        decreases words@.len() - i,
    {
        let w = words[i];
        let ghost prefix = words@.take(i as int);
        proof {
            assert(words@.take(i + 1 as int) =~= prefix.push(w));
            lemma_filter_map_push(prefix, w, line@);
        }
        if matches!(w.kind, WordKind::Identifier) {
            let text = copy_range(line, w.index, w.index + w.len);
            let ghost prior = r@;
            r.push(text);
            proof {
                assert(r@.map_values(|w2: Vec<u8>| w2@)
                    =~= prior.map_values(|w2: Vec<u8>| w2@).push(text@));
            }
        }
        i = i + 1;
    }
    proof {
        assert(words@.take(words@.len() as int) =~= words@);
    }
    r
}

/// Every word of a line stays within the line.
pub proof fn lemma_words_in_bounds(line: Seq<u8>, i: int)
    requires
        0 <= i <= line.len(),
        line.len() <= u32::MAX,
    ensures
        forall|t: int| 0 <= t < spec_words(line, i).len()
            ==> i <= (#[trigger] spec_words(line, i)[t]).index
                && spec_words(line, i)[t].index + spec_words(line, i)[t].len <= line.len()
                && spec_words(line, i)[t].len >= 1,
    decreases line.len() - i,
{
    if i < line.len() {
        let k = byte_kind(line[i]);
        let l = run_len(line, i, k);
        lemma_run_len(line, i, k);
        lemma_words_in_bounds(line, i + l);
        assert forall|t: int| 0 <= t < spec_words(line, i).len()
            implies i <= (#[trigger] spec_words(line, i)[t]).index
                && spec_words(line, i)[t].index + spec_words(line, i)[t].len <= line.len()
                && spec_words(line, i)[t].len >= 1 by {
            if t == 0 {
                assert(spec_words(line, i)[0] == (WordSpan {
                    kind: k,
                    index: i as usize,
                    len: l as usize,
                }));
                assert(l >= 1);
            } else {
                assert(spec_words(line, i)[t] == spec_words(line, i + l)[t - 1]);
                assert(i + l <= (spec_words(line, i + l)[t - 1]).index);
            }
        }
    }
}

/// Filtering and mapping distribute over appending one word.
proof fn lemma_filter_map_push(prefix: Seq<WordSpan>, w: WordSpan, line: Seq<u8>)
    ensures
        prefix.push(w).filter(|x: WordSpan| x.kind == WordKind::Identifier)
            .map_values(|x: WordSpan| line.subrange(x.index as int, x.index + x.len))
            == if w.kind == WordKind::Identifier {
            prefix.filter(|x: WordSpan| x.kind == WordKind::Identifier)
                .map_values(|x: WordSpan| line.subrange(x.index as int, x.index + x.len))
                .push(line.subrange(w.index as int, w.index + w.len))
        } else {
            prefix.filter(|x: WordSpan| x.kind == WordKind::Identifier)
                .map_values(|x: WordSpan| line.subrange(x.index as int, x.index + x.len))
        },
{
    reveal(Seq::filter);
    let f = |x: WordSpan| x.kind == WordKind::Identifier;
    assert(prefix.push(w).drop_last() =~= prefix);
    assert(prefix.push(w).last() == w);
    assert(prefix.push(w).filter(f) == if f(w) {
        prefix.filter(f).push(w)
    } else {
        prefix.filter(f)
    });
    if f(w) {
        assert(prefix.filter(f).push(w)
            .map_values(|x: WordSpan| line.subrange(x.index as int, x.index + x.len))
            =~= prefix.filter(f)
                .map_values(|x: WordSpan| line.subrange(x.index as int, x.index + x.len))
                .push(line.subrange(w.index as int, w.index + w.len)));
    }
}

} // verus!
