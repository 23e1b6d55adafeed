//! Byte-level text helpers shared by the buffer model: searching a byte,
//! splitting utf-8 text at newlines, and flattening a sequence of lines back
//! into one byte sequence with `\n` separators.

use vstd::prelude::*;

verus! {

/// The newline separator between buffer lines.
pub open spec fn nl() -> u8 {
    10u8
}

/// Index of the first occurrence of `b` in `s`, or -1 when absent.
pub open spec fn find_byte(s: Seq<u8>, b: u8) -> int
    decreases s.len(),
{
    if s.len() == 0 {
        -1
    } else if s[0] == b {
        0
    } else {
        let r = find_byte(s.drop_first(), b);
        if r < 0 {
            -1
        } else {
            r + 1
        }
    }
}

/// `find_byte` returns the first occurrence: a valid index holding `b` with
/// nothing equal to `b` before it, or -1 when `b` does not occur at all.
pub proof fn lemma_find_byte(s: Seq<u8>, b: u8)
    ensures
        find_byte(s, b) >= 0 ==> {
            let i = find_byte(s, b);
            &&& i < s.len()
            &&& s[i] == b
            &&& forall|j: int| 0 <= j < i ==> s[j] != b
        },
        find_byte(s, b) < 0 ==> forall|j: int| 0 <= j < s.len() ==> s[j] != b,
    decreases s.len(),
{
    if s.len() != 0 && s[0] != b {
        lemma_find_byte(s.drop_first(), b);
        let r = find_byte(s.drop_first(), b);
        if r >= 0 {
            assert forall|j: int| 0 <= j < r + 1 implies s[j] != b by {
                if j > 0 {
                    assert(s.drop_first()[j - 1] != b);
                }
            }
        } else {
            assert forall|j: int| 0 <= j < s.len() implies s[j] != b by {
                if j > 0 {
                    assert(s.drop_first()[j - 1] != b);
                }
            }
        }
    }
}

/// Split `text` at each newline byte. The separators are dropped; a trailing
/// newline yields a final empty piece, and the result never has fewer than
/// one piece.
pub open spec fn split_lines(text: Seq<u8>) -> Seq<Seq<u8>>
    decreases text.len(),
    via split_lines_decreases
{
    let i = find_byte(text, nl());
    if i < 0 {
        seq![text]
    } else {
        seq![text.take(i)] + split_lines(text.skip(i + 1))
    }
}

#[via_fn]
proof fn split_lines_decreases(text: Seq<u8>) {
    lemma_find_byte(text, nl());
}

/// Join lines with a newline between each adjacent pair.
pub open spec fn flatten_lines(lines: Seq<Seq<u8>>) -> Seq<u8>
    decreases lines.len(),
{
    if lines.len() == 0 {
        Seq::empty()
    } else if lines.len() == 1 {
        lines[0]
    } else {
        lines[0] + seq![nl()] + flatten_lines(lines.drop_first())
    }
}

/// Basic shape of `split_lines`: at least one piece, no piece holds a
/// newline, and no piece is longer than the text.
pub proof fn lemma_split_lines_shape(text: Seq<u8>)
    ensures
        split_lines(text).len() >= 1,
        split_lines(text).len() <= text.len() + 1,
        forall|k: int| #![auto] 0 <= k < split_lines(text).len()
            ==> find_byte(split_lines(text)[k], nl()) < 0
                && split_lines(text)[k].len() <= text.len(),
    decreases text.len(),
{
    lemma_find_byte(text, nl());
    let i = find_byte(text, nl());
    if i >= 0 {
        lemma_split_lines_shape(text.skip(i + 1));
        lemma_find_byte(text.take(i), nl());
        let head = text.take(i);
        lemma_find_byte(head, nl());
        let hf = find_byte(head, nl());
        if hf >= 0 {
            assert(head[hf] == nl());
            assert(text[hf] == nl());
            assert(false);
        }
        assert forall|k: int| #![auto] 0 <= k < split_lines(text).len()
            implies find_byte(split_lines(text)[k], nl()) < 0
                && split_lines(text)[k].len() <= text.len() by {
            if k > 0 {
                assert(split_lines(text)[k] == split_lines(text.skip(i + 1))[k - 1]);
            }
        }
    }
}

/// Flattening the pieces of a split restores the text: splitting loses no
/// bytes and invents none.
pub proof fn lemma_flatten_split(text: Seq<u8>)
    ensures
        flatten_lines(split_lines(text)) == text,
    decreases text.len(),
{
    lemma_find_byte(text, nl());
    let i = find_byte(text, nl());
    if i < 0 {
        assert(flatten_lines(seq![text]) == text);
    } else {
        lemma_flatten_split(text.skip(i + 1));
        let rest = split_lines(text.skip(i + 1));
        lemma_split_lines_shape(text.skip(i + 1));
        let whole = seq![text.take(i)] + rest;
        assert(whole.drop_first() == rest);
        assert(whole[0] == text.take(i));
        assert(flatten_lines(whole) == text.take(i) + seq![nl()] + flatten_lines(rest));
        assert(text.take(i) + seq![nl()] + text.skip(i + 1) =~= text);
    }
}

/// Flattening distributes over splitting off the first line.
pub proof fn lemma_flatten_cons(first: Seq<u8>, rest: Seq<Seq<u8>>)
    requires
        rest.len() >= 1,
    ensures
        flatten_lines(seq![first] + rest) == first + seq![nl()] + flatten_lines(rest),
{
    let whole = seq![first] + rest;
    assert(whole.drop_first() == rest);
    assert(whole[0] == first);
}

/// Flattening distributes over concatenation of non-empty line blocks.
pub proof fn lemma_flatten_append(a: Seq<Seq<u8>>, b: Seq<Seq<u8>>)
    requires
        a.len() >= 1,
        b.len() >= 1,
    ensures
        flatten_lines(a + b) == flatten_lines(a) + seq![nl()] + flatten_lines(b),
    decreases a.len(),
{
    if a.len() == 1 {
        assert((a + b).drop_first() =~= b);
        assert((a + b)[0] == a[0]);
        assert(flatten_lines(a + b) == a[0] + seq![nl()] + flatten_lines(b));
    } else {
        assert((a + b).drop_first() =~= a.drop_first() + b);
        lemma_flatten_append(a.drop_first(), b);
        assert(flatten_lines(a + b) == (a + b)[0] + seq![nl()] + flatten_lines(a.drop_first() + b));
        assert((a + b)[0] == a[0]);
        assert(a[0] + seq![nl()] + (flatten_lines(a.drop_first()) + seq![nl()] + flatten_lines(b))
            =~= (a[0] + seq![nl()] + flatten_lines(a.drop_first())) + seq![nl()]
                + flatten_lines(b));
    }
}

/// The flattened text is at least as long as any one line, and holds a
/// separator for each adjacent pair of lines.
pub proof fn lemma_flatten_len(lines: Seq<Seq<u8>>)
    requires
        lines.len() >= 1,
    ensures
        flatten_lines(lines).len() >= lines.len() - 1,
        forall|i: int| 0 <= i < lines.len()
            ==> flatten_lines(lines).len() >= #[trigger] lines[i].len(),
        lines.len() >= 2 ==> flatten_lines(lines).len()
            >= lines[0].len() + lines.last().len() + 1,
    decreases lines.len(),
{
    if lines.len() > 1 {
        lemma_flatten_len(lines.drop_first());
        assert(flatten_lines(lines) == lines[0] + seq![nl()] + flatten_lines(lines.drop_first()));
        assert forall|i: int| 0 <= i < lines.len()
            implies flatten_lines(lines).len() >= #[trigger] lines[i].len() by {
            if i > 0 {
                assert(lines.drop_first()[i - 1] == lines[i]);
            }
        }
        assert(lines.drop_first().last() == lines.last());
    }
}

/// Prefixing the first line with extra bytes prefixes the flattened text.
pub proof fn lemma_flatten_prefix_first(pre: Seq<u8>, s: Seq<Seq<u8>>)
    requires
        s.len() >= 1,
    ensures
        flatten_lines(seq![pre + s[0]] + s.drop_first()) == pre + flatten_lines(s),
{
    let t = seq![pre + s[0]] + s.drop_first();
    if s.len() == 1 {
        assert(t.len() == 1);
        assert(flatten_lines(t) == t[0]);
        assert(t[0] == pre + s[0]);
    } else {
        assert(t.drop_first() =~= s.drop_first());
        assert(flatten_lines(t) == t[0] + seq![nl()] + flatten_lines(s.drop_first()));
        assert(t[0] == pre + s[0]);
        assert((pre + s[0]) + seq![nl()] + flatten_lines(s.drop_first())
            =~= pre + (s[0] + seq![nl()] + flatten_lines(s.drop_first())));
    }
}

/// Suffixing the last line with extra bytes suffixes the flattened text.
pub proof fn lemma_flatten_suffix_last(s: Seq<Seq<u8>>, suf: Seq<u8>)
    requires
        s.len() >= 1,
    ensures
        flatten_lines(s.drop_last() + seq![s.last() + suf]) == flatten_lines(s) + suf,
    decreases s.len(),
{
    let t = s.drop_last() + seq![s.last() + suf];
    if s.len() == 1 {
        assert(t =~= seq![s.last() + suf]);
        assert(flatten_lines(t) == s[0] + suf);
        assert(flatten_lines(s) == s[0]);
    } else {
        lemma_flatten_suffix_last(s.drop_first(), suf);
        assert(t.drop_first() =~= s.drop_first().drop_last() + seq![s.drop_first().last() + suf]);
        assert(t[0] == s[0]);
        assert(t.len() >= 2);
        assert(flatten_lines(t) == s[0] + seq![nl()] + (flatten_lines(s.drop_first()) + suf));
        assert(flatten_lines(s) == s[0] + seq![nl()] + flatten_lines(s.drop_first()));
        assert(s[0] + seq![nl()] + (flatten_lines(s.drop_first()) + suf)
            =~= (s[0] + seq![nl()] + flatten_lines(s.drop_first())) + suf);
    }
}

/// Find the first occurrence of `b` in `s` at or after `start`.
pub fn scan_byte(s: &[u8], b: u8, start: usize) -> (r: Option<usize>)
    requires
        start <= s@.len(),
    ensures
        match r {
            Some(i) => start <= i < s@.len() && s@[i as int] == b
                && forall|j: int| start <= j < i ==> s@[j] != b,
            None => forall|j: int| start <= j < s@.len() ==> s@[j] != b,
        },
{
    let mut i: usize = start;
    while i < s.len()
        invariant
            start <= i <= s@.len(),
            forall|j: int| start <= j < i ==> s@[j] != b,
        decreases s@.len() - i,
    {
        if s[i] == b {
            return Some(i);
        }
        i = i + 1;
    }
    None
}

/// `find_byte` agrees with a left-to-right scan.
pub proof fn lemma_find_byte_unique(s: Seq<u8>, b: u8, i: int)
    requires
        0 <= i < s.len(),
        s[i] == b,
        forall|j: int| 0 <= j < i ==> s[j] != b,
    ensures
        find_byte(s, b) == i,
{
    lemma_find_byte(s, b);
    let f = find_byte(s, b);
    if f < 0 {
        assert(s[i] != b);
    } else if f < i {
        assert(s[f] != b);
    } else if f > i {
        assert(s[i] != b);
    }
}

/// Copy the bytes of `s` between `from` and `to` into a fresh vector.
pub fn copy_range(s: &[u8], from: usize, to: usize) -> (r: Vec<u8>)
    requires
        from <= to <= s@.len(),
    ensures
        r@ == s@.subrange(from as int, to as int),
{
    let mut r: Vec<u8> = Vec::new();
    let mut i: usize = from;
    while i < to
        invariant
            from <= i <= to <= s@.len(),
            r@ == s@.subrange(from as int, i as int),
        decreases to - i,
    {
        r.push(s[i]);
        assert(r@ =~= s@.subrange(from as int, i + 1 as int));
        i = i + 1;
    }
    r
}

/// Append the bytes of `src` to `dst`.
pub fn append_bytes(dst: &mut Vec<u8>, src: &[u8])
    ensures
        final(dst)@ == old(dst)@ + src@,
{
    let mut i: usize = 0;
    while i < src.len()
        invariant
            i <= src@.len(),
            dst@ == old(dst)@ + src@.take(i as int),
        decreases src@.len() - i,
    {
        dst.push(src[i]);
        proof {
            assert(old(dst)@ + src@.take(i as int) + seq![src@[i as int]]
                =~= old(dst)@ + src@.take(i + 1 as int));
        }
        i = i + 1;
    }
    proof {
        assert(src@.take(src@.len() as int) =~= src@);
    }
}

/// Split `text` into its lines, dropping the newline separators.
pub fn split_text(text: &[u8]) -> (r: Vec<Vec<u8>>)
    ensures
        r@.map_values(|piece: Vec<u8>| piece@) == split_lines(text@),
        r@.len() >= 1,
{
    let mut pieces: Vec<Vec<u8>> = Vec::new();
    let mut start: usize = 0;
    let n = text.len();
    proof {
        assert(text@.skip(0) =~= text@);
        assert(pieces@.map_values(|piece: Vec<u8>| piece@) + split_lines(text@.skip(0))
            =~= split_lines(text@));
    }
    loop
        invariant
            n == text@.len(),
            start <= text@.len(),
            split_lines(text@) == pieces@.map_values(|piece: Vec<u8>| piece@)
                + split_lines(text@.skip(start as int)),
        decreases text@.len() - start,
    {
        let ghost rest = text@.skip(start as int);
        match scan_byte(text, 10u8, start) {
            Some(i) => {
                let piece = copy_range(text, start, i);
                proof {
                    let k = i - start;
                    assert(rest[k] == nl());
                    assert forall|j: int| 0 <= j < k implies rest[j] != nl() by {
                        assert(rest[j] == text@[start + j]);
                    }
                    lemma_find_byte_unique(rest, nl(), k);
                    assert(rest.take(k) =~= piece@);
                    assert(rest.skip(k + 1) =~= text@.skip(i + 1 as int));
                }
                pieces.push(piece);
                proof {
                    assert(split_lines(rest) == seq![rest.take(i - start)]
                        + split_lines(rest.skip(i - start + 1)));
                    assert(pieces@.map_values(|piece: Vec<u8>| piece@)
                        =~= pieces@.map_values(|piece: Vec<u8>| piece@).drop_last().push(piece@));
                    assert(pieces@.map_values(|piece: Vec<u8>| piece@)
                            + split_lines(text@.skip(i + 1 as int))
                        =~= pieces@.map_values(|piece: Vec<u8>| piece@).drop_last()
                            + split_lines(rest));
                }
                start = i + 1;
            }
            None => {
                let piece = copy_range(text, start, text.len());
                proof {
                    lemma_find_byte(rest, nl());
                    let f = find_byte(rest, nl());
                    if f >= 0 {
                        assert(rest[f] == text@[start + f]);
                        assert(false);
                    }
                    assert(rest =~= piece@);
                }
                pieces.push(piece);
                proof {
                    assert(split_lines(rest) =~= seq![piece@]);
                    assert(pieces@.map_values(|piece: Vec<u8>| piece@)
                        =~= pieces@.map_values(|piece: Vec<u8>| piece@).drop_last() + seq![piece@]);
                }
                return pieces;
            }
        }
    }
}

} // verus!
