//! Display distances: how many terminal columns a prefix of a line occupies,
//! expanding tabs to the configured tab size and counting each utf-8
//! character once.

use vstd::prelude::*;

verus! {

/// A utf-8 continuation byte begins a new column in no character.
pub open spec fn is_continuation_byte(b: u8) -> bool {
    0x80 <= b < 0xc0
}

/// Columns contributed by one byte: a tab spans `tab_size` columns, a
/// continuation byte none, any other byte starts a character of one column.
pub open spec fn byte_width(b: u8, tab_size: int) -> int {
    if b == 9 {
        tab_size
    } else if is_continuation_byte(b) {
        0
    } else {
        1
    }
}

/// Total display width of `text` at the given tab size.
pub open spec fn spec_display_len(text: Seq<u8>, tab_size: int) -> int
    decreases text.len(),
{
    if text.len() == 0 {
        0
    } else {
        byte_width(text[0], tab_size) + spec_display_len(text.drop_first(), tab_size)
    }
}

/// The width of a text is bounded by its length times the tab size.
pub proof fn lemma_display_len_bound(text: Seq<u8>, tab_size: int)
    requires
        tab_size >= 1,
    ensures
        0 <= spec_display_len(text, tab_size) <= text.len() * tab_size,
    decreases text.len(),
{
    if text.len() > 0 {
        lemma_display_len_bound(text.drop_first(), tab_size);
        assert((text.len() - 1) * tab_size == text.len() * tab_size - tab_size)
            by (nonlinear_arith);
    }
}

/// Widths add over concatenation; in particular over extending by one byte.
pub proof fn lemma_display_len_push(text: Seq<u8>, i: int, tab_size: int)
    requires
        0 <= i < text.len(),
    ensures
        spec_display_len(text.take(i + 1), tab_size)
            == spec_display_len(text.take(i), tab_size) + byte_width(text[i], tab_size),
    decreases i,
{
    if i == 0 {
        assert(text.take(1).drop_first() =~= text.take(0));
        assert(text.take(1)[0] == text[0]);
    } else {
        lemma_display_len_push(text.drop_first(), i - 1, tab_size);
        assert(text.take(i + 1).drop_first() =~= text.drop_first().take(i));
        assert(text.take(i).drop_first() =~= text.drop_first().take(i - 1));
        assert(text.take(i + 1)[0] == text[0]);
        assert(text.take(i)[0] == text[0]);
        assert(text.drop_first()[i - 1] == text[i]);
    }
}

/// Widths add over splitting a text at any byte.
pub proof fn lemma_display_len_split(text: Seq<u8>, i: int, tab_size: int)
    requires
        0 <= i <= text.len(),
    ensures
        spec_display_len(text, tab_size) == spec_display_len(text.take(i), tab_size)
            + spec_display_len(text.skip(i), tab_size),
    decreases i,
{
    if i == 0 {
        assert(text.take(0) =~= Seq::<u8>::empty());
        assert(text.skip(0) =~= text);
    } else {
        lemma_display_len_split(text.drop_first(), i - 1, tab_size);
        assert(text.take(i).drop_first() =~= text.drop_first().take(i - 1));
        assert(text.skip(i) =~= text.drop_first().skip(i - 1));
        assert(text.take(i)[0] == text[0]);
    }
}

/// The display distance reached after one character: the columns up to and
/// including the character that starts at `char_index`.
pub struct CharDisplayDistance {
    pub distance: u64,
    pub char_index: usize,
}

/// Walks a line's bytes, yielding the running display distance at each
/// character start.
pub struct CharDisplayDistances<'a> {
    text: &'a [u8],
    index: usize,
    len: u64,
    tab_size: u8,
}

impl<'a> CharDisplayDistances<'a> {
    pub fn new(text: &'a [u8], tab_size: u8) -> (r: Self)
        requires
            tab_size >= 1,
            text@.len() <= u32::MAX,
        ensures
            r.wf(),
            r.text_view() == text@,
            r.index_val() == 0,
            r.tab_size_val() == tab_size as int,
    {
        Self { text, index: 0, len: 0, tab_size }
    }

    pub closed spec fn wf(&self) -> bool {
        &&& self.tab_size >= 1
        &&& self.text@.len() <= u32::MAX
        &&& self.index <= self.text@.len()
        &&& self.len == spec_display_len(self.text@.take(self.index as int),
            self.tab_size as int)
    }

    pub closed spec fn text_view(&self) -> Seq<u8> {
        self.text@
    }

    pub closed spec fn index_val(&self) -> int {
        self.index as int
    }

    pub closed spec fn tab_size_val(&self) -> int {
        self.tab_size as int
    }

    /// The distance after the next character, advancing past it, or `None`
    /// at the end of the text.
    pub fn next(&mut self) -> (r: Option<CharDisplayDistance>)
        requires
            old(self).wf(),
        ensures
            final(self).wf(),
            final(self).text_view() == old(self).text_view(),
            final(self).tab_size_val() == old(self).tab_size_val(),
            r is Some <==> old(self).index_val() < old(self).text_view().len(),
            r is None ==> *final(self) == *old(self),
            r is Some ==> final(self).index_val() > old(self).index_val(),
            r is Some ==> r->Some_0.char_index == old(self).index_val()
                && r->Some_0.distance == spec_display_len(
                    old(self).text_view().take(final(self).index_val()),
                    old(self).tab_size_val()),
    {
        proof {
            lemma_display_len_bound(self.text@.take(self.index as int), self.tab_size as int);
        }
        if self.index >= self.text.len() {
            return None;
        }
        let start = self.index;
        let b = self.text[self.index];
        let width: u64 = if b == 9u8 {
            self.tab_size as u64
        } else if 0x80u8 <= b && b < 0xc0u8 {
            0
        } else {
            1
        };
        proof {
            lemma_display_len_push(self.text@, self.index as int, self.tab_size as int);
            lemma_display_len_bound(self.text@.take(self.index + 1 as int),
                self.tab_size as int);
            assert(self.text@.take(self.index + 1 as int).len() * (self.tab_size as int)
                <= self.text@.len() * 255) by (nonlinear_arith)
                requires
                    self.tab_size <= 255,
                    self.text@.take(self.index + 1 as int).len() <= self.text@.len(),
                    self.tab_size >= 1,
            ;
        }
        self.len = self.len + width;
        self.index = self.index + 1;
        // a character's continuation bytes belong to it: swallow them
        while self.index < self.text.len() && 0x80u8 <= self.text[self.index]
            && self.text[self.index] < 0xc0u8
            invariant
                self.wf(),
                self.text@ == old(self).text_view(),
                self.tab_size == old(self).tab_size_val(),
                start < self.index <= self.text@.len(),
            decreases self.text@.len() - self.index,
        {
            proof {
                lemma_display_len_push(self.text@, self.index as int, self.tab_size as int);
            }
            self.index = self.index + 1;
        }
        Some(CharDisplayDistance { distance: self.len, char_index: start })
    }
}

/// The display width of a whole line: its last character's distance, or 0
/// for an empty line.
pub fn display_len(text: &[u8], tab_size: u8) -> (r: u64)
    requires
        tab_size >= 1,
        text@.len() <= u32::MAX,
    ensures
        r == spec_display_len(text@, tab_size as int),
{
    let mut i: usize = 0;
    let mut len: u64 = 0;
    proof {
        lemma_display_len_bound(text@, tab_size as int);
    }
    while i < text.len()
        invariant
            tab_size >= 1,
            text@.len() <= u32::MAX,
            i <= text@.len(),
            len == spec_display_len(text@.take(i as int), tab_size as int),
        decreases text@.len() - i,
    {
        let b = text[i];
        let width: u64 = if b == 9u8 {
            tab_size as u64
        } else if 0x80u8 <= b && b < 0xc0u8 {
            0
        } else {
            1
        };
        proof {
            lemma_display_len_push(text@, i as int, tab_size as int);
            lemma_display_len_bound(text@.take(i as int), tab_size as int);
            lemma_display_len_bound(text@.take(i + 1 as int), tab_size as int);
            assert(text@.take(i + 1 as int).len() * (tab_size as int) <= text@.len() * 255)
                by (nonlinear_arith)
                requires
                    tab_size <= 255,
                    text@.take(i + 1 as int).len() <= text@.len(),
                    tab_size >= 1,
            ;
        }
        len = len + width;
        i = i + 1;
    }
    proof {
        assert(text@.take(text@.len() as int) =~= text@);
    }
    len
}

} // verus!
