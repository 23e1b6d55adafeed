//! The pattern engine's interface and a small matcher behind it: anchored
//! or floating literal patterns with `%`-escapes, and a multi-line form
//! that, after its literal head, runs until a terminator sequence, carrying
//! a resumable state across lines.

use vstd::prelude::*;

verus! {

/// A resumable match: the pattern's head matched and its tail is still
/// waiting for the terminator on a following line.
#[derive(Debug, Clone, Copy, PartialEq, Eq, Structural)]
pub struct PatternState {}

/// What matching a pattern against a line yielded.
#[derive(Debug, Clone, Copy, PartialEq, Eq, Structural)]
pub enum MatchResult {
    Matched(usize),
    Failed,
    Pending(PatternState),
}

/// A pattern failed to parse.
#[derive(Debug, Clone, Copy, PartialEq, Eq, Structural)]
pub struct PatternError;

/// A compiled pattern: an optional start anchor, a literal head, and an
/// optional run-until terminator for multi-line constructs.
pub struct Pattern {
    anchor: bool,
    prefix: Vec<u8>,
    until: Option<Vec<u8>>,
}

impl Pattern {
    pub closed spec fn prefix_bytes(&self) -> Seq<u8> {
        self.prefix@
    }

    pub closed spec fn is_anchored(&self) -> bool {
        self.anchor
    }

    pub closed spec fn until_bytes(&self) -> Option<Seq<u8>> {
        match self.until {
            Some(ref term) => Some(term@),
            None => None,
        }
    }

    /// Compile a pattern: `^` anchors at a line start, `%` escapes the next
    /// byte, and a trailing `{!(TERM).$}` runs until `TERM`, resuming on
    /// following lines while unfinished.
    pub fn new(text: &str) -> (r: Result<Pattern, PatternError>) {
        let bytes = text.as_bytes();
        let n = bytes.len();
        let mut i: usize = 0;
        let mut anchor = false;
        if n > 0 && bytes[0] == 0x5eu8 {
            anchor = true;
            i = 1;
        }
        let mut prefix: Vec<u8> = Vec::new();
        let mut until: Option<Vec<u8>> = None;
        while i < n
            invariant
                i <= n,
                n == bytes@.len(),
                until is None,
            decreases n - i,
        {
            let b = bytes[i];
            if b == 0x25u8 {
                if i + 1 >= n {
                    return Err(PatternError);
                }
                prefix.push(bytes[i + 1]);
                i = i + 2;
            } else if b == 0x7bu8 {
                // the run-until tail: `{!(TERM).$}` closing the pattern
                if n - i < 7 {
                    return Err(PatternError);
                }
                if bytes[i + 1] != 0x21u8 || bytes[i + 2] != 0x28u8 {
                    return Err(PatternError);
                }
                let mut term: Vec<u8> = Vec::new();
                let mut j = i + 3;
                while j < n && bytes[j] != 0x29u8
                    invariant
                        j <= n,
                        n == bytes@.len(),
                    decreases n - j,
                {
                    term.push(bytes[j]);
                    j = j + 1;
                }
                if n - j != 4 {
                    return Err(PatternError);
                }
                if bytes[j] != 0x29u8 || bytes[j + 1] != 0x2eu8 || bytes[j + 2] != 0x24u8
                    || bytes[j + 3] != 0x7du8 {
                    return Err(PatternError);
                }
                if term.len() == 0 {
                    return Err(PatternError);
                }
                until = Some(term);
                return Ok(Pattern { anchor, prefix, until });
            } else {
                prefix.push(b);
                i = i + 1;
            }
        }
        Ok(Pattern { anchor, prefix, until })
    }

    /// Whether the pattern matches nothing at all.
    pub fn is_empty(&self) -> (r: bool)
        ensures
            r == (self.prefix_bytes().len() == 0 && self.until_bytes() is None),
    {
        self.prefix.len() == 0 && self.until.is_none()
    }

    /// Whether a search with this pattern only considers line starts.
    pub fn search_anchor(&self) -> (r: bool)
        ensures
            r == self.is_anchored(),
    {
        self.anchor
    }

    /// Match the pattern at the start of `text`: the matched length, a
    /// failure, or a pending multi-line match whose terminator has not
    /// appeared yet.
    pub fn matches(&self, text: &[u8]) -> (r: MatchResult)
        ensures
            self.until_bytes() is None ==> (r matches MatchResult::Matched(len)
                <==> (self.prefix_bytes().len() <= text@.len() && text@.subrange(0,
                self.prefix_bytes().len() as int) == self.prefix_bytes())) && !(r
                is Pending),
            self.until_bytes() is None ==> (r matches MatchResult::Matched(len)
                ==> len == self.prefix_bytes().len()),
            r matches MatchResult::Matched(len) ==> len <= text@.len()
                && self.prefix_bytes().len() <= len
                && text@.subrange(0, self.prefix_bytes().len() as int)
                    == self.prefix_bytes(),
    {
        let plen = self.prefix.len();
        if plen > text.len() {
            proof {
                assert(self.prefix_bytes().len() > text@.len());
            }
            return MatchResult::Failed;
        }
        let mut k: usize = 0;
        while k < plen
            invariant
                plen == self.prefix_bytes().len() <= text@.len(),
                k <= plen,
                forall|t: int| 0 <= t < k ==> text@[t] == self.prefix_bytes()[t],
            decreases plen - k,
        {
            if text[k] != self.prefix[k] {
                proof {
                    assert(text@.subrange(0, plen as int)[k as int] != self.prefix_bytes()[
                        k as int]);
                }
                return MatchResult::Failed;
            }
            k = k + 1;
        }
        proof {
            assert(text@.subrange(0, plen as int) =~= self.prefix_bytes());
        }
        match &self.until {
            None => MatchResult::Matched(plen),
            Some(term) => {
                match find_subsequence(text, plen, term.as_slice()) {
                    Some(i) => {
                        proof {
                            assert(i + term@.len() <= text@.len());
                        }
                        MatchResult::Matched(i + term.len())
                    }
                    None => MatchResult::Pending(PatternState {}),
                }
            }
        }
    }

    /// Resume a pending multi-line match on the next line: finished at the
    /// terminator's end, or still pending.
    pub fn matches_with_state(&self, text: &[u8], state: &PatternState) -> (r: MatchResult)
        ensures
            r matches MatchResult::Matched(len) ==> len <= text@.len(),
    {
        let _ = state;
        let n = text.len();
        match &self.until {
            None => MatchResult::Failed,
            Some(term) => {
                match find_subsequence(text, 0, term.as_slice()) {
                    Some(i) => {
                        proof {
                            assert(i + term@.len() <= n);
                        }
                        MatchResult::Matched(i + term.len())
                    }
                    None => MatchResult::Pending(PatternState {}),
                }
            }
        }
    }

    /// The start and end of every non-overlapping occurrence of the
    /// pattern's literal head in `text`; an anchored pattern is only looked
    /// for at the start.
    pub fn match_indices(&self, text: &[u8]) -> (r: Vec<(usize, usize)>)
        ensures
            forall|t: int| 0 <= t < r@.len() ==> ({
                let m = #[trigger] r@[t];
                &&& m.0 <= m.1 <= text@.len()
                &&& m.0 + self.prefix_bytes().len() <= m.1
                &&& text@.subrange(m.0 as int, m.0 + self.prefix_bytes().len())
                    == self.prefix_bytes()
                &&& (self.until_bytes() is None ==> m.1
                    == m.0 + self.prefix_bytes().len())
                &&& (self.is_anchored() ==> m.0 == 0)
            }),
            self.is_anchored() ==> r@.len() <= 1,
            self.prefix_bytes().len() == 0 ==> r@.len() == 0,
    {
        let mut r: Vec<(usize, usize)> = Vec::new();
        let plen = self.prefix.len();
        if plen == 0 {
            return r;
        }
        if self.anchor {
            match self.matches(text) {
                MatchResult::Matched(len) => {
                    r.push((0, len));
                }
                _ => {}
            }
            return r;
        }
        let n = text.len();
        let mut start: usize = 0;
        while start < n
            invariant
                start <= n,
                n == text@.len(),
                plen == self.prefix_bytes().len(),
                plen >= 1,
                !self.is_anchored(),
                forall|t: int| 0 <= t < r@.len() ==> ({
                    let m = #[trigger] r@[t];
                    &&& m.0 <= m.1 <= text@.len()
                    &&& m.1 == m.0 + plen
                    &&& text@.subrange(m.0 as int, m.0 + plen) == self.prefix_bytes()
                }),
            decreases n - start,
        {
            match find_subsequence(text, start, self.prefix.as_slice()) {
                Some(i) => {
                    r.push((i, i + plen));
                    start = i + plen;
                }
                None => {
                    return r;
                }
            }
        }
        r
    }
}

/// The first occurrence of `needle` in `haystack` at or after `from`.
pub fn find_subsequence(haystack: &[u8], from: usize, needle: &[u8]) -> (r: Option<usize>)
    requires
        from <= haystack@.len(),
    ensures
        r is Some ==> from <= r->Some_0 && r->Some_0 + needle@.len() <= haystack@.len()
            && haystack@.subrange(r->Some_0 as int, r->Some_0 + needle@.len())
                == needle@,
{
    let n = haystack.len();
    let m = needle.len();
    if m > n {
        return None;
    }
    if m == 0 {
        proof {
            assert(haystack@.subrange(from as int, from as int) =~= needle@);
        }
        return Some(from);
    }
    let mut i = from;
    while i <= n - m
        invariant
            from <= i,
            i <= n,
            n == haystack@.len(),
            m == needle@.len(),
            1 <= m <= n,
        decreases n - i,
    {
        let mut k: usize = 0;
        let mut all = true;
        while k < m
            invariant
                k <= m,
                i + m <= n,
                n == haystack@.len(),
                m == needle@.len(),
                all ==> forall|t: int| 0 <= t < k ==> haystack@[i + t] == needle@[t],
            decreases m - k,
        {
            if haystack[i + k] != needle[k] {
                all = false;
                k = m;
            } else {
                k = k + 1;
            }
        }
        if all {
            proof {
                assert(haystack@.subrange(i as int, i + m as int) =~= needle@);
            }
            return Some(i);
        }
        i = i + 1;
    }
    None
}

} // verus!
