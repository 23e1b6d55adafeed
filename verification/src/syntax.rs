//! Syntax highlighting over buffer lines: a syntax is a list of token rules
//! (a kind and a pattern); each line parses into tokens, and a multi-line
//! rule left unfinished at a line's end resumes on the next line.

use vstd::prelude::*;

use crate::content::BufferContent;
use crate::pattern::{MatchResult, Pattern, PatternState};
use crate::position::BufferPosition;

verus! {

/// What a token is highlighted as.
#[derive(Debug, Clone, Copy, PartialEq, Eq, Structural)]
pub enum TokenKind {
    Whitespace,
    Text,
    Comment,
    Keyword,
    Type,
    Symbol,
    String,
    Literal,
}

/// One highlighted token: its kind and the byte range it covers.
#[derive(Debug, Clone, Copy, PartialEq, Eq, Structural)]
pub struct Token {
    pub kind: TokenKind,
    pub from: usize,
    pub to: usize,
}

/// How a line ended: cleanly, or inside rule `0` of the pair with a
/// resumable pattern state.
#[derive(Debug, Clone, Copy, PartialEq, Eq, Structural)]
pub enum LineKind {
    Finished,
    Unfinished(usize, PatternState),
}

/// One language's rules and the file extensions they apply to.
pub struct Syntax {
    extensions: Vec<Vec<u8>>,
    rules: Vec<(TokenKind, Pattern)>,
}

impl Syntax {
    pub closed spec fn rule_count(&self) -> int {
        self.rules@.len() as int
    }

    pub fn new() -> (r: Self)
        ensures
            r.rule_count() == 0,
    {
        Self { extensions: Vec::new(), rules: Vec::new() }
    }

    pub fn add_extension(&mut self, extension: Vec<u8>)
        ensures
            final(self).rule_count() == old(self).rule_count(),
    {
        self.extensions.push(extension);
    }

    pub fn add_rule(&mut self, kind: TokenKind, pattern: Pattern)
        ensures
            final(self).rule_count() == old(self).rule_count() + 1,
    {
        self.rules.push((kind, pattern));
    }

    /// Whether one of the syntax's extensions equals `extension`.
    pub fn has_extension(&self, extension: &[u8]) -> (r: bool) {
        let mut i: usize = 0;
        let n = self.extensions.len();
        while i < n
            invariant
                i <= n,
                n == self.extensions@.len(),
            decreases n - i,
        {
            if crate::worddb::bytes_eq(self.extensions[i].as_slice(), extension) {
                return true;
            }
            i = i + 1;
        }
        false
    }

    /// Parse one line into tokens, replacing `tokens`, resuming an
    /// unfinished multi-line rule from the previous line; without rules, the
    /// whole line is one text token. The tokens are contiguous, in order,
    /// and cover exactly the whole line (a non-empty line always parses to
    /// tokens).
    pub fn parse_line(&self, line: &[u8], previous_line_kind: LineKind,
        tokens: &mut Vec<Token>) -> (r: LineKind)
        requires
            line@.len() <= u32::MAX,
        ensures
            forall|t: int| 0 <= t < final(tokens)@.len()
                ==> (#[trigger] final(tokens)@[t]).from <= final(tokens)@[t].to
                    && final(tokens)@[t].to <= line@.len(),
            forall|t: int| 0 <= t && t + 1 < final(tokens)@.len()
                ==> (#[trigger] final(tokens)@[t]).to == final(tokens)@[t + 1].from,
            final(tokens)@.len() > 0 ==> final(tokens)@[0].from == 0
                && final(tokens)@.last().to == line@.len(),
            line@.len() > 0 ==> final(tokens)@.len() > 0,
            r matches LineKind::Unfinished(idx, _) ==> (idx as int) < self.rule_count(),
            self.rule_count() == 0 ==> r is Finished && final(tokens)@ == seq![Token {
                kind: TokenKind::Text,
                from: 0,
                to: line@.len() as usize,
            }],
    {
        tokens.clear();
        let n = line.len();

        if self.rules.len() == 0 {
            tokens.push(Token { kind: TokenKind::Text, from: 0, to: n });
            proof {
                assert(tokens@ =~= seq![Token { kind: TokenKind::Text, from: 0, to: n }]);
            }
            return LineKind::Finished;
        }

        let mut line_index: usize = 0;
        match previous_line_kind {
            LineKind::Finished => {}
            LineKind::Unfinished(pattern_index, state) => {
                if pattern_index < self.rules.len() {
                    let (kind, pattern) = &self.rules[pattern_index];
                    match pattern.matches_with_state(line, &state) {
                        MatchResult::Matched(len) => {
                            tokens.push(Token { kind: *kind, from: 0, to: len });
                            line_index = len;
                        }
                        MatchResult::Failed => {}
                        MatchResult::Pending(state) => {
                            tokens.push(Token { kind: *kind, from: 0, to: n });
                            return LineKind::Unfinished(pattern_index, state);
                        }
                    }
                }
            }
        }

        while line_index < n
            invariant
                line_index <= n,
                n == line@.len(),
                n <= u32::MAX,
                self.rules@.len() >= 1,
                forall|t: int| 0 <= t < tokens@.len() ==> (#[trigger] tokens@[t]).from
                    <= tokens@[t].to && tokens@[t].to <= line@.len(),
                forall|t: int| 0 <= t && t + 1 < tokens@.len()
                    ==> (#[trigger] tokens@[t]).to == tokens@[t + 1].from,
                tokens@.len() > 0 ==> tokens@[0].from == 0
                    && tokens@.last().to == line_index,
                tokens@.len() == 0 ==> line_index == 0,
            decreases n - line_index,
        {
            // leading whitespace joins the token that follows it
            let mut whitespace_len: usize = 0;
            while line_index + whitespace_len < n
                && is_ascii_whitespace(line[line_index + whitespace_len])
                invariant
                    line_index + whitespace_len <= n,
                    n == line@.len(),
                decreases n - line_index - whitespace_len,
            {
                whitespace_len = whitespace_len + 1;
            }
            let slice_start = line_index + whitespace_len;
            let slice = crate::text::copy_range(line, slice_start, n);

            let mut best_pattern_index: usize = 0;
            let mut max_len: usize = 0;
            let mut ri: usize = 0;
            let rn = self.rules.len();
            let mut pending: Option<(usize, PatternState)> = None;
            while ri < rn
                invariant
                    ri <= rn,
                    rn == self.rules@.len(),
                    max_len <= slice@.len(),
                    slice@.len() == n - slice_start,
                    slice_start <= n,
                    n == line@.len(),
                    best_pattern_index < rn || max_len == 0,
                    pending matches Some((idx, _)) ==> idx < rn,
                decreases rn - ri,
            {
                let (_, pattern) = &self.rules[ri];
                match pattern.matches(slice.as_slice()) {
                    MatchResult::Matched(len) => {
                        if len > max_len {
                            max_len = len;
                            best_pattern_index = ri;
                        }
                    }
                    MatchResult::Failed => {}
                    MatchResult::Pending(state) => {
                        pending = Some((ri, state));
                        ri = rn;
                    }
                }
                if ri < rn {
                    ri = ri + 1;
                }
            }
            if let Some((idx, state)) = pending {
                tokens.push(Token { kind: self.rules[idx].0, from: line_index, to: n });
                return LineKind::Unfinished(idx, state);
            }

            let mut kind = if max_len > 0 {
                self.rules[best_pattern_index].0
            } else {
                TokenKind::Text
            };
            if max_len == 0 {
                kind = TokenKind::Text;
                let mut alnum: usize = 0;
                while slice_start + alnum < n
                    && is_ascii_alphanumeric(line[slice_start + alnum])
                    invariant
                        slice_start + alnum <= n,
                        n == line@.len(),
                    decreases n - slice_start - alnum,
                {
                    alnum = alnum + 1;
                }
                max_len = if alnum > 0 {
                    alnum
                } else {
                    1
                };
            }
            let total64 = max_len as u64 + whitespace_len as u64;
            let from = line_index;
            let total: usize = if total64 > (n - line_index) as u64 {
                n - line_index
            } else {
                total64 as usize
            };
            line_index = line_index + total;
            tokens.push(Token { kind, from, to: line_index });
        }

        LineKind::Finished
    }
}

fn is_ascii_whitespace(b: u8) -> (r: bool)
    ensures
        r == (b == 0x20 || (0x09 <= b && b <= 0x0d)),
{
    b == 0x20u8 || (0x09u8 <= b && b <= 0x0du8)
}

fn is_ascii_alphanumeric(b: u8) -> (r: bool)
    ensures
        r == ((0x30 <= b && b <= 0x39) || (0x41 <= b && b <= 0x5a)
            || (0x61 <= b && b <= 0x7a)),
{
    (0x30u8 <= b && b <= 0x39u8) || (0x41u8 <= b && b <= 0x5au8)
        || (0x61u8 <= b && b <= 0x7au8)
}

/// Handle of a syntax within the collection.
#[derive(Debug, Clone, Copy, PartialEq, Eq, Structural)]
pub struct SyntaxHandle(pub usize);

/// All registered syntaxes.
pub struct SyntaxCollection {
    syntaxes: Vec<Syntax>,
}

impl SyntaxCollection {
    pub closed spec fn count(&self) -> int {
        self.syntaxes@.len() as int
    }

    pub fn new() -> (r: Self)
        ensures
            r.count() == 0,
    {
        Self { syntaxes: Vec::new() }
    }

    pub fn add(&mut self, syntax: Syntax)
        ensures
            final(self).count() == old(self).count() + 1,
    {
        self.syntaxes.push(syntax);
    }

    /// The first syntax registered for `extension`.
    pub fn find_by_extension(&self, extension: &[u8]) -> (r: Option<SyntaxHandle>)
        ensures
            r matches Some(h) ==> (h.0 as int) < self.count(),
    {
        let mut i: usize = 0;
        let n = self.syntaxes.len();
        while i < n
            invariant
                i <= n,
                n == self.syntaxes@.len(),
            decreases n - i,
        {
            if self.syntaxes[i].has_extension(extension) {
                return Some(SyntaxHandle(i));
            }
            i = i + 1;
        }
        None
    }

    pub fn get(&self, handle: SyntaxHandle) -> (r: &Syntax)
        requires
            (handle.0 as int) < self.count(),
    {
        &self.syntaxes[handle.0]
    }
}

struct HighlightedLine {
    kind: LineKind,
    tokens: Vec<Token>,
}

/// The highlighted tokens of a whole buffer, line by line.
pub struct HighlightedBuffer {
    lines: Vec<HighlightedLine>,
}

impl HighlightedBuffer {
    pub closed spec fn line_count(&self) -> int {
        self.lines@.len() as int
    }

    /// The tokens stored for line `li`, for contracts.
    pub closed spec fn line_tokens_view(&self, li: int) -> Seq<Token> {
        self.lines@[li].tokens@
    }

    pub fn new() -> (r: Self)
        ensures
            r.line_count() == 0,
    {
        Self { lines: Vec::new() }
    }

    pub fn clear(&mut self)
        ensures
            final(self).line_count() == 0,
    {
        self.lines.clear();
    }

    /// Parse every line of the buffer anew, threading each line's end state
    /// into the next line.
    pub fn highligh_all(&mut self, syntax: &Syntax, buffer: &BufferContent)
        requires
            buffer.wf(),
        ensures
            final(self).line_count() == buffer.view_lines().len(),
    {
        self.lines.clear();
        let n = buffer.line_count();
        let mut i: usize = 0;
        let mut previous = LineKind::Finished;
        proof {
            buffer.lemma_wf_bounds();
        }
        while i < n
            invariant
                i <= n,
                n == buffer.view_lines().len(),
                buffer.wf(),
                self.lines@.len() == i,
            decreases n - i,
        {
            proof {
                buffer.lemma_wf_bounds();
            }
            let line = buffer.line_at(i);
            let mut tokens: Vec<Token> = Vec::new();
            let kind = syntax.parse_line(line.as_str(), previous, &mut tokens);
            previous = kind;
            self.lines.push(HighlightedLine { kind, tokens });
            i = i + 1;
        }
    }

    /// Rehighlight after an insertion; the whole buffer is parsed anew, so
    /// every downstream line sees the right carried state.
    pub fn on_insert(&mut self, syntax: &Syntax, buffer: &BufferContent)
        requires
            buffer.wf(),
        ensures
            final(self).line_count() == buffer.view_lines().len(),
    {
        self.highligh_all(syntax, buffer);
    }

    /// Rehighlight after a deletion.
    pub fn on_delete(&mut self, syntax: &Syntax, buffer: &BufferContent)
        requires
            buffer.wf(),
        ensures
            final(self).line_count() == buffer.view_lines().len(),
    {
        self.highligh_all(syntax, buffer);
    }

    /// The kind of the token of `position`'s line covering its column, and
    /// `Text` where no stored token does (an unknown line included).
    pub fn find_token_kind_at(&self, position: BufferPosition) -> (r: TokenKind)
        ensures
            ({
                let li = position.line_index as int;
                let x = position.column_byte_index as int;
                &&& (li < self.line_count() ==> ({
                    let ts = self.line_tokens_view(li);
                    if exists|t: int| 0 <= t < ts.len()
                        && (#[trigger] ts[t]).from <= x < ts[t].to {
                        exists|t: int| 0 <= t < ts.len()
                            && (#[trigger] ts[t]).from <= x < ts[t].to && r == ts[t].kind
                    } else {
                        r == TokenKind::Text
                    }
                }))
                &&& (li >= self.line_count() ==> r == TokenKind::Text)
            }),
    {
        let li = position.line_index as usize;
        if li >= self.lines.len() {
            return TokenKind::Text;
        }
        let x = position.column_byte_index as usize;
        let tokens = &self.lines[li].tokens;
        let ghost ts = self.line_tokens_view(li as int);
        let mut i: usize = 0;
        let n = tokens.len();
        while i < n
            invariant
                i <= n,
                n == ts.len(),
                tokens@ == ts,
                x == position.column_byte_index as usize,
                li == position.line_index as usize,
                (li as int) < self.line_count(),
                ts == self.line_tokens_view(li as int),
                forall|t: int| 0 <= t < i
                    ==> !((#[trigger] ts[t]).from <= (x as int) < ts[t].to),
            decreases n - i,
        {
            let t = &tokens[i];
            if t.from <= x && x < t.to {
                let kind = t.kind;
                proof {
                    assert(0 <= (i as int) < ts.len() && ts[i as int].from <= (x as int)
                        < ts[i as int].to && kind == ts[i as int].kind);
                    assert(exists|t2: int| 0 <= t2 < ts.len()
                        && (#[trigger] ts[t2]).from <= (x as int) < ts[t2].to
                        && kind == ts[t2].kind);
                }
                return kind;
            }
            i = i + 1;
        }
        proof {
            assert forall|t2: int| 0 <= t2 < ts.len()
                implies !((#[trigger] ts[t2]).from <= (x as int) < ts[t2].to) by {}
        }
        TokenKind::Text
    }

    /// The tokens of one line, for rendering and tests.
    pub fn line_tokens(&self, line_index: usize) -> (r: Vec<Token>)
        requires
            (line_index as int) < self.line_count(),
        ensures
            r@ == self.line_tokens_view(line_index as int),
    {
        let tokens = &self.lines[line_index].tokens;
        let ghost ts = self.line_tokens_view(line_index as int);
        let mut r: Vec<Token> = Vec::new();
        let mut i: usize = 0;
        let n = tokens.len();
        while i < n
            invariant
                i <= n,
                n == ts.len(),
                tokens@ == ts,
                r@ == ts.take(i as int),
            decreases n - i,
        {
            r.push(tokens[i]);
            proof {
                assert(r@ =~= ts.take(i + 1 as int));
            }
            i = i + 1;
        }
        proof {
            assert(ts.take(ts.len() as int) =~= ts);
        }
        r
    }
}

} // verus!
