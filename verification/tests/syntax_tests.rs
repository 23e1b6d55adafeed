use pepper_core::content::BufferContent;
use pepper_core::pattern::Pattern;
use pepper_core::position::BufferPosition;
use pepper_core::syntax::{HighlightedBuffer, LineKind, Syntax, Token, TokenKind};

fn assert_token(slice: &str, kind: TokenKind, line: &str, token: &Token) {
    assert_eq!(kind, token.kind);
    assert_eq!(slice, &line[token.from..token.to]);
}

#[test]
fn test_no_syntax() {
    let syntax = Syntax::new();
    let mut tokens = Vec::new();
    let line = " fn main() ;  ";
    let line_kind = syntax.parse_line(line.as_bytes(), LineKind::Finished, &mut tokens);

    assert_eq!(LineKind::Finished, line_kind);
    assert_eq!(1, tokens.len());
    assert_token(line, TokenKind::Text, line, &tokens[0]);
}

#[test]
fn test_one_rule_syntax() {
    let mut syntax = Syntax::new();
    syntax.add_rule(TokenKind::Symbol, Pattern::new(";").unwrap());

    let mut tokens = Vec::new();
    let line = " fn main() ;  ";
    let line_kind = syntax.parse_line(line.as_bytes(), LineKind::Finished, &mut tokens);

    assert_eq!(LineKind::Finished, line_kind);
    assert_eq!(6, tokens.len());
    assert_token(" fn", TokenKind::Text, line, &tokens[0]);
    assert_token(" main", TokenKind::Text, line, &tokens[1]);
    assert_token("(", TokenKind::Text, line, &tokens[2]);
    assert_token(")", TokenKind::Text, line, &tokens[3]);
    assert_token(" ;", TokenKind::Symbol, line, &tokens[4]);
    assert_token("  ", TokenKind::Text, line, &tokens[5]);
}

#[test]
fn test_simple_syntax() {
    let mut syntax = Syntax::new();
    syntax.add_rule(TokenKind::Keyword, Pattern::new("fn").unwrap());
    syntax.add_rule(TokenKind::Symbol, Pattern::new("%(").unwrap());
    syntax.add_rule(TokenKind::Symbol, Pattern::new("%)").unwrap());

    let mut tokens = Vec::new();
    let line = " fn main() ;  ";
    let line_kind = syntax.parse_line(line.as_bytes(), LineKind::Finished, &mut tokens);

    assert_eq!(LineKind::Finished, line_kind);
    assert_eq!(6, tokens.len());
    assert_token(" fn", TokenKind::Keyword, line, &tokens[0]);
    assert_token(" main", TokenKind::Text, line, &tokens[1]);
    assert_token("(", TokenKind::Symbol, line, &tokens[2]);
    assert_token(")", TokenKind::Symbol, line, &tokens[3]);
    assert_token(" ;", TokenKind::Text, line, &tokens[4]);
    assert_token("  ", TokenKind::Text, line, &tokens[5]);
}

#[test]
fn test_multiline_syntax() {
    let mut syntax = Syntax::new();
    syntax.add_rule(TokenKind::Comment, Pattern::new("/*{!(*/).$}").unwrap());

    let mut tokens = Vec::new();
    let line0 = "before /* comment";
    let line1 = "only comment";
    let line2 = "still comment */ after";

    let line0_kind = syntax.parse_line(line0.as_bytes(), LineKind::Finished, &mut tokens);
    match line0_kind {
        LineKind::Unfinished(i, _) => assert_eq!(0, i),
        _ => panic!("unexpected line kind"),
    }
    assert_eq!(2, tokens.len());
    assert_token("before", TokenKind::Text, line0, &tokens[0]);
    assert_token(" /* comment", TokenKind::Comment, line0, &tokens[1]);

    let line1_kind = syntax.parse_line(line1.as_bytes(), line0_kind, &mut tokens);
    match line1_kind {
        LineKind::Unfinished(i, _) => assert_eq!(0, i),
        _ => panic!("unexpected line kind"),
    }
    assert_eq!(1, tokens.len());
    assert_token("only comment", TokenKind::Comment, line1, &tokens[0]);

    let line2_kind = syntax.parse_line(line2.as_bytes(), line1_kind, &mut tokens);
    assert_eq!(LineKind::Finished, line2_kind);
    assert_eq!(2, tokens.len());
    assert_token("still comment */", TokenKind::Comment, line2, &tokens[0]);
    assert_token(" after", TokenKind::Text, line2, &tokens[1]);
}

#[test]
fn highlight_whole_buffer() {
    let mut content = BufferContent::new();
    content.insert_text(BufferPosition::zero(), b"fn main\nbody ;");
    let mut syntax = Syntax::new();
    syntax.add_rule(TokenKind::Keyword, Pattern::new("fn").unwrap());
    syntax.add_rule(TokenKind::Symbol, Pattern::new(";").unwrap());

    let mut highlighted = HighlightedBuffer::new();
    highlighted.highligh_all(&syntax, &content);
    assert_eq!(
        TokenKind::Keyword,
        highlighted.find_token_kind_at(BufferPosition::line_col(0, 0))
    );
    assert_eq!(
        TokenKind::Symbol,
        highlighted.find_token_kind_at(BufferPosition::line_col(1, 5))
    );
    assert_eq!(
        TokenKind::Text,
        highlighted.find_token_kind_at(BufferPosition::line_col(9, 9))
    );
}
