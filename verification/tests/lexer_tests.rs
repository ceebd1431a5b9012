use note_mark::lexer::{cut_blank_lines, join_text, lex_raw};
use note_mark::token::{Token, TokenKind};

#[test]
fn test_lexer() {
    let tokens = lex_raw("## Hello\n");

    assert_eq!(tokens[0].kind, TokenKind::Pound);
    assert_eq!(tokens[1].kind, TokenKind::Pound);
    assert_eq!(tokens[2].kind, TokenKind::Space);
    assert_eq!(tokens[3].kind, TokenKind::Text);
    assert_eq!(tokens[4].kind, TokenKind::Text);
    assert_eq!(tokens[5].kind, TokenKind::Text);
    assert_eq!(tokens[6].kind, TokenKind::Text);
    assert_eq!(tokens[7].kind, TokenKind::Text);
    assert_eq!(tokens[8].kind, TokenKind::Break);
    assert_eq!(tokens.len(), 9);

    let tokens = lex_raw("\r\n");

    assert_eq!(tokens[0].kind, TokenKind::Break);
    assert_eq!(tokens.len(), 1);

    let tokens = lex_raw("\r");

    assert_eq!(tokens[0].kind, TokenKind::Text);
    assert_eq!(tokens.len(), 1);

    let tokens = lex_raw(r"\# Q");

    assert_eq!(tokens[0].kind, TokenKind::Text);
    assert_eq!(tokens[1].kind, TokenKind::Space);
    assert_eq!(tokens[2].kind, TokenKind::Text);
    assert_eq!(tokens.len(), 3);

    let tokens = lex_raw("あああ");

    assert_eq!(tokens[0].kind, TokenKind::Text);
    assert_eq!(tokens[1].kind, TokenKind::Text);
    assert_eq!(tokens[2].kind, TokenKind::Text);
    assert_eq!(tokens.len(), 3);
}

#[test]
fn test_text_jointer() {
    let tokens = join_text(&lex_raw("## Hello Q\n"));

    assert_eq!(tokens[0].kind, TokenKind::Pound);
    assert_eq!(tokens[1].kind, TokenKind::Pound);
    assert_eq!(tokens[2].kind, TokenKind::Space);
    assert_eq!(
        tokens[3],
        Token {
            kind: TokenKind::Text,
            start: 3,
            len: 5
        }
    );
    assert_eq!(tokens[4].kind, TokenKind::Space);
    assert_eq!(
        tokens[5],
        Token {
            kind: TokenKind::Text,
            start: 9,
            len: 1
        }
    );
    assert_eq!(tokens[6].kind, TokenKind::Break);
    assert_eq!(tokens.len(), 7);
}

#[test]
fn test_space_cutter() {
    let tokens = cut_blank_lines(&lex_raw("ABC\n  \nDEF"));

    assert_eq!(tokens[0].kind, TokenKind::Text);
    assert_eq!(tokens[1].kind, TokenKind::Text);
    assert_eq!(tokens[2].kind, TokenKind::Text);
    assert_eq!(tokens[3].kind, TokenKind::Break);
    assert_eq!(tokens[4].kind, TokenKind::Break);
    assert_eq!(tokens[5].kind, TokenKind::Text);
    assert_eq!(tokens[6].kind, TokenKind::Text);
    assert_eq!(tokens[7].kind, TokenKind::Text);
}

#[test]
fn raw_tokens_cover_input_exactly() {
    let input = "ab\r\nc d\te\n\n# x *y*";
    let chars: Vec<char> = input.chars().collect();
    let tokens = lex_raw(input);

    let mut pos = 0;
    for token in &tokens {
        assert_eq!(token.start, pos, "tokens must be contiguous");
        pos += token.len;
    }
    assert_eq!(pos, chars.len(), "tokens must cover the whole input");
}

#[test]
fn joiner_is_idempotent_on_samples() {
    for input in ["", "abc", "a *b* c\n\nd", "## x\r\ny\\.z"] {
        let once = join_text(&lex_raw(input));
        let twice = join_text(&once);
        assert_eq!(once, twice);
    }
}

#[test]
fn escape_yields_one_text_token() {
    for c in [
        '#', '*', ':', '`', '>', '-', '|', '.', '(', ')', '{', '}', '[', ']', '\\',
    ] {
        let mut s = String::from("\\");
        s.push(c);
        let tokens = lex_raw(&s);
        assert_eq!(
            tokens,
            vec![Token {
                kind: TokenKind::Text,
                start: 1,
                len: 1
            }],
            "escaped {c} must become one text token over just {c}"
        );
    }
}

#[test]
fn blank_line_of_spaces_behaves_as_empty() {
    let with_spaces = cut_blank_lines(&join_text(&lex_raw("ABC\n   \t \nDEF")));
    let without = cut_blank_lines(&join_text(&lex_raw("ABC\n\nDEF")));
    let kinds_a: Vec<note_mark::token::TokenKind> = with_spaces.iter().map(|t| t.kind).collect();
    let kinds_b: Vec<note_mark::token::TokenKind> = without.iter().map(|t| t.kind).collect();
    assert_eq!(kinds_a, kinds_b);
}
