//! Tokens of the markup lexer.
//!
//! A token is a tagged reference into the source text: a kind together with
//! the range of characters it covers. Offsets and lengths count characters
//! (Unicode scalar values) of the source, so that one codepoint is one unit.

use vstd::prelude::*;

verus! {

/// A token: a kind and the character range it covers in the source text.
#[derive(Debug, Clone, Copy, PartialEq, Eq, Structural)]
pub struct Token {
    /// The kind of the token.
    pub kind: TokenKind,
    /// The character offset at which the token starts.
    pub start: usize,
    /// The number of characters the token covers.
    pub len: usize,
}

impl Token {
    /// The character range of the token in the source text.
    pub fn range(&self) -> (r: core::ops::Range<usize>)
        requires
            self.start + self.len <= usize::MAX,
        ensures
            r.start == self.start,
            r.end == self.start + self.len,
    {
        self.start..self.start + self.len
    }
}

/// The kind of a token: one entry per recognized punctuation mark, plus
/// whitespace, line breaks, and generic text.
#[derive(Debug, Clone, Copy, PartialEq, Eq, Structural)]
pub enum TokenKind {
    Text,
    /// " "
    Space,
    /// "\t"
    Tab,
    Break,
    /// "\\"
    Backslash,
    /// "#"
    Pound,
    /// "*"
    Star,
    /// ":"
    Colon,
    /// "`"
    Backquote,
    /// ">"
    Gt,
    /// "-"
    Hyphen,
    /// "|"
    VerticalBar,
    /// "."
    Dot,
    /// "("
    OpenParen,
    /// ")"
    CloseParen,
    /// "{"
    OpenBrace,
    /// "}"
    CloseBrace,
    /// "["
    OpenBracket,
    /// "]"
    CloseBracket,
}

/// Whether every token lies inside a source text of `n` characters.
pub open spec fn tokens_in_bounds(ts: Seq<Token>, n: nat) -> bool {
    forall|i: int| 0 <= i < ts.len() ==> (#[trigger] ts[i]).start + ts[i].len <= n
}

} // verus!
