//! Lexer for the markup syntax.
//!
//! Three stages, each a total function over its input:
//! a raw scan of the character sequence into one token per codepoint (with
//! `\r\n` and backslash escapes taking two), a joiner that merges adjacent
//! text tokens into one span, and a normalizer that consumes whitespace-only
//! lines so they behave as a single blank separator.

use vstd::prelude::*;

use crate::token::{tokens_in_bounds, Token, TokenKind};

verus! {

/// Characters that a backslash may escape: the recognized punctuation marks
/// and the backslash itself.
#[verifier::opaque]
pub open spec fn is_escapable(c: char) -> bool {
    ||| c == '#'
    ||| c == '*'
    ||| c == ':'
    ||| c == '`'
    ||| c == '>'
    ||| c == '-'
    ||| c == '|'
    ||| c == '.'
    ||| c == '('
    ||| c == ')'
    ||| c == '{'
    ||| c == '}'
    ||| c == '['
    ||| c == ']'
    ||| c == '\\'
}

/// The token kind of one ordinary character (every character except the two
/// lookahead cases `\r` and `\\`, which the scanner treats on its own).
#[verifier::opaque]
pub open spec fn char_kind(c: char) -> TokenKind {
    if c == '#' {
        TokenKind::Pound
    } else if c == '*' {
        TokenKind::Star
    } else if c == ':' {
        TokenKind::Colon
    } else if c == '`' {
        TokenKind::Backquote
    } else if c == '>' {
        TokenKind::Gt
    } else if c == '-' {
        TokenKind::Hyphen
    } else if c == '|' {
        TokenKind::VerticalBar
    } else if c == '.' {
        TokenKind::Dot
    } else if c == '(' {
        TokenKind::OpenParen
    } else if c == ')' {
        TokenKind::CloseParen
    } else if c == '{' {
        TokenKind::OpenBrace
    } else if c == '}' {
        TokenKind::CloseBrace
    } else if c == '[' {
        TokenKind::OpenBracket
    } else if c == ']' {
        TokenKind::CloseBracket
    } else if c == ' ' {
        TokenKind::Space
    } else if c == '\t' {
        TokenKind::Tab
    } else if c == '\n' {
        TokenKind::Break
    } else {
        TokenKind::Text
    }
}

/// One step of the raw scan at position `i` of `s`: the token produced and
/// the position at which the scan continues.
///
/// Each recognized character yields a one-character token of its kind;
/// `\r\n` yields one two-character break; a backslash followed by an
/// escapable character yields a text token covering only the escaped
/// character (the backslash is consumed, not covered); everything else is a
/// one-character text token.
pub open spec fn lex_step(s: Seq<char>, i: int) -> (Token, int) {
    if s[i] == '\r' {
        if i + 1 < s.len() && s[i + 1] == '\n' {
            ((Token { kind: TokenKind::Break, start: i as usize, len: 2 }), i + 2)
        } else {
            ((Token { kind: TokenKind::Text, start: i as usize, len: 1 }), i + 1)
        }
    } else if s[i] == '\\' {
        if i + 1 < s.len() && is_escapable(s[i + 1]) {
            ((Token { kind: TokenKind::Text, start: (i + 1) as usize, len: 1 }), i + 2)
        } else {
            ((Token { kind: TokenKind::Text, start: i as usize, len: 1 }), i + 1)
        }
    } else {
        ((Token { kind: char_kind(s[i]), start: i as usize, len: 1 }), i + 1)
    }
}

/// Every step moves forward, and its token ends exactly where the next step
/// begins and covers at least the character at `i` or the one after it.
pub proof fn lemma_lex_step(s: Seq<char>, i: int)
    requires
        0 <= i < s.len() <= usize::MAX,
    ensures
        i < lex_step(s, i).1 <= s.len(),
        lex_step(s, i).1 <= i + 2,
        lex_step(s, i).0.start + lex_step(s, i).0.len == lex_step(s, i).1,
        i <= lex_step(s, i).0.start,
        lex_step(s, i).0.len >= 1,
        lex_step(s, i).0.start == i || (s[i] == '\\' && lex_step(s, i).0.start == i + 1),
{
}

/// The raw token stream of the characters of `s` from position `i` on.
pub open spec fn spec_lex_from(s: Seq<char>, i: int) -> Seq<Token>
    decreases s.len() - i,
{
    if i < 0 || i >= s.len() {
        Seq::empty()
    } else {
        seq![lex_step(s, i).0] + spec_lex_from(s, lex_step(s, i).1)
    }
}

/// Tokens appear in source order and never overlap: each one ends at or
/// before the start of every later one.
pub open spec fn tokens_ordered(ts: Seq<Token>) -> bool {
    forall|k1: int, k2: int|
        0 <= k1 < k2 < ts.len() ==> (#[trigger] ts[k1]).start + ts[k1].len
            <= (#[trigger] ts[k2]).start
}

/// Tokens are contiguous: each one begins where the one before it ended.
pub open spec fn tokens_contiguous(ts: Seq<Token>) -> bool {
    forall|k: int|
        #![trigger ts[k], ts[k + 1]]
        0 <= k < ts.len() - 1 ==> ts[k].start + ts[k].len == ts[k + 1].start
}

/// No character position `i` of `s` starts a backslash escape.
pub open spec fn escape_free(s: Seq<char>) -> bool {
    forall|i: int|
        #![trigger s[i], s[i + 1]]
        0 <= i < s.len() - 1 ==> !(s[i] == '\\' && is_escapable(s[i + 1]))
}

/// The raw token stream stays inside the text, in source order, without
/// overlaps, and every token covers at least one character at or after the
/// position the scan started from.
#[verifier::rlimit(50)]
pub proof fn lemma_lex_from_bounds(s: Seq<char>, i: int)
    requires
        0 <= i <= s.len() <= usize::MAX,
    ensures
        tokens_in_bounds(spec_lex_from(s, i), s.len() as nat),
        tokens_ordered(spec_lex_from(s, i)),
        forall|k: int|
            0 <= k < spec_lex_from(s, i).len() ==> i <= (#[trigger] spec_lex_from(s, i)[k]).start
                && spec_lex_from(s, i)[k].len >= 1,
    decreases s.len() - i,
{
    if i < s.len() {
        let ts = spec_lex_from(s, i);
        let t = lex_step(s, i).0;
        let next = lex_step(s, i).1;
        let rest = spec_lex_from(s, next);
        lemma_lex_step(s, i);
        lemma_lex_from_bounds(s, next);
        assert forall|k1: int, k2: int| 0 <= k1 < k2 < ts.len() implies (#[trigger] ts[k1]).start
            + ts[k1].len <= (#[trigger] ts[k2]).start by {
            assert(ts[k2] == rest[k2 - 1]);
            if k1 == 0 {
                if k2 > 1 {
                    assert(rest[0].start + rest[0].len <= rest[k2 - 1].start);
                }
            } else {
                assert(ts[k1] == rest[k1 - 1]);
            }
        }
        assert forall|k: int| 0 <= k < ts.len() implies i <= (#[trigger] ts[k]).start && ts[k].len
            >= 1 && ts[k].start + ts[k].len <= s.len() by {
            if k > 0 {
                assert(ts[k] == rest[k - 1]);
            }
        }
    }
}

/// Total coverage of the raw scan: on escape-free text the tokens are
/// contiguous, the first starts where the scan started, and the last ends at
/// the end of the text, so concatenating the token ranges in order
/// reproduces the scanned text exactly.
#[verifier::rlimit(50)]
pub proof fn lemma_lex_from_coverage(s: Seq<char>, i: int)
    requires
        0 <= i <= s.len() <= usize::MAX,
        escape_free(s),
    ensures
        tokens_contiguous(spec_lex_from(s, i)),
        spec_lex_from(s, i).len() == 0 <==> i == s.len(),
        spec_lex_from(s, i).len() > 0 ==> spec_lex_from(s, i)[0].start == i,
        spec_lex_from(s, i).len() > 0 ==> spec_lex_from(s, i).last().start + spec_lex_from(
            s,
            i,
        ).last().len == s.len(),
    decreases s.len() - i,
{
    if i < s.len() {
        let ts = spec_lex_from(s, i);
        let t = lex_step(s, i).0;
        let next = lex_step(s, i).1;
        let rest = spec_lex_from(s, next);
        lemma_lex_step(s, i);
        assert(!(s[i] == '\\' && i + 1 < s.len() && is_escapable(s[i + 1])));
        assert(t.start == i);
        lemma_lex_from_coverage(s, next);
        assert forall|k: int| #![trigger ts[k], ts[k + 1]] 0 <= k < ts.len() - 1 implies ts[k].start
            + ts[k].len == ts[k + 1].start by {
            if k == 0 {
                assert(ts[0] == t);
                assert(ts[1] == rest[0]);
            } else {
                let m = k - 1;
                assert(ts[k] == rest[m] && ts[k + 1] == rest[m + 1]);
                assert(rest[m].start + rest[m].len == rest[m + 1].start);
            }
        }
        if rest.len() > 0 {
            assert(ts.last() == rest.last());
        }
    }
}

/// Escape fidelity: for every escapable character `c`, lexing the
/// two-character text backslash-`c` yields exactly one text token spanning
/// just `c`.
pub proof fn lemma_escape_fidelity(c: char)
    requires
        is_escapable(c),
    ensures
        spec_lex_from(seq!['\\', c], 0) =~= seq![
            (Token { kind: TokenKind::Text, start: 1, len: 1 }),
        ],
{
    let s = seq!['\\', c];
    assert(s[0] == '\\' && s[1] == c);
    assert(spec_lex_from(s, 2) =~= Seq::<Token>::empty());
}

/// Number of consecutive text tokens at position `i` of `ts`.
pub open spec fn text_run_len(ts: Seq<Token>, i: int) -> int
    decreases ts.len() - i,
{
    if i < 0 || i >= ts.len() || ts[i].kind != TokenKind::Text {
        0
    } else {
        1 + text_run_len(ts, i + 1)
    }
}

/// Combined character length of the consecutive text tokens at position `i`.
pub open spec fn text_run_sum(ts: Seq<Token>, i: int) -> int
    decreases ts.len() - i,
{
    if i < 0 || i >= ts.len() || ts[i].kind != TokenKind::Text {
        0
    } else {
        ts[i].len + text_run_sum(ts, i + 1)
    }
}

pub proof fn lemma_text_run_len_bounds(ts: Seq<Token>, i: int)
    requires
        0 <= i <= ts.len(),
    ensures
        0 <= text_run_len(ts, i) <= ts.len() - i,
    decreases ts.len() - i,
{
    if i < ts.len() && ts[i].kind == TokenKind::Text {
        lemma_text_run_len_bounds(ts, i + 1);
    }
}

/// The joined token stream: runs of adjacent text tokens become one token
/// spanning their combined range; all other tokens pass through unchanged.
pub open spec fn spec_join_from(ts: Seq<Token>, i: int) -> Seq<Token>
    decreases ts.len() - i,
    via spec_join_from_decreases
{
    if i < 0 || i >= ts.len() {
        Seq::empty()
    } else if ts[i].kind != TokenKind::Text {
        seq![ts[i]] + spec_join_from(ts, i + 1)
    } else {
        seq![
            (Token {
                kind: TokenKind::Text,
                start: ts[i].start,
                len: text_run_sum(ts, i) as usize,
            }),
        ] + spec_join_from(ts, i + text_run_len(ts, i))
    }
}

#[via_fn]
proof fn spec_join_from_decreases(ts: Seq<Token>, i: int) {
    if 0 <= i < ts.len() && ts[i].kind == TokenKind::Text {
        lemma_text_run_len_bounds(ts, i);
        assert(text_run_len(ts, i) == 1 + text_run_len(ts, i + 1));
        lemma_text_run_len_bounds(ts, i + 1);
    }
}

/// The joiner on a whole token stream.
pub open spec fn spec_join(ts: Seq<Token>) -> Seq<Token> {
    spec_join_from(ts, 0)
}

/// No two text tokens stand next to each other.
pub open spec fn no_adjacent_text(ts: Seq<Token>) -> bool {
    forall|k: int|
        #![trigger ts[k], ts[k + 1]]
        0 <= k < ts.len() - 1 ==> !(ts[k].kind == TokenKind::Text && ts[k + 1].kind
            == TokenKind::Text)
}


/// The first joined token keeps the kind of the token it starts from.
pub proof fn lemma_join_from_head(ts: Seq<Token>, i: int)
    requires
        0 <= i <= ts.len(),
    ensures
        spec_join_from(ts, i).len() == 0 <==> i == ts.len(),
        i < ts.len() ==> spec_join_from(ts, i)[0].kind == ts[i].kind,
{
    if i < ts.len() && ts[i].kind == TokenKind::Text {
        lemma_text_run_len_bounds(ts, i);
    }
}

/// After joining, no two text tokens stand next to each other.
pub proof fn lemma_join_no_adjacent(ts: Seq<Token>, i: int)
    requires
        0 <= i <= ts.len(),
    ensures
        no_adjacent_text(spec_join_from(ts, i)),
    decreases ts.len() - i,
{
    if i < ts.len() {
        let js = spec_join_from(ts, i);
        if ts[i].kind != TokenKind::Text {
            let rest = spec_join_from(ts, i + 1);
            lemma_join_no_adjacent(ts, i + 1);
            lemma_join_from_head(ts, i + 1);
            assert forall|k: int| #![trigger js[k], js[k + 1]] 0 <= k < js.len() - 1 implies !(
            js[k].kind == TokenKind::Text && js[k + 1].kind == TokenKind::Text) by {
                if k == 0 {
                    assert(js[0] == ts[i]);
                    assert(js[1] == rest[0]);
                } else {
                    let m = k - 1;
                    assert(js[k] == rest[m] && js[k + 1] == rest[m + 1]);
                    assert(!(rest[m].kind == TokenKind::Text && rest[m + 1].kind
                        == TokenKind::Text));
                }
            }
        } else {
            let run = text_run_len(ts, i);
            lemma_text_run_len_bounds(ts, i);
            lemma_text_run_ends(ts, i);
            let rest = spec_join_from(ts, i + run);
            lemma_join_no_adjacent(ts, i + run);
            lemma_join_from_head(ts, i + run);
            assert forall|k: int| #![trigger js[k], js[k + 1]] 0 <= k < js.len() - 1 implies !(
            js[k].kind == TokenKind::Text && js[k + 1].kind == TokenKind::Text) by {
                if k == 0 {
                    assert(js[1] == rest[0]);
                    assert(rest[0].kind == ts[i + run].kind);
                } else {
                    let m = k - 1;
                    assert(js[k] == rest[m] && js[k + 1] == rest[m + 1]);
                    assert(!(rest[m].kind == TokenKind::Text && rest[m + 1].kind
                        == TokenKind::Text));
                }
            }
        }
    }
}

/// The token after a run of text tokens, if any, is not a text token.
proof fn lemma_text_run_ends(ts: Seq<Token>, i: int)
    requires
        0 <= i <= ts.len(),
    ensures
        i + text_run_len(ts, i) < ts.len() ==> ts[i + text_run_len(ts, i)].kind != TokenKind::Text,
    decreases ts.len() - i,
{
    if i < ts.len() && ts[i].kind == TokenKind::Text {
        lemma_text_run_ends(ts, i + 1);
    }
}

/// On a stream without adjacent text tokens the joiner changes nothing.
pub proof fn lemma_join_identity(ts: Seq<Token>, i: int)
    requires
        0 <= i <= ts.len(),
        no_adjacent_text(ts),
    ensures
        spec_join_from(ts, i) =~= ts.subrange(i, ts.len() as int),
    decreases ts.len() - i,
{
    if i < ts.len() {
        if ts[i].kind == TokenKind::Text {
            if i + 1 < ts.len() {
                assert(!(ts[i].kind == TokenKind::Text && ts[i + 1].kind == TokenKind::Text));
            }
            assert(text_run_len(ts, i) == 1 + text_run_len(ts, i + 1));
            assert(text_run_len(ts, i + 1) == 0);
            assert(text_run_sum(ts, i) == ts[i].len + text_run_sum(ts, i + 1));
            assert(text_run_sum(ts, i + 1) == 0);
            lemma_join_identity(ts, i + 1);
            assert(ts.subrange(i, ts.len() as int) =~= seq![ts[i]] + ts.subrange(
                i + 1,
                ts.len() as int,
            ));
        } else {
            lemma_join_identity(ts, i + 1);
            assert(ts.subrange(i, ts.len() as int) =~= seq![ts[i]] + ts.subrange(
                i + 1,
                ts.len() as int,
            ));
        }
    }
}

/// Joiner idempotence: running the text-run joiner twice produces the same
/// output as running it once.
pub proof fn lemma_join_idempotent(ts: Seq<Token>)
    ensures
        spec_join(spec_join(ts)) == spec_join(ts),
{
    lemma_join_no_adjacent(ts, 0);
    lemma_join_identity(spec_join(ts), 0);
    assert(spec_join(spec_join(ts)) =~= spec_join(ts));
}

/// A text run's combined length stays within the range from the run's first
/// token to its last.
#[verifier::rlimit(100)]
proof fn lemma_run_sum_bound(ts: Seq<Token>, i: int)
    requires
        tokens_ordered(ts),
        0 <= i < ts.len(),
        ts[i].kind == TokenKind::Text,
    ensures
        i + text_run_len(ts, i) <= ts.len(),
        ts[i].start + text_run_sum(ts, i) <= ts[i + text_run_len(ts, i) - 1].start + ts[i
            + text_run_len(ts, i) - 1].len,
    decreases ts.len() - i,
{
    lemma_text_run_len_bounds(ts, i);
    assert(text_run_len(ts, i) == 1 + text_run_len(ts, i + 1));
    assert(text_run_sum(ts, i) == ts[i].len + text_run_sum(ts, i + 1));
    if i + 1 < ts.len() && ts[i + 1].kind == TokenKind::Text {
        lemma_run_sum_bound(ts, i + 1);
        assert(ts[i].start + ts[i].len <= ts[i + 1].start);
        assert(i + text_run_len(ts, i) - 1 == (i + 1) + text_run_len(ts, i + 1) - 1);
    } else {
        assert(text_run_len(ts, i + 1) == 0);
        assert(text_run_sum(ts, i + 1) == 0);
    }
}

/// The joiner keeps tokens in source order, without overlaps, and inside the
/// same text bounds.
pub proof fn lemma_join_from_wf(ts: Seq<Token>, i: int, n: nat)
    requires
        tokens_ordered(ts),
        tokens_in_bounds(ts, n),
        0 <= i <= ts.len(),
        n <= usize::MAX,
    ensures
        tokens_ordered(spec_join_from(ts, i)),
        tokens_in_bounds(spec_join_from(ts, i), n),
        i < ts.len() ==> spec_join_from(ts, i).len() > 0 && spec_join_from(ts, i)[0].start
            >= ts[i].start,
    decreases ts.len() - i,
{
    if i < ts.len() {
        let js = spec_join_from(ts, i);
        let next = if ts[i].kind == TokenKind::Text {
            i + text_run_len(ts, i)
        } else {
            i + 1
        };
        lemma_text_run_len_bounds(ts, i);
        if ts[i].kind == TokenKind::Text {
            lemma_run_sum_bound(ts, i);
            assert(ts[next - 1].start + ts[next - 1].len <= n);
            assert(0 <= text_run_sum(ts, i) <= n) by {
                lemma_run_sum_nonneg(ts, i);
            }
            assert(js[0] == (Token {
                kind: TokenKind::Text,
                start: ts[i].start,
                len: text_run_sum(ts, i) as usize,
            }));
            if next < ts.len() {
                assert(ts[next - 1].start + ts[next - 1].len <= ts[next].start);
            }
        } else {
            assert(js[0] == ts[i]);
            assert(ts[i].start + ts[i].len <= n);
            if next < ts.len() {
                assert(ts[i].start + ts[i].len <= ts[next].start);
            }
        }
        let head = js[0];
        assert(head.start + head.len <= n);
        assert(next < ts.len() ==> head.start + head.len <= ts[next].start);
        lemma_join_from_wf(ts, next, n);
        let rest = spec_join_from(ts, next);
        assert forall|k1: int, k2: int| 0 <= k1 < k2 < js.len() implies (#[trigger] js[k1]).start
            + js[k1].len <= (#[trigger] js[k2]).start by {
            assert(js[k2] == rest[k2 - 1]);
            if k1 == 0 {
                if k2 > 1 {
                    assert(rest[0].start + rest[0].len <= rest[k2 - 1].start);
                }
            } else {
                assert(js[k1] == rest[k1 - 1]);
            }
        }
        assert forall|k: int| 0 <= k < js.len() implies (#[trigger] js[k]).start + js[k].len
            <= n by {
            if k > 0 {
                assert(js[k] == rest[k - 1]);
            }
        }
    }
}

/// A run's combined length is never negative.
proof fn lemma_run_sum_nonneg(ts: Seq<Token>, i: int)
    requires
        0 <= i <= ts.len(),
    ensures
        0 <= text_run_sum(ts, i),
    decreases ts.len() - i,
{
    if i < ts.len() && ts[i].kind == TokenKind::Text {
        lemma_run_sum_nonneg(ts, i + 1);
    }
}

/// The first index at or after `j` whose token is not a space or a tab, or
/// the length of the stream if only whitespace remains.
pub open spec fn ws_run_end(ts: Seq<Token>, j: int) -> int
    decreases ts.len() - j,
{
    if j < 0 || j >= ts.len() {
        j
    } else if ts[j].kind == TokenKind::Space || ts[j].kind == TokenKind::Tab {
        ws_run_end(ts, j + 1)
    } else {
        j
    }
}

pub proof fn lemma_ws_run_end(ts: Seq<Token>, j: int)
    requires
        0 <= j <= ts.len(),
    ensures
        j <= ws_run_end(ts, j) <= ts.len(),
        ws_run_end(ts, j) < ts.len() ==> ts[ws_run_end(ts, j)].kind != TokenKind::Space
            && ts[ws_run_end(ts, j)].kind != TokenKind::Tab,
    decreases ts.len() - j,
{
    if j < ts.len() && (ts[j].kind == TokenKind::Space || ts[j].kind == TokenKind::Tab) {
        lemma_ws_run_end(ts, j + 1);
    }
}

/// The blank-line normalizer from position `i` on: after a break that is not
/// followed by another break, a run of spaces and tabs that reaches another
/// break or the end of the stream is consumed, so that a whitespace-only
/// line behaves as an empty one.
pub open spec fn spec_cut_from(ts: Seq<Token>, i: int) -> Seq<Token>
    decreases ts.len() - i,
    via spec_cut_from_decreases
{
    if i < 0 || i >= ts.len() {
        Seq::empty()
    } else if ts[i].kind == TokenKind::Break && i + 1 < ts.len() && ts[i + 1].kind
        != TokenKind::Break {
        let j = ws_run_end(ts, i + 1);
        if j >= ts.len() {
            seq![ts[i]]
        } else if ts[j].kind == TokenKind::Break {
            seq![ts[i]] + spec_cut_from(ts, j)
        } else {
            seq![ts[i]] + spec_cut_from(ts, i + 1)
        }
    } else {
        seq![ts[i]] + spec_cut_from(ts, i + 1)
    }
}

#[via_fn]
proof fn spec_cut_from_decreases(ts: Seq<Token>, i: int) {
    if 0 <= i < ts.len() {
        lemma_ws_run_end(ts, i + 1);
    }
}

/// The normalizer emits only tokens of its input, so bounds are kept.
pub proof fn lemma_cut_from_bounds(ts: Seq<Token>, i: int, n: nat)
    requires
        tokens_in_bounds(ts, n),
        0 <= i <= ts.len(),
    ensures
        tokens_in_bounds(spec_cut_from(ts, i), n),
    decreases ts.len() - i,
{
    if i < ts.len() {
        let cs = spec_cut_from(ts, i);
        if ts[i].kind == TokenKind::Break && i + 1 < ts.len() && ts[i + 1].kind
            != TokenKind::Break {
            let j = ws_run_end(ts, i + 1);
            lemma_ws_run_end(ts, i + 1);
            if j >= ts.len() {
            } else if ts[j].kind == TokenKind::Break {
                lemma_cut_from_bounds(ts, j, n);
            } else {
                lemma_cut_from_bounds(ts, i + 1, n);
            }
        } else {
            lemma_cut_from_bounds(ts, i + 1, n);
        }
        assert forall|k: int| 0 <= k < cs.len() implies (#[trigger] cs[k]).start + cs[k].len
            <= n by {
            if k == 0 {
                assert(cs[0] == ts[i]);
            }
        }
    }
}

/// Tokens inside a shorter text lie inside a longer one too.
pub proof fn lemma_in_bounds_weaken(ts: Seq<Token>, n1: nat, n2: nat)
    requires
        tokens_in_bounds(ts, n1),
        n1 <= n2,
    ensures
        tokens_in_bounds(ts, n2),
{
    assert forall|k: int| 0 <= k < ts.len() implies (#[trigger] ts[k]).start + ts[k].len <= n2 by {
        assert(ts[k].start + ts[k].len <= n1);
    }
}

/// The full lexer: raw scan, then text-run joining, then blank-line
/// normalization.
pub open spec fn spec_lex(s: Seq<char>) -> Seq<Token> {
    spec_cut_from(spec_join_from(spec_lex_from(s, 0), 0), 0)
}

/// The kind of one ordinary character.
fn classify_char(c: char) -> (k: TokenKind)
    ensures
        k == char_kind(c),
{
    proof {
        reveal(char_kind);
    }
    match c {
        '#' => TokenKind::Pound,
        '*' => TokenKind::Star,
        ':' => TokenKind::Colon,
        '`' => TokenKind::Backquote,
        '>' => TokenKind::Gt,
        '-' => TokenKind::Hyphen,
        '|' => TokenKind::VerticalBar,
        '.' => TokenKind::Dot,
        '(' => TokenKind::OpenParen,
        ')' => TokenKind::CloseParen,
        '{' => TokenKind::OpenBrace,
        '}' => TokenKind::CloseBrace,
        '[' => TokenKind::OpenBracket,
        ']' => TokenKind::CloseBracket,
        ' ' => TokenKind::Space,
        '\t' => TokenKind::Tab,
        '\n' => TokenKind::Break,
        _ => TokenKind::Text,
    }
}

/// Whether a backslash may escape `c`.
fn escapable(c: char) -> (b: bool)
    ensures
        b == is_escapable(c),
{
    proof {
        reveal(is_escapable);
    }
    match c {
        '#' | '*' | ':' | '`' | '>' | '-' | '|' | '.' | '(' | ')' | '{' | '}' | '[' | ']'
            | '\\' => true,
        _ => false,
    }
}

/// The raw scan: one token per codepoint of `input`, with `\r\n` and
/// backslash escapes taking two codepoints.
pub fn lex_raw(input: &str) -> (r: Vec<Token>)
    ensures
        r@ == spec_lex_from(input@, 0),
        tokens_in_bounds(r@, input@.len() as nat),
        tokens_ordered(r@),
        input@.len() <= usize::MAX,
{
    let n = input.unicode_len();
    let mut toks: Vec<Token> = Vec::new();
    let mut i: usize = 0;
    while i < n
        invariant
            n == input@.len(),
            i <= n,
            spec_lex_from(input@, 0) == toks@ + spec_lex_from(input@, i as int),
        decreases n - i,
    {
        let ghost prev = toks@;
        let c = input.get_char(i);
        let (tok, next): (Token, usize) = if c == '\r' {
            if i + 1 < n && input.get_char(i + 1) == '\n' {
                ((Token { kind: TokenKind::Break, start: i, len: 2 }), i + 2)
            } else {
                ((Token { kind: TokenKind::Text, start: i, len: 1 }), i + 1)
            }
        } else if c == '\\' {
            if i + 1 < n && escapable(input.get_char(i + 1)) {
                ((Token { kind: TokenKind::Text, start: i + 1, len: 1 }), i + 2)
            } else {
                ((Token { kind: TokenKind::Text, start: i, len: 1 }), i + 1)
            }
        } else {
            ((Token { kind: classify_char(c), start: i, len: 1 }), i + 1)
        };
        proof {
            assert(lex_step(input@, i as int) == (tok, next as int));
            assert(spec_lex_from(input@, i as int) == seq![tok] + spec_lex_from(
                input@,
                next as int,
            ));
            assert(prev + spec_lex_from(input@, i as int) =~= (prev + seq![tok]) + spec_lex_from(
                input@,
                next as int,
            ));
        }
        toks.push(tok);
        i = next;
    }
    proof {
        assert(spec_lex_from(input@, n as int) =~= Seq::<Token>::empty());
        assert(toks@ + spec_lex_from(input@, n as int) =~= toks@);
        lemma_lex_from_bounds(input@, 0);
    }
    toks
}

/// The text-run joiner: adjacent text tokens become one token spanning their
/// combined range; other tokens pass through unchanged, in order.
pub fn join_text(tokens: &[Token]) -> (r: Vec<Token>)
    requires
        tokens_ordered(tokens@),
        tokens_in_bounds(tokens@, usize::MAX as nat),
    ensures
        r@ == spec_join(tokens@),
{
    let ghost ts = tokens@;
    let mut out: Vec<Token> = Vec::new();
    let mut i: usize = 0;
    while i < tokens.len()
        invariant
            tokens_ordered(ts),
            tokens_in_bounds(ts, usize::MAX as nat),
            ts == tokens@,
            i <= ts.len(),
            spec_join_from(ts, 0) == out@ + spec_join_from(ts, i as int),
        decreases ts.len() - i,
    {
        let ghost prev = out@;
        let t = tokens[i];
        if !matches!(t.kind, TokenKind::Text) {
            out.push(t);
            proof {
                assert(spec_join_from(ts, i as int) == seq![t] + spec_join_from(ts, i + 1));
                assert(prev + spec_join_from(ts, i as int) =~= (prev + seq![t]) + spec_join_from(
                    ts,
                    i + 1,
                ));
            }
            i = i + 1;
        } else {
            let mut j = i + 1;
            let mut total: usize = t.len;
            proof {
                assert(text_run_sum(ts, i as int) == t.len + text_run_sum(ts, i + 1));
                assert(text_run_len(ts, i as int) == 1 + text_run_len(ts, i + 1));
            }
            while j < tokens.len() && matches!(tokens[j].kind, TokenKind::Text)
                invariant
                    tokens_ordered(ts),
                    tokens_in_bounds(ts, usize::MAX as nat),
                    ts == tokens@,
                    i < j <= ts.len(),
                    ts[i as int].kind == TokenKind::Text,
                    total as int == text_run_sum(ts, i as int) - text_run_sum(ts, j as int),
                    text_run_len(ts, i as int) == (j - i) + text_run_len(ts, j as int),
                    total as int <= ts[j - 1].start + ts[j - 1].len - ts[i as int].start,
                decreases ts.len() - j,
            {
                proof {
                    assert(ts[j - 1].start + ts[j - 1].len <= ts[j as int].start);
                    assert(ts[j as int].start + ts[j as int].len <= usize::MAX);
                    assert(text_run_sum(ts, j as int) == ts[j as int].len + text_run_sum(
                        ts,
                        j + 1,
                    ));
                    assert(text_run_len(ts, j as int) == 1 + text_run_len(ts, j + 1));
                }
                total = total + tokens[j].len;
                j = j + 1;
            }
            proof {
                assert(text_run_sum(ts, j as int) == 0);
                assert(text_run_len(ts, j as int) == 0);
            }
            let merged = Token { kind: TokenKind::Text, start: t.start, len: total };
            out.push(merged);
            proof {
                assert(spec_join_from(ts, i as int) == seq![merged] + spec_join_from(ts, j as int));
                assert(prev + spec_join_from(ts, i as int) =~= (prev + seq![merged])
                    + spec_join_from(ts, j as int));
            }
            i = j;
        }
    }
    proof {
        assert(out@ + spec_join_from(ts, ts.len() as int) =~= out@);
    }
    out
}

/// The blank-line normalizer over a whole token stream.
pub fn cut_blank_lines(tokens: &[Token]) -> (r: Vec<Token>)
    ensures
        r@ == spec_cut_from(tokens@, 0),
{
    let ghost ts = tokens@;
    let mut out: Vec<Token> = Vec::new();
    let mut i: usize = 0;
    while i < tokens.len()
        invariant
            ts == tokens@,
            i <= ts.len(),
            spec_cut_from(ts, 0) == out@ + spec_cut_from(ts, i as int),
        decreases ts.len() - i,
    {
        let ghost prev = out@;
        let t = tokens[i];
        out.push(t);
        if matches!(t.kind, TokenKind::Break) && i + 1 < tokens.len() && !matches!(
            tokens[i + 1].kind,
            TokenKind::Break,
        ) {
            let mut j = i + 1;
            while j < tokens.len() && (matches!(tokens[j].kind, TokenKind::Space) || matches!(
                tokens[j].kind,
                TokenKind::Tab,
            ))
                invariant
                    ts == tokens@,
                    i + 1 <= j <= ts.len(),
                    ws_run_end(ts, i + 1) == ws_run_end(ts, j as int),
                decreases ts.len() - j,
            {
                j = j + 1;
            }
            proof {
                assert(ws_run_end(ts, j as int) == j);
                assert(ws_run_end(ts, i + 1) == j);
            }
            if j >= tokens.len() {
                proof {
                    assert(spec_cut_from(ts, i as int) == seq![t]);
                    assert(prev + spec_cut_from(ts, i as int) =~= (prev + seq![t])
                        + spec_cut_from(ts, ts.len() as int));
                }
                i = tokens.len();
            } else if matches!(tokens[j].kind, TokenKind::Break) {
                proof {
                    assert(spec_cut_from(ts, i as int) == seq![t] + spec_cut_from(ts, j as int));
                    assert(prev + spec_cut_from(ts, i as int) =~= (prev + seq![t]) + spec_cut_from(
                        ts,
                        j as int,
                    ));
                }
                i = j;
            } else {
                proof {
                    assert(spec_cut_from(ts, i as int) == seq![t] + spec_cut_from(ts, i + 1));
                    assert(prev + spec_cut_from(ts, i as int) =~= (prev + seq![t]) + spec_cut_from(
                        ts,
                        i + 1,
                    ));
                }
                i = i + 1;
            }
        } else {
            proof {
                assert(spec_cut_from(ts, i as int) == seq![t] + spec_cut_from(ts, i + 1));
                assert(prev + spec_cut_from(ts, i as int) =~= (prev + seq![t]) + spec_cut_from(
                    ts,
                    i + 1,
                ));
            }
            i = i + 1;
        }
    }
    proof {
        assert(out@ + spec_cut_from(ts, ts.len() as int) =~= out@);
    }
    out
}

/// Split a text into tokens: the raw scan, joined and normalized.
pub fn lex(input: &str) -> (r: Vec<Token>)
    ensures
        r@ == spec_lex(input@),
        tokens_in_bounds(r@, input@.len() as nat),
{
    let raw = lex_raw(input);
    proof {
        lemma_in_bounds_weaken(raw@, input@.len() as nat, usize::MAX as nat);
    }
    let joined = join_text(raw.as_slice());
    proof {
        lemma_join_from_wf(raw@, 0, input@.len() as nat);
        lemma_cut_from_bounds(joined@, 0, input@.len() as nat);
    }
    cut_blank_lines(joined.as_slice())
}


/// The lexer never yields more tokens than characters.
pub proof fn lemma_spec_lex_len(s: Seq<char>)
    ensures
        spec_lex(s).len() <= s.len(),
{
    lemma_lex_from_len(s, 0);
    lemma_join_from_len(spec_lex_from(s, 0), 0);
    lemma_cut_from_len(spec_join_from(spec_lex_from(s, 0), 0), 0);
}

proof fn lemma_lex_from_len(s: Seq<char>, i: int)
    requires
        0 <= i <= s.len(),
    ensures
        spec_lex_from(s, i).len() <= s.len() - i,
    decreases s.len() - i,
{
    if i < s.len() {
        lemma_lex_from_len(s, if lex_step(s, i).1 <= s.len() {
            lex_step(s, i).1
        } else {
            s.len() as int
        });
        assert(lex_step(s, i).1 <= s.len());
    }
}

proof fn lemma_join_from_len(ts: Seq<Token>, i: int)
    requires
        0 <= i <= ts.len(),
    ensures
        spec_join_from(ts, i).len() <= ts.len() - i,
    decreases ts.len() - i,
{
    if i < ts.len() {
        if ts[i].kind == TokenKind::Text {
            lemma_text_run_len_bounds(ts, i);
            lemma_text_run_len_bounds(ts, i + 1);
            assert(text_run_len(ts, i) == 1 + text_run_len(ts, i + 1));
            lemma_join_from_len(ts, i + text_run_len(ts, i));
        } else {
            lemma_join_from_len(ts, i + 1);
        }
    }
}

proof fn lemma_cut_from_len(ts: Seq<Token>, i: int)
    requires
        0 <= i <= ts.len(),
    ensures
        spec_cut_from(ts, i).len() <= ts.len() - i,
    decreases ts.len() - i,
{
    if i < ts.len() {
        if ts[i].kind == TokenKind::Break && i + 1 < ts.len() && ts[i + 1].kind
            != TokenKind::Break {
            let j = ws_run_end(ts, i + 1);
            lemma_ws_run_end(ts, i + 1);
            if j >= ts.len() {
            } else if ts[j].kind == TokenKind::Break {
                lemma_cut_from_len(ts, j);
            } else {
                lemma_cut_from_len(ts, i + 1);
            }
        } else {
            lemma_cut_from_len(ts, i + 1);
        }
    }
}


/// A raw scan of a run of pound marks and a space tokenizes one pound
/// token per mark and then one space token.
pub proof fn lemma_lex_pound_prefix(s: Seq<char>, i: int, n: int)
    requires
        0 <= i <= n < s.len() <= usize::MAX,
        forall|k: int| 0 <= k < n ==> s[k] == '#',
        s[n as int] == ' ',
    ensures
        spec_lex_from(s, i).len() > n - i,
        forall|k: int|
            0 <= k < n - i ==> (#[trigger] spec_lex_from(s, i)[k]).kind == TokenKind::Pound,
        spec_lex_from(s, i)[n - i].kind == TokenKind::Space,
    decreases n - i,
{
    reveal(char_kind);
    reveal(is_escapable);
    let ts = spec_lex_from(s, i);
    let rest = spec_lex_from(s, i + 1);
    if i == n {
        assert(lex_step(s, i).0.kind == TokenKind::Space);
    } else {
        assert(s[i] == '#');
        assert(lex_step(s, i) == ((Token {
            kind: TokenKind::Pound,
            start: i as usize,
            len: 1,
        }), i + 1));
        lemma_lex_pound_prefix(s, i + 1, n);
        assert forall|k: int| 0 <= k < n - i implies (#[trigger] ts[k]).kind
            == TokenKind::Pound by {
            if k > 0 {
                assert(ts[k] == rest[k - 1]);
            }
        }
        assert(ts[n - i] == rest[n - i - 1]);
    }
}

/// The joiner passes a leading run of non-text tokens through unchanged.
pub proof fn lemma_join_nontext_prefix(ts: Seq<Token>, i: int, m: int)
    requires
        0 <= i <= m < ts.len(),
        forall|k: int| i <= k <= m ==> (#[trigger] ts[k]).kind != TokenKind::Text,
    ensures
        spec_join_from(ts, i).len() > m - i,
        forall|j: int| 0 <= j <= m - i ==> #[trigger] spec_join_from(ts, i)[j] == ts[i + j],
    decreases m - i,
{
    let js = spec_join_from(ts, i);
    let rest = spec_join_from(ts, i + 1);
    assert(ts[i].kind != TokenKind::Text);
    if i < m {
        lemma_join_nontext_prefix(ts, i + 1, m);
        assert forall|j: int| 0 <= j <= m - i implies #[trigger] js[j] == ts[i + j] by {
            if j > 0 {
                assert(js[j] == rest[j - 1]);
            }
        }
    } else {
        lemma_join_from_head(ts, i + 1);
        assert(js[0] == ts[i]);
    }
}

/// The normalizer passes a leading run of break-free tokens through
/// unchanged.
pub proof fn lemma_cut_nonbreak_prefix(ts: Seq<Token>, i: int, m: int)
    requires
        0 <= i <= m < ts.len(),
        forall|k: int| i <= k <= m ==> (#[trigger] ts[k]).kind != TokenKind::Break,
    ensures
        spec_cut_from(ts, i).len() > m - i,
        forall|j: int| 0 <= j <= m - i ==> #[trigger] spec_cut_from(ts, i)[j] == ts[i + j],
    decreases m - i,
{
    let cs = spec_cut_from(ts, i);
    let rest = spec_cut_from(ts, i + 1);
    assert(ts[i].kind != TokenKind::Break);
    if i < m {
        lemma_cut_nonbreak_prefix(ts, i + 1, m);
        assert forall|j: int| 0 <= j <= m - i implies #[trigger] cs[j] == ts[i + j] by {
            if j > 0 {
                assert(cs[j] == rest[j - 1]);
            }
        }
    } else {
        assert(cs[0] == ts[i]);
    }
}

/// A text that opens with a run of pound marks and a space lexes, through
/// all three stages, to one pound token per mark and then a space token.
pub proof fn lemma_lex_pound_space(s: Seq<char>, n: int)
    requires
        1 <= n < s.len() <= usize::MAX,
        forall|k: int| 0 <= k < n ==> s[k] == '#',
        s[n as int] == ' ',
    ensures
        spec_lex(s).len() > n,
        forall|k: int| 0 <= k < n ==> (#[trigger] spec_lex(s)[k]).kind == TokenKind::Pound,
        spec_lex(s)[n as int].kind == TokenKind::Space,
{
    let raw = spec_lex_from(s, 0);
    lemma_lex_pound_prefix(s, 0, n);
    assert(forall|k: int|
        0 <= k <= n ==> (#[trigger] raw[k]).kind != TokenKind::Text && raw[k].kind
            != TokenKind::Break) by {
        assert(forall|k: int| 0 <= k < n ==> (#[trigger] raw[k]).kind == TokenKind::Pound);
    }
    let joined = spec_join_from(raw, 0);
    lemma_join_nontext_prefix(raw, 0, n);
    assert(forall|k: int|
        0 <= k <= n ==> (#[trigger] joined[k]).kind != TokenKind::Break) by {
        assert(forall|k: int| 0 <= k <= n ==> #[trigger] joined[k] == raw[k]);
    }
    lemma_cut_nonbreak_prefix(joined, 0, n);
    assert forall|k: int| 0 <= k < n implies (#[trigger] spec_lex(s)[k]).kind
        == TokenKind::Pound by {
        assert(spec_lex(s)[k] == joined[k]);
        assert(joined[k] == raw[k]);
    }
    assert(spec_lex(s)[n as int] == joined[n as int]);
    assert(joined[n as int] == raw[n as int]);
}

} // verus!
