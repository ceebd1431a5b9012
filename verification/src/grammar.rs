//! The grammar of the markup language, as functions over token sequences.
//!
//! These spec functions are the reference the executable parser is proved
//! against: utilities that trim and split token sequences, the indentation
//! arithmetic, and the one-line lookahead that judges whether a line starts
//! a new block.

use vstd::prelude::*;

use crate::config::{style_wf, IndentRule, IndentStyle};
use crate::token::{Token, TokenKind};

verus! {

/// Drop leading tokens of the given kind.
pub open spec fn spec_trim_start(ts: Seq<Token>, kind: TokenKind) -> Seq<Token>
    decreases ts.len(),
{
    if ts.len() > 0 && ts[0].kind == kind {
        spec_trim_start(ts.drop_first(), kind)
    } else {
        ts
    }
}

/// Drop trailing tokens of the given kind.
pub open spec fn spec_trim_end(ts: Seq<Token>, kind: TokenKind) -> Seq<Token>
    decreases ts.len(),
{
    if ts.len() > 0 && ts.last().kind == kind {
        spec_trim_end(ts.drop_last(), kind)
    } else {
        ts
    }
}

/// Drop tokens of the given kind from both ends.
pub open spec fn spec_trim(ts: Seq<Token>, kind: TokenKind) -> Seq<Token> {
    spec_trim_start(spec_trim_end(ts, kind), kind)
}

/// Whether a token kind is horizontal whitespace.
pub open spec fn is_ws(kind: TokenKind) -> bool {
    kind == TokenKind::Space || kind == TokenKind::Tab
}

/// Drop leading spaces and tabs.
pub open spec fn spec_trim_ws(ts: Seq<Token>) -> Seq<Token>
    decreases ts.len(),
{
    if ts.len() > 0 && is_ws(ts[0].kind) {
        spec_trim_ws(ts.drop_first())
    } else {
        ts
    }
}

/// The first index at or after `i` whose token has the given kind, or the
/// length of the sequence if there is none.
pub open spec fn find_kind(ts: Seq<Token>, kind: TokenKind, i: int) -> int
    decreases ts.len() - i,
{
    if i < 0 || i >= ts.len() {
        ts.len() as int
    } else if ts[i].kind == kind {
        i
    } else {
        find_kind(ts, kind, i + 1)
    }
}

/// The first index at or after `i` where two consecutive break tokens
/// stand, or the length of the sequence if there is none.
pub open spec fn find_double_break(ts: Seq<Token>, i: int) -> int
    decreases ts.len() - i,
{
    if i < 0 || i + 1 >= ts.len() {
        ts.len() as int
    } else if ts[i].kind == TokenKind::Break && ts[i + 1].kind == TokenKind::Break {
        i
    } else {
        find_double_break(ts, i + 1)
    }
}

/// Split off one line: the tokens before the first break, and the rest
/// after it (its leading breaks dropped when `trim` is set). Without any
/// break the whole sequence, its trailing breaks dropped, is the line.
pub open spec fn spec_get_line(ts: Seq<Token>, trim: bool) -> (Seq<Token>, Seq<Token>) {
    let b = find_kind(ts, TokenKind::Break, 0);
    if b >= ts.len() {
        (spec_trim_end(ts, TokenKind::Break), Seq::empty())
    } else {
        (
            ts.subrange(0, b),
            if trim {
                spec_trim_start(ts.subrange(b + 1, ts.len() as int), TokenKind::Break)
            } else {
                ts.subrange(b + 1, ts.len() as int)
            },
        )
    }
}

/// Split off one paragraph: the tokens before the first blank line (two
/// consecutive breaks), and the rest after it with its leading breaks
/// dropped. Without a blank line the whole sequence, its trailing breaks
/// dropped, is the paragraph.
pub open spec fn spec_get_paragraph(ts: Seq<Token>) -> (Seq<Token>, Seq<Token>) {
    let d = find_double_break(ts, 0);
    if d >= ts.len() {
        (spec_trim_end(ts, TokenKind::Break), Seq::empty())
    } else {
        (
            ts.subrange(0, d),
            spec_trim_start(ts.subrange(d + 2, ts.len() as int), TokenKind::Break),
        )
    }
}

/// Number of leading tokens of the given kind.
pub open spec fn lead_count(ts: Seq<Token>, kind: TokenKind, i: int) -> int
    decreases ts.len() - i,
{
    if i < 0 || i >= ts.len() || ts[i].kind != kind {
        0
    } else {
        1 + lead_count(ts, kind, i + 1)
    }
}

/// Number of leading space tokens in the leading whitespace run.
pub open spec fn lead_ws_spaces(ts: Seq<Token>, i: int) -> int
    decreases ts.len() - i,
{
    if i < 0 || i >= ts.len() || !is_ws(ts[i].kind) {
        0
    } else if ts[i].kind == TokenKind::Space {
        1 + lead_ws_spaces(ts, i + 1)
    } else {
        lead_ws_spaces(ts, i + 1)
    }
}

/// Number of leading tab tokens in the leading whitespace run.
pub open spec fn lead_ws_tabs(ts: Seq<Token>, i: int) -> int
    decreases ts.len() - i,
{
    if i < 0 || i >= ts.len() || !is_ws(ts[i].kind) {
        0
    } else if ts[i].kind == TokenKind::Tab {
        1 + lead_ws_tabs(ts, i + 1)
    } else {
        lead_ws_tabs(ts, i + 1)
    }
}

/// Indentation of a line under a style: whole units and the remainder.
///
/// A space style of width `n` counts leading spaces and divides by `n`; the
/// tab style counts leading tabs, one per unit; the combined style counts a
/// space as one and a tab as two over the whole leading whitespace run,
/// halves the total for units, and keeps the parity as remainder.
pub open spec fn spec_indent_level(ts: Seq<Token>, style: IndentStyle) -> (int, int) {
    match style {
        IndentStyle::Space(n) => {
            let c = lead_count(ts, TokenKind::Space, 0);
            if n > 0 {
                (c / (n as int), c % (n as int))
            } else {
                (0, 0)
            }
        },
        IndentStyle::Tab => (lead_count(ts, TokenKind::Tab, 0), 0),
        IndentStyle::Both => {
            let w = lead_ws_spaces(ts, 0) + 2 * lead_ws_tabs(ts, 0);
            (w / 2, w % 2)
        },
    }
}

/// Under the loose indent rule, drop the remainder of a line's indentation
/// before a marker test; the strict rule changes nothing.
pub open spec fn spec_align_indent(ts: Seq<Token>, style: IndentStyle, rule: IndentRule) -> Seq<
    Token,
> {
    match rule {
        IndentRule::Strict => ts,
        IndentRule::Loose => {
            let r = spec_indent_level(ts, style).1;
            if 0 <= r <= ts.len() {
                ts.subrange(r, ts.len() as int)
            } else {
                ts
            }
        },
    }
}

/// Strip one indent unit (and with `format`, the remainder too) from every
/// line of the sequence; lines at indentation zero pass unchanged.
pub open spec fn spec_reduce_indent(ts: Seq<Token>, style: IndentStyle, format: bool) -> Seq<Token>
    decreases ts.len(),
    via spec_reduce_indent_decreases
{
    if ts.len() == 0 {
        Seq::empty()
    } else {
        let line = spec_get_line(ts, false).0;
        let rest = spec_get_line(ts, false).1;
        let level = spec_indent_level(line, style).0;
        let rem = spec_indent_level(line, style).1;
        let cut = if level == 0 {
            0
        } else {
            match style {
                IndentStyle::Space(n) => if format {
                    n + rem
                } else {
                    n as int
                },
                IndentStyle::Tab => 1,
                IndentStyle::Both => if line.len() > 0 && line[0].kind == TokenKind::Space {
                    if format {
                        2 + rem
                    } else {
                        2
                    }
                } else {
                    1
                },
            }
        };
        let cut2 = if cut <= line.len() {
            cut
        } else {
            line.len() as int
        };
        let body = line.subrange(cut2, line.len() as int);
        let brk = if line.len() < ts.len() {
            seq![ts[line.len() as int]]
        } else {
            Seq::empty()
        };
        body + brk + spec_reduce_indent(rest, style, format)
    }
}

#[via_fn]
proof fn spec_reduce_indent_decreases(ts: Seq<Token>, style: IndentStyle, format: bool) {
    if ts.len() > 0 {
        lemma_get_line_len(ts, false);
    }
}

/// The digits zero through nine.
pub open spec fn is_digit_char(c: char) -> bool {
    '0' <= c && c <= '9'
}

/// Whether every character of the sequence is an ASCII digit.
pub open spec fn all_digits(s: Seq<char>) -> bool {
    forall|i: int| 0 <= i < s.len() ==> is_digit_char(#[trigger] s[i])
}

/// The characters of the source text that a token covers.
pub open spec fn token_chars(input: Seq<char>, t: Token) -> Seq<char> {
    input.subrange(t.start as int, t.start + t.len)
}

/// The headline level of a trimmed line: the number of leading pound
/// tokens, if it is between one and six and a space follows; zero
/// otherwise.
pub open spec fn spec_headline_level(ts: Seq<Token>) -> int {
    let p = lead_count(ts, TokenKind::Pound, 0);
    if 1 <= p <= 6 && p < ts.len() && ts[p].kind == TokenKind::Space {
        p
    } else {
        0
    }
}

/// The one-line lookahead: whether the tokens look like the start of a new
/// block. It recognizes a headline prefix, a leading quote mark, a bullet
/// marker, and an ordered marker whose text token is all digits; anything
/// else is judged a continuation.
pub open spec fn spec_maybe_block(input: Seq<char>, ts: Seq<Token>, trim: bool) -> bool {
    let ts1 = if trim {
        spec_trim_ws(ts)
    } else {
        ts
    };
    ||| spec_headline_level(spec_trim_ws(ts1)) != 0
    ||| (ts1.len() >= 1 && ts1[0].kind == TokenKind::Gt)
    ||| (ts1.len() >= 2 && ts1[0].kind == TokenKind::Hyphen && ts1[1].kind == TokenKind::Space)
    ||| (ts1.len() >= 3 && ts1[0].kind == TokenKind::Text && ts1[1].kind == TokenKind::Dot
        && ts1[2].kind == TokenKind::Space && all_digits(token_chars(input, ts1[0])))
}

/// Scan of the read-until lookahead over the trimmed prefix `[k, m)`: the
/// pair of cut positions (end of the front, start of the back), or none.
///
/// At each break, the scan stops if the tokens after it look like a block
/// start; otherwise, if a second break follows at once, it stops there and
/// the back begins after the pair; otherwise it goes on.
pub open spec fn until_cut(input: Seq<char>, ts: Seq<Token>, m: int, k: int) -> Option<(int, int)>
    decreases m - k,
{
    if k < 0 || k >= m {
        None
    } else if ts[k].kind == TokenKind::Break && spec_maybe_block(
        input,
        ts.subrange(k + 1, ts.len() as int),
        false,
    ) {
        Some((k, k + 1))
    } else if ts[k].kind == TokenKind::Break && ts[k + 1].kind == TokenKind::Break {
        Some((k, k + 2))
    } else {
        until_cut(input, ts, m, k + 1)
    }
}

/// Read until the next probable block item: the content before the cut and
/// the rest after it, both with their breaks at the seam trimmed.
pub open spec fn spec_get_until(input: Seq<char>, ts: Seq<Token>) -> (Seq<Token>, Seq<Token>) {
    let m = spec_trim_end(ts, TokenKind::Break).len() as int;
    match until_cut(input, ts, m, 0) {
        None => (spec_trim_end(ts, TokenKind::Break), Seq::empty()),
        Some((f, b)) => (
            spec_trim_end(ts.subrange(0, f), TokenKind::Break),
            spec_trim_start(ts.subrange(b, ts.len() as int), TokenKind::Break),
        ),
    }
}

/// Trimming drops tokens only: the result is never longer, and a trimmed
/// start is a suffix while a trimmed end is a prefix.
pub proof fn lemma_trim_start_len(ts: Seq<Token>, kind: TokenKind)
    ensures
        spec_trim_start(ts, kind).len() <= ts.len(),
        spec_trim_start(ts, kind) == ts.subrange(
            ts.len() - spec_trim_start(ts, kind).len(),
            ts.len() as int,
        ),
        spec_trim_start(ts, kind).len() > 0 ==> spec_trim_start(ts, kind)[0].kind != kind,
        forall|j: int|
            0 <= j < ts.len() - spec_trim_start(ts, kind).len() ==> (#[trigger] ts[j]).kind == kind,
    decreases ts.len(),
{
    if ts.len() > 0 && ts[0].kind == kind {
        lemma_trim_start_len(ts.drop_first(), kind);
        let r = spec_trim_start(ts, kind);
        assert(ts.drop_first().subrange(ts.drop_first().len() - r.len(), ts.drop_first().len() as int)
            =~= ts.subrange(ts.len() - r.len(), ts.len() as int));
        assert forall|j: int| 0 <= j < ts.len() - r.len() implies (#[trigger] ts[j]).kind
            == kind by {
            if j > 0 {
                assert(ts[j] == ts.drop_first()[j - 1]);
            }
        }
    } else {
        assert(spec_trim_start(ts, kind) =~= ts.subrange(0, ts.len() as int));
    }
}

pub proof fn lemma_trim_end_len(ts: Seq<Token>, kind: TokenKind)
    ensures
        spec_trim_end(ts, kind).len() <= ts.len(),
        spec_trim_end(ts, kind) == ts.subrange(0, spec_trim_end(ts, kind).len() as int),
        spec_trim_end(ts, kind).len() > 0 ==> spec_trim_end(ts, kind).last().kind != kind,
        forall|j: int|
            spec_trim_end(ts, kind).len() <= j < ts.len() ==> (#[trigger] ts[j]).kind == kind,
    decreases ts.len(),
{
    if ts.len() > 0 && ts.last().kind == kind {
        lemma_trim_end_len(ts.drop_last(), kind);
        let r = spec_trim_end(ts, kind);
        assert(ts.drop_last().subrange(0, r.len() as int) =~= ts.subrange(0, r.len() as int));
        assert forall|j: int| r.len() <= j < ts.len() implies (#[trigger] ts[j]).kind == kind by {
            if j < ts.len() - 1 {
                assert(ts[j] == ts.drop_last()[j]);
            }
        }
    } else {
        assert(spec_trim_end(ts, kind) =~= ts.subrange(0, ts.len() as int));
    }
}

pub proof fn lemma_trim_ws_len(ts: Seq<Token>)
    ensures
        spec_trim_ws(ts).len() <= ts.len(),
        spec_trim_ws(ts) == ts.subrange(ts.len() - spec_trim_ws(ts).len(), ts.len() as int),
        spec_trim_ws(ts).len() > 0 ==> !is_ws(spec_trim_ws(ts)[0].kind),
    decreases ts.len(),
{
    if ts.len() > 0 && is_ws(ts[0].kind) {
        lemma_trim_ws_len(ts.drop_first());
        let r = spec_trim_ws(ts);
        assert(ts.drop_first().subrange(ts.drop_first().len() - r.len(), ts.drop_first().len() as int)
            =~= ts.subrange(ts.len() - r.len(), ts.len() as int));
    } else {
        assert(spec_trim_ws(ts) =~= ts.subrange(0, ts.len() as int));
    }
}

/// Where `find_kind` points: inside `[i, len]`, at a token of the kind when
/// it is not at the end, and nowhere earlier.
pub proof fn lemma_find_kind(ts: Seq<Token>, kind: TokenKind, i: int)
    requires
        0 <= i <= ts.len(),
    ensures
        i <= find_kind(ts, kind, i) <= ts.len(),
        find_kind(ts, kind, i) < ts.len() ==> ts[find_kind(ts, kind, i)].kind == kind,
        forall|j: int| i <= j < find_kind(ts, kind, i) ==> (#[trigger] ts[j]).kind != kind,
    decreases ts.len() - i,
{
    if i < ts.len() && ts[i].kind != kind {
        lemma_find_kind(ts, kind, i + 1);
    }
}

pub proof fn lemma_find_double_break(ts: Seq<Token>, i: int)
    requires
        0 <= i <= ts.len(),
    ensures
        i <= find_double_break(ts, i) <= ts.len(),
        find_double_break(ts, i) < ts.len() ==> find_double_break(ts, i) + 1 < ts.len()
            && ts[find_double_break(ts, i)].kind == TokenKind::Break && ts[find_double_break(ts, i)
            + 1].kind == TokenKind::Break,
    decreases ts.len() - i,
{
    if i + 1 < ts.len() && !(ts[i].kind == TokenKind::Break && ts[i + 1].kind == TokenKind::Break) {
        lemma_find_double_break(ts, i + 1);
    }
}

/// A split line fits inside its sequence, and the rest is strictly shorter
/// whenever the sequence was not empty.
pub proof fn lemma_get_line_len(ts: Seq<Token>, trim: bool)
    ensures
        spec_get_line(ts, trim).0.len() <= ts.len(),
        spec_get_line(ts, trim).1.len() <= ts.len(),
        ts.len() > 0 ==> spec_get_line(ts, trim).1.len() < ts.len(),
{
    let b = find_kind(ts, TokenKind::Break, 0);
    lemma_find_kind(ts, TokenKind::Break, 0);
    if b >= ts.len() {
        lemma_trim_end_len(ts, TokenKind::Break);
    } else {
        if trim {
            lemma_trim_start_len(ts.subrange(b + 1, ts.len() as int), TokenKind::Break);
        }
    }
}

/// A split paragraph fits inside its sequence, and the rest is strictly
/// shorter whenever the sequence was not empty.
pub proof fn lemma_get_paragraph_len(ts: Seq<Token>)
    ensures
        spec_get_paragraph(ts).0.len() <= ts.len(),
        spec_get_paragraph(ts).1.len() <= ts.len(),
        ts.len() > 0 ==> spec_get_paragraph(ts).1.len() < ts.len(),
{
    let d = find_double_break(ts, 0);
    lemma_find_double_break(ts, 0);
    if d >= ts.len() {
        lemma_trim_end_len(ts, TokenKind::Break);
    } else {
        lemma_trim_start_len(ts.subrange(d + 2, ts.len() as int), TokenKind::Break);
    }
}

/// Leading counts stay within the sequence.
pub proof fn lemma_lead_count(ts: Seq<Token>, kind: TokenKind, i: int)
    requires
        0 <= i <= ts.len(),
    ensures
        0 <= lead_count(ts, kind, i) <= ts.len() - i,
        forall|j: int| i <= j < i + lead_count(ts, kind, i) ==> (#[trigger] ts[j]).kind == kind,
        i + lead_count(ts, kind, i) < ts.len() ==> ts[i + lead_count(ts, kind, i)].kind != kind,
    decreases ts.len() - i,
{
    if i < ts.len() && ts[i].kind == kind {
        lemma_lead_count(ts, kind, i + 1);
    }
}

pub proof fn lemma_lead_ws(ts: Seq<Token>, i: int)
    requires
        0 <= i <= ts.len(),
    ensures
        0 <= lead_ws_spaces(ts, i),
        0 <= lead_ws_tabs(ts, i),
        lead_ws_spaces(ts, i) + lead_ws_tabs(ts, i) <= ts.len() - i,
    decreases ts.len() - i,
{
    if i < ts.len() && is_ws(ts[i].kind) {
        lemma_lead_ws(ts, i + 1);
    }
}

/// The indentation level and remainder are not negative, and the remainder
/// never reaches past the line.
pub proof fn lemma_indent_level(ts: Seq<Token>, style: IndentStyle)
    ensures
        0 <= spec_indent_level(ts, style).0,
        0 <= spec_indent_level(ts, style).1 <= ts.len(),
{
    match style {
        IndentStyle::Space(n) => {
            lemma_lead_count(ts, TokenKind::Space, 0);
            let c = lead_count(ts, TokenKind::Space, 0);
            if n > 0 {
                assert(0 <= c % (n as int) <= c) by (nonlinear_arith)
                    requires
                        c >= 0,
                        n > 0,
                ;
                assert(0 <= c / (n as int)) by (nonlinear_arith)
                    requires
                        c >= 0,
                        n > 0,
                ;
            }
        },
        IndentStyle::Tab => {
            lemma_lead_count(ts, TokenKind::Tab, 0);
        },
        IndentStyle::Both => {
            lemma_lead_ws(ts, 0);
            let w = lead_ws_spaces(ts, 0) + 2 * lead_ws_tabs(ts, 0);
            if ts.len() == 0 {
                assert(w == 0);
            } else {
                assert(w % 2 <= 1);
            }
        },
    }
}

/// Alignment drops leading tokens only.
pub proof fn lemma_align_indent_len(ts: Seq<Token>, style: IndentStyle, rule: IndentRule)
    ensures
        spec_align_indent(ts, style, rule).len() <= ts.len(),
{
    lemma_indent_level(ts, style);
}

/// Indent reduction never lengthens a sequence.
pub proof fn lemma_reduce_indent_len(ts: Seq<Token>, style: IndentStyle, format: bool)
    ensures
        spec_reduce_indent(ts, style, format).len() <= ts.len(),
    decreases ts.len(),
{
    if ts.len() > 0 {
        let line = spec_get_line(ts, false).0;
        let rest = spec_get_line(ts, false).1;
        lemma_get_line_len(ts, false);
        lemma_reduce_indent_len(rest, style, format);
        let b = find_kind(ts, TokenKind::Break, 0);
        lemma_find_kind(ts, TokenKind::Break, 0);
        if b >= ts.len() {
            lemma_trim_end_len(ts, TokenKind::Break);
        }
    }
}

/// Where the scan cuts, the cut is a break inside the trimmed prefix and
/// the back starts past it, inside the sequence.
pub proof fn lemma_until_cut(input: Seq<char>, ts: Seq<Token>, m: int, k: int)
    requires
        0 <= k <= m,
        m == spec_trim_end(ts, TokenKind::Break).len(),
    ensures
        until_cut(input, ts, m, k) matches Some((f, b)) ==> k <= f < m && f + 1 <= b <= f + 2 && b
            <= ts.len() && ts[f].kind == TokenKind::Break,
    decreases m - k,
{
    lemma_trim_end_len(ts, TokenKind::Break);
    if 0 <= k < m {
        if ts[k].kind == TokenKind::Break && spec_maybe_block(
            input,
            ts.subrange(k + 1, ts.len() as int),
            false,
        ) {
        } else if ts[k].kind == TokenKind::Break && ts[k + 1].kind == TokenKind::Break {
            assert(spec_trim_end(ts, TokenKind::Break)[m - 1].kind != TokenKind::Break);
            assert(spec_trim_end(ts, TokenKind::Break)[m - 1] == ts[m - 1]);
            assert(k < m - 1);
        } else {
            lemma_until_cut(input, ts, m, k + 1);
        }
    }
}

/// What the read-until split returns fits inside its input, and the rest is
/// strictly shorter whenever the input was not empty.
pub proof fn lemma_get_until_len(input: Seq<char>, ts: Seq<Token>)
    ensures
        spec_get_until(input, ts).0.len() <= ts.len(),
        spec_get_until(input, ts).1.len() <= ts.len(),
        ts.len() > 0 ==> spec_get_until(input, ts).1.len() < ts.len(),
{
    let m = spec_trim_end(ts, TokenKind::Break).len() as int;
    lemma_trim_end_len(ts, TokenKind::Break);
    lemma_until_cut(input, ts, m, 0);
    match until_cut(input, ts, m, 0) {
        None => {},
        Some((f, b)) => {
            lemma_trim_end_len(ts.subrange(0, f), TokenKind::Break);
            lemma_trim_start_len(ts.subrange(b, ts.len() as int), TokenKind::Break);
        },
    }
}


/// Both parts of the read-until split together stay within the input.
pub proof fn lemma_get_until_sum(input: Seq<char>, ts: Seq<Token>)
    ensures
        spec_get_until(input, ts).0.len() + spec_get_until(input, ts).1.len() <= ts.len(),
{
    let m = spec_trim_end(ts, TokenKind::Break).len() as int;
    lemma_trim_end_len(ts, TokenKind::Break);
    lemma_until_cut(input, ts, m, 0);
    match until_cut(input, ts, m, 0) {
        None => {},
        Some((f, b)) => {
            lemma_trim_end_len(ts.subrange(0, f), TokenKind::Break);
            lemma_trim_start_len(ts.subrange(b, ts.len() as int), TokenKind::Break);
        },
    }
}

/// Split a list item's tokens into its label lines (the leading run of
/// nonempty lines at indentation zero) and the region of its children.
pub open spec fn spec_label_split(ts: Seq<Token>, style: IndentStyle) -> (Seq<Seq<Token>>, Seq<
    Token,
>)
    decreases ts.len(),
    via spec_label_split_decreases
{
    if ts.len() == 0 {
        (Seq::empty(), ts)
    } else {
        let line = spec_get_line(ts, false).0;
        let rest = spec_get_line(ts, false).1;
        if line.len() == 0 || spec_indent_level(line, style).0 != 0 {
            (Seq::empty(), ts)
        } else {
            let tail = spec_label_split(rest, style);
            (seq![line] + tail.0, tail.1)
        }
    }
}

#[via_fn]
proof fn spec_label_split_decreases(ts: Seq<Token>, style: IndentStyle) {
    if ts.len() > 0 {
        lemma_get_line_len(ts, false);
    }
}

/// The children region of a split item stays within the item.
pub proof fn lemma_label_split_len(ts: Seq<Token>, style: IndentStyle)
    ensures
        spec_label_split(ts, style).1.len() <= ts.len(),
        forall|k: int|
            0 <= k < spec_label_split(ts, style).0.len() ==> (#[trigger] spec_label_split(
                ts,
                style,
            ).0[k]).len() <= ts.len(),
    decreases ts.len(),
{
    if ts.len() > 0 {
        let line = spec_get_line(ts, false).0;
        let rest = spec_get_line(ts, false).1;
        lemma_get_line_len(ts, false);
        if !(line.len() == 0 || spec_indent_level(line, style).0 != 0) {
            lemma_label_split_len(rest, style);
            let tail = spec_label_split(rest, style);
            assert forall|k: int| 0 <= k < spec_label_split(ts, style).0.len() implies (
            #[trigger] spec_label_split(ts, style).0[k]).len() <= ts.len() by {
                if k > 0 {
                    assert(spec_label_split(ts, style).0[k] == tail.0[k - 1]);
                }
            }
        }
    }
}

/// Strip the quote marks off a run of quoted lines: the reassembled inner
/// token buffer, and the rest from the first line that does not start with
/// a quote mark.
///
/// A dequoted line that looks like a block start keeps its leading
/// whitespace, so nested markers stay aligned; any other line has it
/// trimmed.
pub open spec fn spec_dequote(input: Seq<char>, ts: Seq<Token>) -> (Seq<Token>, Seq<Token>)
    decreases ts.len(),
    via spec_dequote_decreases
{
    if ts.len() == 0 || ts[0].kind != TokenKind::Gt {
        (Seq::empty(), ts)
    } else {
        let sub = ts.subrange(1, ts.len() as int);
        let line = spec_get_line(sub, false).0;
        let rest = spec_get_line(sub, false).1;
        let line2 = if spec_maybe_block(input, line, true) {
            spec_align_indent(line, IndentStyle::Space(2), IndentRule::Loose)
        } else {
            spec_trim_start(line, TokenKind::Space)
        };
        let brk = if 1 + line.len() < ts.len() {
            seq![ts[1 + line.len() as int]]
        } else {
            Seq::empty()
        };
        let tail = spec_dequote(input, rest);
        (line2 + brk + tail.0, tail.1)
    }
}

#[via_fn]
proof fn spec_dequote_decreases(input: Seq<char>, ts: Seq<Token>) {
    if ts.len() > 0 && ts[0].kind == TokenKind::Gt {
        let sub = ts.subrange(1, ts.len() as int);
        lemma_get_line_len(sub, false);
    }
}

/// Dequoting consumes at least the quote marks: the inner buffer and the
/// rest together are shorter than the quoted run.
pub proof fn lemma_dequote_len(input: Seq<char>, ts: Seq<Token>)
    ensures
        spec_dequote(input, ts).0.len() + spec_dequote(input, ts).1.len() <= ts.len(),
        ts.len() > 0 && ts[0].kind == TokenKind::Gt ==> spec_dequote(input, ts).0.len()
            + spec_dequote(input, ts).1.len() < ts.len(),
    decreases ts.len(),
{
    if ts.len() > 0 && ts[0].kind == TokenKind::Gt {
        let sub = ts.subrange(1, ts.len() as int);
        let line = spec_get_line(sub, false).0;
        let rest = spec_get_line(sub, false).1;
        lemma_get_line_len(sub, false);
        lemma_dequote_len(input, rest);
        let line2 = if spec_maybe_block(input, line, true) {
            spec_align_indent(line, IndentStyle::Space(2), IndentRule::Loose)
        } else {
            spec_trim_start(line, TokenKind::Space)
        };
        if spec_maybe_block(input, line, true) {
            lemma_align_indent_len(line, IndentStyle::Space(2), IndentRule::Loose);
        } else {
            lemma_trim_start_len(line, TokenKind::Space);
        }
        let b = find_kind(sub, TokenKind::Break, 0);
        lemma_find_kind(sub, TokenKind::Break, 0);
        if b >= sub.len() {
            lemma_trim_end_len(sub, TokenKind::Break);
        }
    }
}

/// Combined length of a sequence of token regions.
pub open spec fn sum_lens(rs: Seq<Seq<Token>>) -> int
    decreases rs.len(),
{
    if rs.len() == 0 {
        0
    } else {
        rs[0].len() + sum_lens(rs.drop_first())
    }
}

pub proof fn lemma_sum_lens_bounds(rs: Seq<Seq<Token>>)
    ensures
        0 <= sum_lens(rs),
        forall|k: int| 0 <= k < rs.len() ==> (#[trigger] rs[k]).len() <= sum_lens(rs),
    decreases rs.len(),
{
    if rs.len() > 0 {
        lemma_sum_lens_bounds(rs.drop_first());
        assert forall|k: int| 0 <= k < rs.len() implies (#[trigger] rs[k]).len() <= sum_lens(
            rs,
        ) by {
            if k > 0 {
                assert(rs[k] == rs.drop_first()[k - 1]);
            }
        }
    }
}

/// Whether an aligned line carries a bullet marker: a hyphen, then a
/// space.
pub open spec fn bullet_marker(a: Seq<Token>) -> bool {
    a.len() >= 2 && a[0].kind == TokenKind::Hyphen && a[1].kind == TokenKind::Space
}

/// Whether an aligned line carries an ordered marker: a text token, a dot,
/// then a space. The digits of the text token are tested separately.
pub open spec fn ordered_marker(a: Seq<Token>) -> bool {
    a.len() >= 3 && a[0].kind == TokenKind::Text && a[1].kind == TokenKind::Dot && a[2].kind
        == TokenKind::Space
}

/// Whether the line aligned under the indent rule opens a list item of
/// the given kind: a hyphen and a space for a bullet item, or an
/// all-digits text token, a dot and a space for an ordered item.
pub open spec fn list_marker_at(
    input: Seq<char>,
    ts: Seq<Token>,
    style: IndentStyle,
    rule: IndentRule,
    ordered: bool,
) -> bool {
    let a = spec_align_indent(ts, style, rule);
    if ordered {
        ordered_marker(a) && all_digits(token_chars(input, a[0]))
    } else {
        bullet_marker(a)
    }
}

/// Scan a run of list items under the given marker: the body region of
/// each item, and the rest from where the run ends.
///
/// A line that does not carry the marker, or an item whose body is empty,
/// ends the run; what was matched before it stays matched.
pub open spec fn spec_list_scan(
    input: Seq<char>,
    ts: Seq<Token>,
    style: IndentStyle,
    rule: IndentRule,
    ordered: bool,
) -> (Seq<Seq<Token>>, Seq<Token>)
    decreases ts.len(), 1int,
{
    if ts.len() == 0 || !list_marker_at(input, ts, style, rule, ordered) {
        (Seq::empty(), ts)
    } else {
        spec_list_scan_step(
            input,
            ts,
            style,
            rule,
            ordered,
            if ordered {
                3
            } else {
                2
            },
        )
    }
}

/// One accepted list item: its body region read up to the next probable
/// block item, and the scan continued on what follows.
pub open spec fn spec_list_scan_step(
    input: Seq<char>,
    ts: Seq<Token>,
    style: IndentStyle,
    rule: IndentRule,
    ordered: bool,
    marker: int,
) -> (Seq<Seq<Token>>, Seq<Token>)
    decreases ts.len(), 0int,
    via spec_list_scan_step_decreases
{
    if 0 <= marker <= ts.len() {
        let region = spec_get_until(input, ts.subrange(marker, ts.len() as int)).0;
        let new_rest = spec_get_until(input, ts.subrange(marker, ts.len() as int)).1;
        if region.len() == 0 {
            (Seq::empty(), ts)
        } else {
            let tail = spec_list_scan(input, new_rest, style, rule, ordered);
            (seq![region] + tail.0, tail.1)
        }
    } else {
        (Seq::empty(), ts)
    }
}

#[via_fn]
proof fn spec_list_scan_step_decreases(
    input: Seq<char>,
    ts: Seq<Token>,
    style: IndentStyle,
    rule: IndentRule,
    ordered: bool,
    marker: int,
) {
    if 0 <= marker <= ts.len() {
        let sub = ts.subrange(marker, ts.len() as int);
        lemma_get_until_len(input, sub);
        if spec_get_until(input, sub).0.len() > 0 {
            assert(sub.len() > 0);
        }
    }
}

/// What a list scan returns fits inside its input: regions are nonempty
/// and disjoint, and once any item was read the rest is at least two
/// tokens shorter.
pub proof fn lemma_list_scan_len(
    input: Seq<char>,
    ts: Seq<Token>,
    style: IndentStyle,
    rule: IndentRule,
    ordered: bool,
)
    ensures
        ({
            let (rs, fr) = spec_list_scan(input, ts, style, rule, ordered);
            sum_lens(rs) + 2 * rs.len() + fr.len() <= ts.len() && (forall|k: int|
                0 <= k < rs.len() ==> (#[trigger] rs[k]).len() >= 1)
        }),
    decreases ts.len(),
{
    if ts.len() > 0 && list_marker_at(input, ts, style, rule, ordered) {
        let marker: int = if ordered {
            3
        } else {
            2
        };
        lemma_align_indent_len(ts, style, rule);
        if 0 <= marker <= ts.len() {
            let sub = ts.subrange(marker, ts.len() as int);
            let region = spec_get_until(input, sub).0;
            let new_rest = spec_get_until(input, sub).1;
            lemma_get_until_sum(input, sub);
            lemma_get_until_len(input, sub);
            lemma_list_scan_len(input, new_rest, style, rule, ordered);
            if region.len() > 0 {
                let (rs, fr) = spec_list_scan(input, new_rest, style, rule, ordered);
                assert((seq![region] + rs).drop_first() =~= rs);
                assert((seq![region] + rs)[0] == region);
                assert(sum_lens(seq![region] + rs) == region.len() + sum_lens(rs));
                assert forall|k: int|
                    0 <= k < (seq![region] + rs).len() implies (#[trigger] (seq![region]
                    + rs)[k]).len() >= 1 by {
                    if k > 0 {
                        assert((seq![region] + rs)[k] == rs[k - 1]);
                    }
                }
            }
        }
    }
}

/// Every token of a subrange is a token of the whole.
pub proof fn lemma_in_bounds_subrange(ts: Seq<Token>, n: nat, a: int, b: int)
    requires
        crate::token::tokens_in_bounds(ts, n),
        0 <= a <= b <= ts.len(),
    ensures
        crate::token::tokens_in_bounds(ts.subrange(a, b), n),
{
    assert forall|k: int| 0 <= k < b - a implies (#[trigger] ts.subrange(a, b)[k]).start
        + ts.subrange(a, b)[k].len <= n by {
        assert(ts.subrange(a, b)[k] == ts[a + k]);
    }
}


/// Tokens of two concatenated sequences inside a text stay inside it.
pub proof fn lemma_in_bounds_concat(a: Seq<Token>, b: Seq<Token>, n: nat)
    requires
        crate::token::tokens_in_bounds(a, n),
        crate::token::tokens_in_bounds(b, n),
    ensures
        crate::token::tokens_in_bounds(a + b, n),
{
    assert forall|k: int| 0 <= k < (a + b).len() implies (#[trigger] (a + b)[k]).start + (a
        + b)[k].len <= n by {
        if k < a.len() {
            assert((a + b)[k] == a[k]);
        } else {
            assert((a + b)[k] == b[k - a.len()]);
        }
    }
}

pub proof fn lemma_in_bounds_trim_start(ts: Seq<Token>, kind: TokenKind, n: nat)
    requires
        crate::token::tokens_in_bounds(ts, n),
    ensures
        crate::token::tokens_in_bounds(spec_trim_start(ts, kind), n),
{
    lemma_trim_start_len(ts, kind);
    lemma_in_bounds_subrange(ts, n, ts.len() - spec_trim_start(ts, kind).len(), ts.len() as int);
}

pub proof fn lemma_in_bounds_trim_end(ts: Seq<Token>, kind: TokenKind, n: nat)
    requires
        crate::token::tokens_in_bounds(ts, n),
    ensures
        crate::token::tokens_in_bounds(spec_trim_end(ts, kind), n),
{
    lemma_trim_end_len(ts, kind);
    lemma_in_bounds_subrange(ts, n, 0, spec_trim_end(ts, kind).len() as int);
}

pub proof fn lemma_in_bounds_trim_ws(ts: Seq<Token>, n: nat)
    requires
        crate::token::tokens_in_bounds(ts, n),
    ensures
        crate::token::tokens_in_bounds(spec_trim_ws(ts), n),
{
    lemma_trim_ws_len(ts);
    lemma_in_bounds_subrange(ts, n, ts.len() - spec_trim_ws(ts).len(), ts.len() as int);
}

pub proof fn lemma_in_bounds_get_line(ts: Seq<Token>, trim: bool, n: nat)
    requires
        crate::token::tokens_in_bounds(ts, n),
    ensures
        crate::token::tokens_in_bounds(spec_get_line(ts, trim).0, n),
        crate::token::tokens_in_bounds(spec_get_line(ts, trim).1, n),
{
    let b = find_kind(ts, TokenKind::Break, 0);
    lemma_find_kind(ts, TokenKind::Break, 0);
    if b >= ts.len() {
        lemma_in_bounds_trim_end(ts, TokenKind::Break, n);
        assert(crate::token::tokens_in_bounds(Seq::<Token>::empty(), n));
    } else {
        lemma_in_bounds_subrange(ts, n, 0, b);
        lemma_in_bounds_subrange(ts, n, b + 1, ts.len() as int);
        if trim {
            lemma_in_bounds_trim_start(
                ts.subrange(b + 1, ts.len() as int),
                TokenKind::Break,
                n,
            );
        }
    }
}

pub proof fn lemma_in_bounds_get_paragraph(ts: Seq<Token>, n: nat)
    requires
        crate::token::tokens_in_bounds(ts, n),
    ensures
        crate::token::tokens_in_bounds(spec_get_paragraph(ts).0, n),
        crate::token::tokens_in_bounds(spec_get_paragraph(ts).1, n),
{
    let d = find_double_break(ts, 0);
    lemma_find_double_break(ts, 0);
    if d >= ts.len() {
        lemma_in_bounds_trim_end(ts, TokenKind::Break, n);
        assert(crate::token::tokens_in_bounds(Seq::<Token>::empty(), n));
    } else {
        lemma_in_bounds_subrange(ts, n, 0, d);
        lemma_in_bounds_subrange(ts, n, d + 2, ts.len() as int);
        lemma_in_bounds_trim_start(ts.subrange(d + 2, ts.len() as int), TokenKind::Break, n);
    }
}

pub proof fn lemma_in_bounds_get_until(input: Seq<char>, ts: Seq<Token>, n: nat)
    requires
        crate::token::tokens_in_bounds(ts, n),
    ensures
        crate::token::tokens_in_bounds(spec_get_until(input, ts).0, n),
        crate::token::tokens_in_bounds(spec_get_until(input, ts).1, n),
{
    let m = spec_trim_end(ts, TokenKind::Break).len() as int;
    lemma_trim_end_len(ts, TokenKind::Break);
    lemma_until_cut(input, ts, m, 0);
    match until_cut(input, ts, m, 0) {
        None => {
            lemma_in_bounds_trim_end(ts, TokenKind::Break, n);
            assert(crate::token::tokens_in_bounds(Seq::<Token>::empty(), n));
        },
        Some((f, b)) => {
            lemma_in_bounds_subrange(ts, n, 0, f);
            lemma_in_bounds_trim_end(ts.subrange(0, f), TokenKind::Break, n);
            lemma_in_bounds_subrange(ts, n, b, ts.len() as int);
            lemma_in_bounds_trim_start(ts.subrange(b, ts.len() as int), TokenKind::Break, n);
        },
    }
}

pub proof fn lemma_in_bounds_align(ts: Seq<Token>, style: IndentStyle, rule: IndentRule, n: nat)
    requires
        crate::token::tokens_in_bounds(ts, n),
    ensures
        crate::token::tokens_in_bounds(spec_align_indent(ts, style, rule), n),
{
    match rule {
        IndentRule::Strict => {},
        IndentRule::Loose => {
            let r = spec_indent_level(ts, style).1;
            lemma_indent_level(ts, style);
            lemma_in_bounds_subrange(ts, n, r, ts.len() as int);
        },
    }
}

pub proof fn lemma_in_bounds_reduce(ts: Seq<Token>, style: IndentStyle, format: bool, n: nat)
    requires
        crate::token::tokens_in_bounds(ts, n),
    ensures
        crate::token::tokens_in_bounds(spec_reduce_indent(ts, style, format), n),
    decreases ts.len(),
{
    if ts.len() == 0 {
        assert(crate::token::tokens_in_bounds(Seq::<Token>::empty(), n));
    } else {
        let line = spec_get_line(ts, false).0;
        let rest = spec_get_line(ts, false).1;
        lemma_get_line_len(ts, false);
        lemma_in_bounds_get_line(ts, false, n);
        lemma_in_bounds_reduce(rest, style, format, n);
        let level = spec_indent_level(line, style).0;
        let rem = spec_indent_level(line, style).1;
        lemma_indent_level(line, style);
        let cut = if level == 0 {
            0
        } else {
            match style {
                IndentStyle::Space(m) => if format {
                    m + rem
                } else {
                    m as int
                },
                IndentStyle::Tab => 1,
                IndentStyle::Both => if line.len() > 0 && line[0].kind == TokenKind::Space {
                    if format {
                        2 + rem
                    } else {
                        2
                    }
                } else {
                    1
                },
            }
        };
        let cut2 = if cut <= line.len() {
            cut
        } else {
            line.len() as int
        };
        assert(0 <= cut2 <= line.len());
        lemma_in_bounds_subrange(line, n, cut2, line.len() as int);
        let body = line.subrange(cut2, line.len() as int);
        let brk = if line.len() < ts.len() {
            seq![ts[line.len() as int]]
        } else {
            Seq::<Token>::empty()
        };
        assert(crate::token::tokens_in_bounds(brk, n)) by {
            if line.len() < ts.len() {
                assert(brk[0] == ts[line.len() as int]);
            }
        }
        lemma_in_bounds_concat(body, brk, n);
        lemma_in_bounds_concat(body + brk, spec_reduce_indent(rest, style, format), n);
        assert((body + brk) + spec_reduce_indent(rest, style, format) =~= body + brk
            + spec_reduce_indent(rest, style, format));
    }
}

} // verus!
