//! Parser of tokens: a recursive descent over the normalized token stream.
//!
//! The grammar is total: the top level tries, in fixed order, headline,
//! bullet list, ordered list, blockquote, and paragraph as the catch-all;
//! a production that fails consumes nothing and the next one is tried.
//! The spec functions here state each production over token sequences, and
//! the executable parser is proved to return exactly what they describe.

use vstd::prelude::*;
use vstd::string::StringExecFns;
use vstd::string::StrSliceExecFns;

use crate::config::{style_wf, HeadlineEnding, IndentRule, IndentStyle, ParagraphEnding};
use crate::grammar::{
    all_digits, find_double_break, find_kind, is_digit_char, is_ws, lead_count, lead_ws_spaces,
    lead_ws_tabs, lemma_align_indent_len, lemma_dequote_len, lemma_find_double_break,
    lemma_find_kind, lemma_get_line_len, lemma_get_paragraph_len, lemma_get_until_len,
    lemma_in_bounds_align, lemma_in_bounds_concat,
    lemma_in_bounds_get_line, lemma_in_bounds_get_paragraph, lemma_in_bounds_get_until,
    lemma_in_bounds_reduce,
    lemma_in_bounds_subrange, lemma_in_bounds_trim_end, lemma_in_bounds_trim_start,
    lemma_in_bounds_trim_ws, lemma_indent_level, lemma_label_split_len, lemma_lead_count,
    lemma_lead_ws, lemma_list_scan_len, lemma_reduce_indent_len, lemma_sum_lens_bounds,
    lemma_trim_end_len, lemma_trim_start_len, lemma_trim_ws_len, bullet_marker, list_marker_at,
    ordered_marker, spec_align_indent, spec_dequote, spec_get_line, spec_get_paragraph, spec_get_until,
    spec_headline_level, spec_indent_level, spec_label_split, spec_list_scan, spec_maybe_block,
    spec_reduce_indent, spec_trim, spec_trim_end, spec_trim_start, spec_trim_ws, sum_lens,
    token_chars, until_cut,
};
use crate::token::{tokens_in_bounds, Token, TokenKind};
use crate::tree::{
    view_blocks, view_inlines, view_list_items, BlockItem, BlockTree, InlineItem, InlineTree,
    ListItem, ListTree, MarkdownTree, SpecBlock, SpecInline, SpecListItem,
};

verus! {

// ---------------------------------------------------------------------
// The inline grammar.
// ---------------------------------------------------------------------
/// The first index at or after `i` where two consecutive star tokens
/// stand, or the length of the sequence if there is none.
pub open spec fn find_star_pair(ts: Seq<Token>, i: int) -> int
    decreases ts.len() - i,
{
    if i < 0 || i + 1 >= ts.len() {
        ts.len() as int
    } else if ts[i].kind == TokenKind::Star && ts[i + 1].kind == TokenKind::Star {
        i
    } else {
        find_star_pair(ts, i + 1)
    }
}

pub proof fn lemma_find_star_pair(ts: Seq<Token>, i: int)
    requires
        0 <= i <= ts.len(),
    ensures
        i <= find_star_pair(ts, i) <= ts.len(),
        find_star_pair(ts, i) < ts.len() ==> find_star_pair(ts, i) + 1 < ts.len()
            && ts[find_star_pair(ts, i)].kind == TokenKind::Star && ts[find_star_pair(ts, i)
            + 1].kind == TokenKind::Star,
    decreases ts.len() - i,
{
    if i + 1 < ts.len() && !(ts[i].kind == TokenKind::Star && ts[i + 1].kind == TokenKind::Star) {
        lemma_find_star_pair(ts, i + 1);
    }
}

/// Whether a strong span opens here: two stars, with a closing star pair
/// somewhere after them.
pub open spec fn strong_matches(ts: Seq<Token>) -> bool {
    ts.len() >= 2 && ts[0].kind == TokenKind::Star && ts[1].kind == TokenKind::Star
        && find_star_pair(ts, 2) < ts.len()
}

/// Whether an italic span opens here: a star, with a closing star
/// somewhere after it.
pub open spec fn italic_matches(ts: Seq<Token>) -> bool {
    ts.len() >= 1 && ts[0].kind == TokenKind::Star && find_kind(ts, TokenKind::Star, 1) < ts.len()
}

/// Whether the next token begins anything but plain text: a strong or
/// italic span, or a line break.
pub open spec fn inline_special(ts: Seq<Token>) -> bool {
    strong_matches(ts) || italic_matches(ts) || (ts.len() > 0 && ts[0].kind == TokenKind::Break)
}

/// Number of leading tokens absorbed as plain text: the run ends where a
/// span or a break begins, or at the end of the tokens.
pub open spec fn inline_text_run(ts: Seq<Token>) -> int
    decreases ts.len(),
{
    if ts.len() == 0 || inline_special(ts) {
        0
    } else {
        1 + inline_text_run(ts.drop_first())
    }
}

pub proof fn lemma_inline_text_run(ts: Seq<Token>)
    ensures
        0 <= inline_text_run(ts) <= ts.len(),
        ts.len() > 0 && !inline_special(ts) ==> inline_text_run(ts) >= 1,
    decreases ts.len(),
{
    if ts.len() > 0 && !inline_special(ts) {
        lemma_inline_text_run(ts.drop_first());
    }
}

/// The text covered by a run of tokens, concatenated in order.
pub open spec fn tokens_text(input: Seq<char>, ts: Seq<Token>) -> Seq<char>
    decreases ts.len(),
{
    if ts.len() == 0 {
        Seq::empty()
    } else {
        token_chars(input, ts[0]) + tokens_text(input, ts.drop_first())
    }
}

/// The inline tree of a token sequence: strong spans first, then italic
/// spans, each against the nearest closer and parsed recursively; a break
/// token becomes a break item; everything else joins the running text.
pub open spec fn spec_inline_items(input: Seq<char>, ts: Seq<Token>) -> Seq<SpecInline>
    decreases ts.len(),
    via spec_inline_items_decreases
{
    if ts.len() == 0 {
        Seq::empty()
    } else if strong_matches(ts) {
        let j = find_star_pair(ts, 2);
        seq![SpecInline::Strong(spec_inline_items(input, ts.subrange(2, j)))] + spec_inline_items(
            input,
            ts.subrange(j + 2, ts.len() as int),
        )
    } else if italic_matches(ts) {
        let j = find_kind(ts, TokenKind::Star, 1);
        seq![SpecInline::Italic(spec_inline_items(input, ts.subrange(1, j)))] + spec_inline_items(
            input,
            ts.subrange(j + 1, ts.len() as int),
        )
    } else if ts[0].kind == TokenKind::Break {
        seq![SpecInline::Break] + spec_inline_items(input, ts.drop_first())
    } else {
        let r = inline_text_run(ts);
        seq![SpecInline::Text(tokens_text(input, ts.subrange(0, r)))] + spec_inline_items(
            input,
            ts.subrange(r, ts.len() as int),
        )
    }
}

#[via_fn]
proof fn spec_inline_items_decreases(input: Seq<char>, ts: Seq<Token>) {
    if ts.len() > 0 {
        if strong_matches(ts) {
            lemma_find_star_pair(ts, 2);
        } else if italic_matches(ts) {
            lemma_find_kind(ts, TokenKind::Star, 1);
        } else if ts[0].kind != TokenKind::Break {
            lemma_inline_text_run(ts);
        }
    }
}

/// The label of a list item: its lines' inline trees, joined with break
/// items.
pub open spec fn spec_label(input: Seq<char>, lines: Seq<Seq<Token>>) -> Seq<SpecInline>
    decreases lines.len(),
{
    if lines.len() == 0 {
        Seq::empty()
    } else if lines.len() == 1 {
        spec_inline_items(input, lines[0])
    } else {
        spec_inline_items(input, lines[0]) + seq![SpecInline::Break] + spec_label(
            input,
            lines.drop_first(),
        )
    }
}

// ---------------------------------------------------------------------
// The configuration and the simple productions.
// ---------------------------------------------------------------------
/// Parser of tokens.
///
/// This struct carries the configuration of the grammar variants: how a
/// paragraph and a headline end, and the indent rule and style of lists.
#[derive(Debug, Clone, Copy)]
pub struct Parser {
    /// Whether a paragraph may be ended by a single line break before
    /// another block element, or only by a blank line.
    pub paragraph_ending: ParagraphEnding,
    /// Whether a headline takes one line, takes lines until a probable
    /// block item, or takes a full paragraph.
    pub headline_ending: HeadlineEnding,
    /// Whether list indentation must match exactly or may be normalized.
    pub list_indent_rule: IndentRule,
    /// The unit of indentation recognized for list nesting.
    pub list_indent_style: IndentStyle,
}

/// A well-formed configuration: the indent style must be usable.
pub open spec fn config_wf(cfg: Parser) -> bool {
    style_wf(cfg.list_indent_style)
}

/// The headline production: after trimming leading whitespace, count
/// leading pound tokens; between one and six of them followed by a space
/// give the level, and the content after the marker is read according to
/// the configured headline ending. Anything else fails.
pub open spec fn spec_headline(cfg: Parser, input: Seq<char>, ts: Seq<Token>) -> Option<
    (SpecBlock, Seq<Token>),
> {
    let tts = spec_trim_ws(ts);
    let level = spec_headline_level(tts);
    if level == 0 {
        None
    } else {
        let content = spec_trim_start(
            tts.subrange(level, tts.len() as int),
            TokenKind::Space,
        );
        let split = match cfg.headline_ending {
            HeadlineEnding::SoftBreak => spec_get_line(content, true),
            HeadlineEnding::AllowSoftBreak => spec_get_until(input, content),
            HeadlineEnding::HardBreak => spec_get_paragraph(content),
        };
        Some((SpecBlock::Headline(level as u8, spec_inline_items(input, split.0)), split.1))
    }
}

/// The paragraph production, the catch-all: it always succeeds, reading a
/// full paragraph or reading until a probable block item, as configured.
pub open spec fn spec_paragraph(cfg: Parser, input: Seq<char>, ts: Seq<Token>) -> (
    SpecBlock,
    Seq<Token>,
) {
    let split = match cfg.paragraph_ending {
        ParagraphEnding::HardBreak => spec_get_paragraph(ts),
        ParagraphEnding::AllowSoftBreak => spec_get_until(input, ts),
    };
    (SpecBlock::Paragraph(spec_inline_items(input, split.0)), split.1)
}

/// A successful headline leaves a strictly shorter rest.
pub proof fn lemma_headline_rest(cfg: Parser, input: Seq<char>, ts: Seq<Token>)
    ensures
        spec_headline(cfg, input, ts) matches Some((item, rest)) ==> rest.len() < ts.len(),
{
    let tts = spec_trim_ws(ts);
    let level = spec_headline_level(tts);
    lemma_trim_ws_len(ts);
    if level != 0 {
        lemma_lead_count(tts, TokenKind::Pound, 0);
        let content = spec_trim_start(
            tts.subrange(level, tts.len() as int),
            TokenKind::Space,
        );
        lemma_trim_start_len(tts.subrange(level, tts.len() as int), TokenKind::Space);
        assert(content.len() <= tts.len() - level);
        lemma_get_line_len(content, true);
        lemma_get_until_len(input, content);
        lemma_get_paragraph_len(content);
    }
}

/// The paragraph production always makes progress on nonempty tokens.
pub proof fn lemma_paragraph_rest(cfg: Parser, input: Seq<char>, ts: Seq<Token>)
    ensures
        ts.len() > 0 ==> spec_paragraph(cfg, input, ts).1.len() < ts.len(),
{
    lemma_get_paragraph_len(ts);
    lemma_get_until_len(input, ts);
}

/// The regions and rest of a bullet list here, or nothing if the marker
/// does not match at the head or the scan yields no item.
pub open spec fn spec_bullet_split(cfg: Parser, input: Seq<char>, ts: Seq<Token>) -> Option<
    (Seq<Seq<Token>>, Seq<Token>),
> {
    if !list_marker_at(input, ts, cfg.list_indent_style, cfg.list_indent_rule, false) {
        None
    } else {
        let (rs, fr) = spec_list_scan(input, ts, cfg.list_indent_style, cfg.list_indent_rule, false);
        if rs.len() == 0 {
            None
        } else {
            Some((rs, fr))
        }
    }
}

/// The regions and rest of an ordered list here, or nothing if the marker
/// (its text token all digits) does not match at the head or the scan
/// yields no item.
pub open spec fn spec_ordered_split(cfg: Parser, input: Seq<char>, ts: Seq<Token>) -> Option<
    (Seq<Seq<Token>>, Seq<Token>),
> {
    if !list_marker_at(input, ts, cfg.list_indent_style, cfg.list_indent_rule, true) {
        None
    } else {
        let (rs, fr) = spec_list_scan(input, ts, cfg.list_indent_style, cfg.list_indent_rule, true);
        if rs.len() == 0 {
            None
        } else {
            Some((rs, fr))
        }
    }
}

// ---------------------------------------------------------------------
// The block grammar.
// ---------------------------------------------------------------------
/// The block tree of a token sequence: while tokens remain, the first of
/// headline, bullet list, ordered list and blockquote to succeed produces
/// the next item, with the paragraph as the catch-all, and parsing
/// continues on what it left.
pub open spec fn spec_block_items(cfg: Parser, input: Seq<char>, ts: Seq<Token>) -> Seq<SpecBlock>
    decreases ts.len(), 1int,
    via spec_block_items_decreases
{
    if ts.len() == 0 {
        Seq::empty()
    } else {
        match spec_headline(cfg, input, ts) {
            Some((item, rest)) => seq![item] + spec_block_items(cfg, input, rest),
            None => match spec_bullet_split(cfg, input, ts) {
                Some((rs, fr)) => seq![
                    SpecBlock::BulletList(spec_list_items_of(cfg, input, rs)),
                ] + spec_block_items(cfg, input, fr),
                None => match spec_ordered_split(cfg, input, ts) {
                    Some((rs, fr)) => seq![
                        SpecBlock::OrderedList(spec_list_items_of(cfg, input, rs)),
                    ] + spec_block_items(cfg, input, fr),
                    None => if ts[0].kind == TokenKind::Gt {
                        seq![
                            SpecBlock::BlockQuote(
                                spec_block_items(cfg, input, spec_dequote(input, ts).0),
                            ),
                        ] + spec_block_items(cfg, input, spec_dequote(input, ts).1)
                    } else {
                        seq![spec_paragraph(cfg, input, ts).0] + spec_block_items(
                            cfg,
                            input,
                            spec_paragraph(cfg, input, ts).1,
                        )
                    },
                },
            },
        }
    }
}

#[via_fn]
proof fn spec_block_items_decreases(cfg: Parser, input: Seq<char>, ts: Seq<Token>) {
    if ts.len() > 0 {
        lemma_headline_rest(cfg, input, ts);
        lemma_paragraph_rest(cfg, input, ts);
        lemma_list_scan_len(input, ts, cfg.list_indent_style, cfg.list_indent_rule, false);
        lemma_list_scan_len(input, ts, cfg.list_indent_style, cfg.list_indent_rule, true);
        lemma_dequote_len(input, ts);
        match spec_bullet_split(cfg, input, ts) {
            Some((rs, fr)) => {
                lemma_sum_lens_bounds(rs);
            },
            None => {},
        }
        match spec_ordered_split(cfg, input, ts) {
            Some((rs, fr)) => {
                lemma_sum_lens_bounds(rs);
            },
            None => {},
        }
    }
}

/// The list items of a sequence of item regions.
pub open spec fn spec_list_items_of(cfg: Parser, input: Seq<char>, rs: Seq<Seq<Token>>) -> Seq<
    SpecListItem,
>
    decreases sum_lens(rs) + rs.len(), 0int,
    via spec_list_items_of_decreases
{
    if rs.len() == 0 {
        Seq::empty()
    } else {
        seq![spec_list_item(cfg, input, rs[0])] + spec_list_items_of(cfg, input, rs.drop_first())
    }
}

#[via_fn]
proof fn spec_list_items_of_decreases(cfg: Parser, input: Seq<char>, rs: Seq<Seq<Token>>) {
    if rs.len() > 0 {
        lemma_sum_lens_bounds(rs);
        lemma_sum_lens_bounds(rs.drop_first());
        assert(sum_lens(rs) == rs[0].len() + sum_lens(rs.drop_first()));
    }
}

/// One list item from its body region: the leading zero-indent lines form
/// the label, and everything after them, reduced by one indent unit with
/// the remainder dropped, is parsed as the item's child blocks.
pub open spec fn spec_list_item(cfg: Parser, input: Seq<char>, ts: Seq<Token>) -> SpecListItem
    decreases ts.len(), 2int,
    via spec_list_item_decreases
{
    let lines = spec_label_split(ts, cfg.list_indent_style).0;
    let crest = spec_label_split(ts, cfg.list_indent_style).1;
    SpecListItem {
        name: spec_label(input, lines),
        children: spec_block_items(
            cfg,
            input,
            spec_reduce_indent(crest, cfg.list_indent_style, true),
        ),
    }
}

#[via_fn]
proof fn spec_list_item_decreases(cfg: Parser, input: Seq<char>, ts: Seq<Token>) {
    lemma_label_split_len(ts, cfg.list_indent_style);
    let crest = spec_label_split(ts, cfg.list_indent_style).1;
    lemma_reduce_indent_len(crest, cfg.list_indent_style, true);
}

// ---------------------------------------------------------------------
// The productions as trial functions, and one parsing step.
// ---------------------------------------------------------------------
/// The bullet list production.
pub open spec fn spec_bullet_list(cfg: Parser, input: Seq<char>, ts: Seq<Token>) -> Option<
    (SpecBlock, Seq<Token>),
> {
    match spec_bullet_split(cfg, input, ts) {
        None => None,
        Some((rs, fr)) => Some((SpecBlock::BulletList(spec_list_items_of(cfg, input, rs)), fr)),
    }
}

/// The ordered list production.
pub open spec fn spec_ordered_list(cfg: Parser, input: Seq<char>, ts: Seq<Token>) -> Option<
    (SpecBlock, Seq<Token>),
> {
    match spec_ordered_split(cfg, input, ts) {
        None => None,
        Some((rs, fr)) => Some((SpecBlock::OrderedList(spec_list_items_of(cfg, input, rs)), fr)),
    }
}

/// The blockquote production: it succeeds exactly on a leading quote mark,
/// parsing the dequoted lines as a nested block tree.
pub open spec fn spec_blockquote(cfg: Parser, input: Seq<char>, ts: Seq<Token>) -> Option<
    (SpecBlock, Seq<Token>),
> {
    if ts.len() > 0 && ts[0].kind == TokenKind::Gt {
        Some(
            (
                SpecBlock::BlockQuote(spec_block_items(cfg, input, spec_dequote(input, ts).0)),
                spec_dequote(input, ts).1,
            ),
        )
    } else {
        None
    }
}

/// The non-paragraph productions, tried in their fixed order.
pub open spec fn spec_not_paragraph(cfg: Parser, input: Seq<char>, ts: Seq<Token>) -> Option<
    (SpecBlock, Seq<Token>),
> {
    match spec_headline(cfg, input, ts) {
        Some(p) => Some(p),
        None => match spec_bullet_list(cfg, input, ts) {
            Some(p) => Some(p),
            None => match spec_ordered_list(cfg, input, ts) {
                Some(p) => Some(p),
                None => spec_blockquote(cfg, input, ts),
            },
        },
    }
}

/// One step of the block grammar: on nonempty tokens, the block tree is
/// the item of the first successful production, followed by the tree of
/// what it left, which is strictly shorter.
pub proof fn lemma_block_items_step(cfg: Parser, input: Seq<char>, ts: Seq<Token>)
    requires
        ts.len() > 0,
    ensures
        match spec_not_paragraph(cfg, input, ts) {
            Some((item, rest)) => spec_block_items(cfg, input, ts) == seq![item]
                + spec_block_items(cfg, input, rest) && rest.len() < ts.len(),
            None => spec_block_items(cfg, input, ts) == seq![spec_paragraph(cfg, input, ts).0]
                + spec_block_items(cfg, input, spec_paragraph(cfg, input, ts).1)
                && spec_paragraph(cfg, input, ts).1.len() < ts.len(),
        },
{
    lemma_headline_rest(cfg, input, ts);
    lemma_paragraph_rest(cfg, input, ts);
    lemma_list_scan_len(input, ts, cfg.list_indent_style, cfg.list_indent_rule, false);
    lemma_list_scan_len(input, ts, cfg.list_indent_style, cfg.list_indent_rule, true);
    lemma_dequote_len(input, ts);
    match spec_headline(cfg, input, ts) {
        Some((item, rest)) => {
            assert(spec_block_items(cfg, input, ts) == seq![item] + spec_block_items(
                cfg,
                input,
                rest,
            ));
        },
        None => {
            match spec_bullet_split(cfg, input, ts) {
                Some((rs, fr)) => {
                    lemma_sum_lens_bounds(rs);
                    assert(spec_not_paragraph(cfg, input, ts) == Some(
                        (SpecBlock::BulletList(spec_list_items_of(cfg, input, rs)), fr),
                    ));
                },
                None => {
                    match spec_ordered_split(cfg, input, ts) {
                        Some((rs, fr)) => {
                            lemma_sum_lens_bounds(rs);
                            assert(spec_not_paragraph(cfg, input, ts) == Some(
                                (SpecBlock::OrderedList(spec_list_items_of(cfg, input, rs)), fr),
                            ));
                        },
                        None => {
                            if ts[0].kind == TokenKind::Gt {
                                assert(spec_not_paragraph(cfg, input, ts) == spec_blockquote(
                                    cfg,
                                    input,
                                    ts,
                                ));
                            } else {
                                assert(spec_not_paragraph(cfg, input, ts) is None);
                            }
                        },
                    }
                },
            }
        },
    }
}


/// The default configuration: hard breaks end paragraphs and headlines,
/// and lists indent strictly by two spaces.
pub open spec fn default_config() -> Parser {
    Parser {
        paragraph_ending: ParagraphEnding::HardBreak,
        headline_ending: HeadlineEnding::HardBreak,
        list_indent_rule: IndentRule::Strict,
        list_indent_style: IndentStyle::Space(2),
    }
}

impl Default for Parser {
    /// The default configuration.
    fn default() -> (r: Self)
        ensures
            r == default_config(),
    {
        Parser {
            paragraph_ending: ParagraphEnding::HardBreak,
            headline_ending: HeadlineEnding::HardBreak,
            list_indent_rule: IndentRule::Strict,
            list_indent_style: IndentStyle::Space(2),
        }
    }
}

impl Parser {
    /// Create a parser with the default configuration.
    pub fn new() -> (r: Self)
        ensures
            r == default_config(),
    {
        Self::default()
    }

    /// Set the ending of a paragraph.
    pub fn paragraph_ending(self, ending: ParagraphEnding) -> (r: Self)
        ensures
            r == (Parser { paragraph_ending: ending, ..self }),
    {
        Parser { paragraph_ending: ending, ..self }
    }

    /// Set the ending of a headline.
    pub fn headline_ending(self, ending: HeadlineEnding) -> (r: Self)
        ensures
            r == (Parser { headline_ending: ending, ..self }),
    {
        Parser { headline_ending: ending, ..self }
    }

    /// Set the indent rule of lists.
    pub fn list_indent_rule(self, rule: IndentRule) -> (r: Self)
        ensures
            r == (Parser { list_indent_rule: rule, ..self }),
    {
        Parser { list_indent_rule: rule, ..self }
    }

    /// Set the indent style of lists.
    pub fn list_indent_style(self, style: IndentStyle) -> (r: Self)
        ensures
            r == (Parser { list_indent_style: style, ..self }),
    {
        Parser { list_indent_style: style, ..self }
    }

    /// Set the indent style of everything; at present only lists indent.
    pub fn indent_style(self, style: IndentStyle) -> (r: Self)
        ensures
            r == (Parser { list_indent_style: style, ..self }),
    {
        Parser { list_indent_style: style, ..self }
    }
}

/// Executor of the parser: the source text together with the
/// configuration, over which the productions run.
pub struct Executor {
    input: String,
    config: Parser,
}

impl Executor {
    /// The source text as characters.
    pub closed spec fn text(&self) -> Seq<char> {
        self.input@
    }

    /// The configuration the executor parses under.
    pub closed spec fn cfg(&self) -> Parser {
        self.config
    }

    /// A usable executor: the configuration is well-formed and the text
    /// fits the machine.
    pub closed spec fn wf(&self) -> bool {
        config_wf(self.config) && self.input@.len() <= usize::MAX
    }

    /// Create an executor with the default configuration.
    pub fn new(input: &str) -> (r: Self)
        ensures
            r.text() == input@,
            r.cfg() == default_config(),
            r.wf(),
    {
        Self::with_config(input, Parser::new())
    }

    /// Create an executor with the given configuration.
    pub fn with_config(input: &str, config: Parser) -> (r: Self)
        requires
            config_wf(config),
        ensures
            r.text() == input@,
            r.cfg() == config,
            r.wf(),
    {
        let owned = String::from_str(input);
        let n = owned.as_str().unicode_len();
        Executor { input: owned, config }
    }

    /// Trim tokens of one kind from the start.
    pub fn trim_start<'b>(tokens: &'b [Token], kind: TokenKind) -> (r: &'b [Token])
        ensures
            r@ == spec_trim_start(tokens@, kind),
    {
        let ghost ts = tokens@;
        let n = tokens.len();
        let mut i: usize = 0;
        proof {
            assert(ts.subrange(0, n as int) =~= ts);
        }
        while i < n && tokens[i].kind == kind
            invariant
                ts == tokens@,
                n == ts.len(),
                0 <= i <= n,
                spec_trim_start(ts, kind) == spec_trim_start(ts.subrange(i as int, n as int), kind),
            decreases n - i,
        {
            proof {
                assert(ts.subrange(i as int, n as int).drop_first() =~= ts.subrange(
                    i + 1,
                    n as int,
                ));
            }
            i = i + 1;
        }
        proof {
            assert(spec_trim_start(ts.subrange(i as int, n as int), kind) == ts.subrange(
                i as int,
                n as int,
            ));
        }
        &tokens[i..n]
    }

    /// Trim tokens of one kind from the end.
    pub fn trim_end<'b>(tokens: &'b [Token], kind: TokenKind) -> (r: &'b [Token])
        ensures
            r@ == spec_trim_end(tokens@, kind),
    {
        let ghost ts = tokens@;
        let n = tokens.len();
        let mut j: usize = n;
        proof {
            assert(ts.subrange(0, n as int) =~= ts);
        }
        while j > 0 && tokens[j - 1].kind == kind
            invariant
                ts == tokens@,
                n == ts.len(),
                0 <= j <= n,
                spec_trim_end(ts, kind) == spec_trim_end(ts.subrange(0, j as int), kind),
            decreases j,
        {
            proof {
                assert(ts.subrange(0, j as int).last() == ts[j - 1]);
                assert(ts.subrange(0, j as int).drop_last() =~= ts.subrange(0, j - 1));
            }
            j = j - 1;
        }
        proof {
            assert(spec_trim_end(ts.subrange(0, j as int), kind) == ts.subrange(0, j as int));
        }
        &tokens[0..j]
    }

    /// Trim tokens of one kind from both ends.
    pub fn trim<'b>(tokens: &'b [Token], kind: TokenKind) -> (r: &'b [Token])
        ensures
            r@ == spec_trim(tokens@, kind),
    {
        Self::trim_start(Self::trim_end(tokens, kind), kind)
    }

    /// Trim spaces and tabs from the start.
    pub fn trim_white_spaces<'b>(tokens: &'b [Token]) -> (r: &'b [Token])
        ensures
            r@ == spec_trim_ws(tokens@),
    {
        let ghost ts = tokens@;
        let n = tokens.len();
        let mut i: usize = 0;
        proof {
            assert(ts.subrange(0, n as int) =~= ts);
        }
        while i < n && (tokens[i].kind == TokenKind::Space || tokens[i].kind == TokenKind::Tab)
            invariant
                ts == tokens@,
                n == ts.len(),
                0 <= i <= n,
                spec_trim_ws(ts) == spec_trim_ws(ts.subrange(i as int, n as int)),
            decreases n - i,
        {
            proof {
                assert(ts.subrange(i as int, n as int).drop_first() =~= ts.subrange(
                    i + 1,
                    n as int,
                ));
            }
            i = i + 1;
        }
        proof {
            assert(spec_trim_ws(ts.subrange(i as int, n as int)) == ts.subrange(i as int, n as int));
        }
        &tokens[i..n]
    }

    /// Split off one line, up to the next break token.
    pub fn get_line<'b>(tokens: &'b [Token], trim: bool) -> (r: (&'b [Token], &'b [Token]))
        ensures
            r.0@ == spec_get_line(tokens@, trim).0,
            r.1@ == spec_get_line(tokens@, trim).1,
    {
        let ghost ts = tokens@;
        let n = tokens.len();
        let mut b: usize = 0;
        while b < n && tokens[b].kind != TokenKind::Break
            invariant
                ts == tokens@,
                n == ts.len(),
                0 <= b <= n,
                find_kind(ts, TokenKind::Break, 0) == find_kind(ts, TokenKind::Break, b as int),
            decreases n - b,
        {
            b = b + 1;
        }
        proof {
            assert(find_kind(ts, TokenKind::Break, 0) == b);
        }
        if b >= n {
            (Self::trim_end(tokens, TokenKind::Break), &tokens[n..n])
        } else {
            let rest = &tokens[b + 1..n];
            if trim {
                (&tokens[0..b], Self::trim_start(rest, TokenKind::Break))
            } else {
                (&tokens[0..b], rest)
            }
        }
    }

    /// Split off one paragraph, up to the next blank line.
    pub fn get_paragraph<'b>(tokens: &'b [Token]) -> (r: (&'b [Token], &'b [Token]))
        ensures
            r.0@ == spec_get_paragraph(tokens@).0,
            r.1@ == spec_get_paragraph(tokens@).1,
    {
        let ghost ts = tokens@;
        let n = tokens.len();
        let mut d: usize = 0;
        while d < n && d + 1 < n && !(tokens[d].kind == TokenKind::Break && tokens[d + 1].kind
            == TokenKind::Break)
            invariant
                ts == tokens@,
                n == ts.len(),
                0 <= d <= n,
                find_double_break(ts, 0) == find_double_break(ts, d as int),
            decreases n - d,
        {
            d = d + 1;
        }
        proof {
            lemma_find_double_break(ts, d as int);
            if d >= n || d + 1 >= n {
                assert(find_double_break(ts, d as int) == n);
            } else {
                assert(find_double_break(ts, d as int) == d);
            }
        }
        if d >= n || d + 1 >= n {
            (Self::trim_end(tokens, TokenKind::Break), &tokens[n..n])
        } else {
            (
                &tokens[0..d],
                Self::trim_start(&tokens[d + 2..n], TokenKind::Break),
            )
        }
    }

    /// Count the indentation of a line under a style: whole units and the
    /// remainder.
    pub fn indent_level(tokens: &[Token], style: IndentStyle) -> (r: (usize, usize))
        requires
            style_wf(style),
        ensures
            r.0 as int == spec_indent_level(tokens@, style).0,
            r.1 as int == spec_indent_level(tokens@, style).1,
    {
        let ghost ts = tokens@;
        let n = tokens.len();
        match style {
            IndentStyle::Space(u) => {
                let mut c: usize = 0;
                while c < n && tokens[c].kind == TokenKind::Space
                    invariant
                        ts == tokens@,
                        n == ts.len(),
                        0 <= c <= n,
                        lead_count(ts, TokenKind::Space, 0) == c + lead_count(
                            ts,
                            TokenKind::Space,
                            c as int,
                        ),
                    decreases n - c,
                {
                    c = c + 1;
                }
                proof {
                    assert(lead_count(ts, TokenKind::Space, c as int) == 0);
                }
                (c / (u as usize), c % (u as usize))
            },
            IndentStyle::Tab => {
                let mut c: usize = 0;
                while c < n && tokens[c].kind == TokenKind::Tab
                    invariant
                        ts == tokens@,
                        n == ts.len(),
                        0 <= c <= n,
                        lead_count(ts, TokenKind::Tab, 0) == c + lead_count(
                            ts,
                            TokenKind::Tab,
                            c as int,
                        ),
                    decreases n - c,
                {
                    c = c + 1;
                }
                proof {
                    assert(lead_count(ts, TokenKind::Tab, c as int) == 0);
                }
                (c, 0)
            },
            IndentStyle::Both => {
                let mut i: usize = 0;
                let mut sc: usize = 0;
                let mut tc: usize = 0;
                while i < n && (tokens[i].kind == TokenKind::Space || tokens[i].kind
                    == TokenKind::Tab)
                    invariant
                        ts == tokens@,
                        n == ts.len(),
                        0 <= i <= n,
                        sc + tc == i,
                        lead_ws_spaces(ts, 0) == sc + lead_ws_spaces(ts, i as int),
                        lead_ws_tabs(ts, 0) == tc + lead_ws_tabs(ts, i as int),
                    decreases n - i,
                {
                    if tokens[i].kind == TokenKind::Space {
                        sc = sc + 1;
                    } else {
                        tc = tc + 1;
                    }
                    i = i + 1;
                }
                proof {
                    assert(lead_ws_spaces(ts, i as int) == 0);
                    assert(lead_ws_tabs(ts, i as int) == 0);
                    assert((sc as int + 2 * tc) / 2 == tc + sc as int / 2 && (sc as int + 2 * tc)
                        % 2 == sc as int % 2) by (nonlinear_arith)
                        requires
                            sc >= 0,
                            tc >= 0,
                    ;
                }
                (tc + sc / 2, sc % 2)
            },
        }
    }

    /// Under the loose indent rule, drop the remainder of a line's
    /// indentation; the strict rule changes nothing.
    pub fn align_indent<'b>(tokens: &'b [Token], style: IndentStyle, rule: IndentRule) -> (r:
        &'b [Token])
        requires
            style_wf(style),
        ensures
            r@ == spec_align_indent(tokens@, style, rule),
    {
        match rule {
            IndentRule::Strict => tokens,
            IndentRule::Loose => {
                let level = Self::indent_level(tokens, style);
                proof {
                    lemma_indent_level(tokens@, style);
                }
                &tokens[level.1..tokens.len()]
            },
        }
    }

    /// Strip one indent unit (and with `format`, the remainder too) from
    /// every line of the tokens.
    #[verifier::rlimit(100)]
    pub fn reduce_indent(tokens: &[Token], style: IndentStyle, format: bool) -> (r: Vec<Token>)
        requires
            style_wf(style),
        ensures
            r@ == spec_reduce_indent(tokens@, style, format),
    {
        let mut out: Vec<Token> = Vec::new();
        let mut rest: &[Token] = tokens;
        while rest.len() > 0
            invariant
                style_wf(style),
                spec_reduce_indent(tokens@, style, format) == out@ + spec_reduce_indent(
                    rest@,
                    style,
                    format,
                ),
            decreases rest@.len(),
        {
            let ghost prev = out@;
            let ghost rts = rest@;
            let (line, new_rest) = Self::get_line(rest, false);
            let level = Self::indent_level(line, style);
            proof {
                lemma_indent_level(line@, style);
                lemma_get_line_len(rts, false);
            }
            let lim = line.len();
            let cut2: usize = if level.0 == 0 {
                0
            } else {
                match style {
                    IndentStyle::Space(u) => {
                        let uu = u as usize;
                        if format {
                            if uu <= lim - level.1 {
                                uu + level.1
                            } else {
                                lim
                            }
                        } else {
                            if uu <= lim {
                                uu
                            } else {
                                lim
                            }
                        }
                    },
                    IndentStyle::Tab => if 1 <= lim {
                        1
                    } else {
                        lim
                    },
                    IndentStyle::Both => {
                        if line.len() > 0 && line[0].kind == TokenKind::Space {
                            if format {
                                if 2 <= lim - level.1 {
                                    2 + level.1
                                } else {
                                    lim
                                }
                            } else {
                                if 2 <= lim {
                                    2
                                } else {
                                    lim
                                }
                            }
                        } else {
                            if 1 <= lim {
                                1
                            } else {
                                lim
                            }
                        }
                    },
                }
            };
            let ghost mid = out@;
            let mut idx: usize = cut2;
            proof {
                assert(mid + line@.subrange(cut2 as int, cut2 as int) =~= mid);
            }
            while idx < line.len()
                invariant
                    cut2 <= idx <= line@.len(),
                    line@.len() <= rest@.len(),
                    out@ == mid + line@.subrange(cut2 as int, idx as int),
                decreases line@.len() - idx,
            {
                out.push(line[idx]);
                proof {
                    assert(line@.subrange(cut2 as int, idx + 1) =~= line@.subrange(
                        cut2 as int,
                        idx as int,
                    ).push(line@[idx as int]));
                }
                idx = idx + 1;
            }
            if line.len() < rest.len() {
                out.push(rest[line.len()]);
            }
            proof {
                let body = line@.subrange(cut2 as int, line@.len() as int);
                let brk = if line@.len() < rts.len() {
                    seq![rts[line@.len() as int]]
                } else {
                    Seq::<Token>::empty()
                };
                assert(out@ =~= prev + (body + brk));
                assert(spec_reduce_indent(rts, style, format) == (body + brk)
                    + spec_reduce_indent(new_rest@, style, format));
                assert(prev + ((body + brk) + spec_reduce_indent(new_rest@, style, format)) =~= (
                prev + (body + brk)) + spec_reduce_indent(new_rest@, style, format));
            }
            rest = new_rest;
        }
        proof {
            assert(out@ + spec_reduce_indent(rest@, style, format) =~= out@);
        }
        out
    }
}


/// Text appended token by token: adding one token appends its characters.
pub proof fn lemma_tokens_text_snoc(input: Seq<char>, ts: Seq<Token>, t: Token)
    ensures
        tokens_text(input, ts.push(t)) == tokens_text(input, ts) + token_chars(input, t),
    decreases ts.len(),
{
    reveal_with_fuel(tokens_text, 2);
    if ts.len() == 0 {
        assert(ts.push(t).drop_first() =~= Seq::<Token>::empty());
        assert(ts.push(t)[0] == t);
        assert(tokens_text(input, ts.push(t)) =~= tokens_text(input, ts) + token_chars(input, t));
    } else {
        assert(ts.push(t).drop_first() =~= ts.drop_first().push(t));
        assert(ts.push(t)[0] == ts[0]);
        lemma_tokens_text_snoc(input, ts.drop_first(), t);
        assert(tokens_text(input, ts.push(t)) =~= tokens_text(input, ts) + token_chars(input, t));
    }
}

/// The strong production's result: the nearest closing star pair closes
/// the span, whose content is parsed recursively.
pub open spec fn spec_strong_item(input: Seq<char>, ts: Seq<Token>) -> Option<
    (SpecInline, Seq<Token>),
> {
    if strong_matches(ts) {
        let j = find_star_pair(ts, 2);
        Some(
            (
                SpecInline::Strong(spec_inline_items(input, ts.subrange(2, j))),
                ts.subrange(j + 2, ts.len() as int),
            ),
        )
    } else {
        None
    }
}

/// The italic production's result: the nearest closing star closes the
/// span, whose content is parsed recursively.
pub open spec fn spec_italic_item(input: Seq<char>, ts: Seq<Token>) -> Option<
    (SpecInline, Seq<Token>),
> {
    if italic_matches(ts) {
        let j = find_kind(ts, TokenKind::Star, 1);
        Some(
            (
                SpecInline::Italic(spec_inline_items(input, ts.subrange(1, j))),
                ts.subrange(j + 1, ts.len() as int),
            ),
        )
    } else {
        None
    }
}

/// The break production's result: a single break token becomes a break
/// item.
pub open spec fn spec_break_item(ts: Seq<Token>) -> Option<(SpecInline, Seq<Token>)> {
    if ts.len() > 0 && ts[0].kind == TokenKind::Break {
        Some((SpecInline::Break, ts.drop_first()))
    } else {
        None
    }
}

impl Executor {
    /// The text a token covers, copied out of the source.
    fn token_text(&self, t: Token) -> (r: String)
        requires
            self.wf(),
            t.start + t.len <= self.text().len(),
        ensures
            r@ == token_chars(self.text(), t),
    {
        let piece = self.input.as_str().substring_char(t.start, t.start + t.len);
        String::from_str(piece)
    }

    /// Whether every character a token covers is an ASCII digit.
    fn is_digits(&self, t: Token) -> (b: bool)
        requires
            self.wf(),
            t.start + t.len <= self.text().len(),
        ensures
            b == all_digits(token_chars(self.text(), t)),
    {
        let ghost chars = token_chars(self.text(), t);
        let e = t.start + t.len;
        let mut k = t.start;
        while k < e
            invariant
                self.wf(),
                t.start <= k <= e,
                e == t.start + t.len <= self.text().len(),
                chars == token_chars(self.text(), t),
                forall|m: int| 0 <= m < k - t.start ==> is_digit_char(#[trigger] chars[m]),
            decreases e - k,
        {
            let c = self.input.as_str().get_char(k);
            proof {
                assert(chars[k - t.start] == self.text()[k as int]);
            }
            if !(c >= '0' && c <= '9') {
                proof {
                    assert(!is_digit_char(chars[k - t.start]));
                }
                return false;
            }
            k = k + 1;
        }
        true
    }

    /// Whether a strong span opens at the head of the tokens.
    fn strong_match(tokens: &[Token]) -> (b: bool)
        ensures
            b == strong_matches(tokens@),
    {
        let ghost ts = tokens@;
        let n = tokens.len();
        if n < 2 || tokens[0].kind != TokenKind::Star || tokens[1].kind != TokenKind::Star {
            return false;
        }
        let mut j: usize = 2;
        while j < n && j + 1 < n && !(tokens[j].kind == TokenKind::Star && tokens[j + 1].kind
            == TokenKind::Star)
            invariant
                ts == tokens@,
                n == ts.len(),
                2 <= j <= n,
                find_star_pair(ts, 2) == find_star_pair(ts, j as int),
            decreases n - j,
        {
            j = j + 1;
        }
        j < n && j + 1 < n
    }

    /// Whether an italic span opens at the head of the tokens.
    fn italic_match(tokens: &[Token]) -> (b: bool)
        ensures
            b == italic_matches(tokens@),
    {
        let ghost ts = tokens@;
        let n = tokens.len();
        if n < 1 || tokens[0].kind != TokenKind::Star {
            return false;
        }
        let mut j: usize = 1;
        while j < n && tokens[j].kind != TokenKind::Star
            invariant
                ts == tokens@,
                n == ts.len(),
                1 <= j <= n,
                find_kind(ts, TokenKind::Star, 1) == find_kind(ts, TokenKind::Star, j as int),
            decreases n - j,
        {
            j = j + 1;
        }
        j < n
    }

    /// Parse a break item off the head of the tokens.
    pub fn line_break<'b>(&self, tokens: &'b [Token]) -> (r: Option<(InlineItem, &'b [Token])>)
        ensures
            match r {
                Some(p) => spec_break_item(tokens@) == Some((p.0@, p.1@)),
                None => spec_break_item(tokens@) is None,
            },
    {
        if tokens.len() > 0 && tokens[0].kind == TokenKind::Break {
            proof {
                assert(tokens@.drop_first() =~= tokens@.subrange(1, tokens@.len() as int));
            }
            Some((InlineItem::Break, &tokens[1..tokens.len()]))
        } else {
            None
        }
    }

    /// Parse an italic span off the head of the tokens.
    pub fn italic<'b>(&self, tokens: &'b [Token]) -> (r: Option<(InlineItem, &'b [Token])>)
        requires
            self.wf(),
            tokens_in_bounds(tokens@, self.text().len() as nat),
        ensures
            match r {
                Some(p) => spec_italic_item(self.text(), tokens@) == Some((p.0@, p.1@))
                    && tokens_in_bounds(p.1@, self.text().len() as nat),
                None => spec_italic_item(self.text(), tokens@) is None,
            },
        decreases tokens@.len(), 0int,
    {
        let ghost ts = tokens@;
        let n = tokens.len();
        if n < 1 || tokens[0].kind != TokenKind::Star {
            return None;
        }
        let mut j: usize = 1;
        while j < n && tokens[j].kind != TokenKind::Star
            invariant
                ts == tokens@,
                n == ts.len(),
                1 <= j <= n,
                find_kind(ts, TokenKind::Star, 1) == find_kind(ts, TokenKind::Star, j as int),
            decreases n - j,
        {
            j = j + 1;
        }
        proof {
            assert(find_kind(ts, TokenKind::Star, 1) == j);
        }
        if j >= n {
            return None;
        }
        let inner = &tokens[1..j];
        proof {
            lemma_in_bounds_subrange(ts, self.text().len() as nat, 1, j as int);
            lemma_in_bounds_subrange(ts, self.text().len() as nat, j + 1, n as int);
        }
        let tree = self.inline_tree(inner);
        Some((InlineItem::Italic(tree), &tokens[j + 1..n]))
    }

    /// Parse a strong span off the head of the tokens.
    pub fn strong<'b>(&self, tokens: &'b [Token]) -> (r: Option<(InlineItem, &'b [Token])>)
        requires
            self.wf(),
            tokens_in_bounds(tokens@, self.text().len() as nat),
        ensures
            match r {
                Some(p) => spec_strong_item(self.text(), tokens@) == Some((p.0@, p.1@))
                    && tokens_in_bounds(p.1@, self.text().len() as nat),
                None => spec_strong_item(self.text(), tokens@) is None,
            },
        decreases tokens@.len(), 0int,
    {
        let ghost ts = tokens@;
        let n = tokens.len();
        if n < 2 || tokens[0].kind != TokenKind::Star || tokens[1].kind != TokenKind::Star {
            return None;
        }
        let mut j: usize = 2;
        while j < n && j + 1 < n && !(tokens[j].kind == TokenKind::Star && tokens[j + 1].kind
            == TokenKind::Star)
            invariant
                ts == tokens@,
                n == ts.len(),
                2 <= j <= n,
                find_star_pair(ts, 2) == find_star_pair(ts, j as int),
            decreases n - j,
        {
            j = j + 1;
        }
        if !(j < n && j + 1 < n) {
            proof {
                assert(find_star_pair(ts, 2) == n);
            }
            return None;
        }
        proof {
            assert(find_star_pair(ts, 2) == j);
        }
        let inner = &tokens[2..j];
        proof {
            lemma_in_bounds_subrange(ts, self.text().len() as nat, 2, j as int);
            lemma_in_bounds_subrange(ts, self.text().len() as nat, j + 2, n as int);
        }
        let tree = self.inline_tree(inner);
        Some((InlineItem::Strong(tree), &tokens[j + 2..n]))
    }

    /// Parse all tokens into an inline tree. Spans are matched first, a
    /// break token becomes a break item, and everything else joins the
    /// running text span.
    pub fn inline_tree(&self, tokens: &[Token]) -> (r: InlineTree)
        requires
            self.wf(),
            tokens_in_bounds(tokens@, self.text().len() as nat),
        ensures
            view_inlines(r.root@) == spec_inline_items(self.text(), tokens@),
        decreases tokens@.len(), 1int,
    {
        let ghost text = self.text();
        let mut items: Vec<InlineItem> = Vec::new();
        let mut rest: &[Token] = tokens;
        while rest.len() > 0
            invariant
                self.wf(),
                text == self.text(),
                tokens_in_bounds(rest@, text.len() as nat),
                rest@.len() <= tokens@.len(),
                spec_inline_items(text, tokens@) == view_inlines(items@) + spec_inline_items(
                    text,
                    rest@,
                ),
            decreases rest@.len(),
        {
            let ghost prev = items@;
            let ghost rts = rest@;
            if let Some((item, nr)) = self.strong(rest) {
                proof {
                    crate::tree::lemma_view_inlines_push(prev, item);
                    lemma_find_star_pair(rts, 2);
                    assert(nr@.len() < rts.len());
                    assert(spec_inline_items(text, rts) == seq![item@] + spec_inline_items(
                        text,
                        nr@,
                    ));
                    assert(view_inlines(prev) + (seq![item@] + spec_inline_items(text, nr@)) =~= (
                    view_inlines(prev) + seq![item@]) + spec_inline_items(text, nr@));
                }
                items.push(item);
                rest = nr;
            } else if let Some((item, nr)) = self.italic(rest) {
                proof {
                    crate::tree::lemma_view_inlines_push(prev, item);
                    lemma_find_kind(rts, TokenKind::Star, 1);
                    assert(nr@.len() < rts.len());
                    assert(spec_inline_items(text, rts) == seq![item@] + spec_inline_items(
                        text,
                        nr@,
                    ));
                    assert(view_inlines(prev) + (seq![item@] + spec_inline_items(text, nr@)) =~= (
                    view_inlines(prev) + seq![item@]) + spec_inline_items(text, nr@));
                }
                items.push(item);
                rest = nr;
            } else if let Some((item, nr)) = self.line_break(rest) {
                proof {
                    crate::tree::lemma_view_inlines_push(prev, item);
                    assert(rts.drop_first() =~= rts.subrange(1, rts.len() as int));
                    assert(nr@.len() < rts.len());
                    assert(spec_inline_items(text, rts) == seq![item@] + spec_inline_items(
                        text,
                        nr@,
                    ));
                    assert(view_inlines(prev) + (seq![item@] + spec_inline_items(text, nr@)) =~= (
                    view_inlines(prev) + seq![item@]) + spec_inline_items(text, nr@));
                    lemma_in_bounds_subrange(rts, text.len() as nat, 1, rts.len() as int);
                }
                items.push(item);
                rest = nr;
            } else {
                proof {
                    assert(!inline_special(rts));
                    assert(rts.subrange(0, rts.len() as int) =~= rts);
                }
                let n = rest.len();
                let mut j: usize = 0;
                while j < n && rest[j].kind != TokenKind::Break && !Self::strong_match(
                    &rest[j..n],
                ) && !Self::italic_match(&rest[j..n])
                    invariant
                        rts == rest@,
                        n == rts.len(),
                        0 <= j <= n,
                        inline_text_run(rts) == j + inline_text_run(
                            rts.subrange(j as int, n as int),
                        ),
                    decreases n - j,
                {
                    proof {
                        assert(rts.subrange(j as int, n as int).drop_first() =~= rts.subrange(
                            j + 1,
                            n as int,
                        ));
                        assert(!inline_special(rts.subrange(j as int, n as int)));
                    }
                    j = j + 1;
                }
                proof {
                    if j < n {
                        assert(inline_special(rts.subrange(j as int, n as int)));
                    }
                    assert(inline_text_run(rts.subrange(j as int, n as int)) == 0);
                    assert(inline_text_run(rts) == j);
                    lemma_inline_text_run(rts);
                    assert(j >= 1);
                }
                let mut acc = String::new();
                let mut k: usize = 0;
                proof {
                    assert(acc@ =~= tokens_text(text, rts.subrange(0, 0)));
                }
                while k < j
                    invariant
                        self.wf(),
                        text == self.text(),
                        rts == rest@,
                        tokens_in_bounds(rts, text.len() as nat),
                        0 <= k <= j <= rts.len(),
                        acc@ == tokens_text(text, rts.subrange(0, k as int)),
                    decreases j - k,
                {
                    let piece = self.token_text(rest[k]);
                    acc.append(piece.as_str());
                    proof {
                        assert(rts.subrange(0, k + 1) =~= rts.subrange(0, k as int).push(
                            rts[k as int],
                        ));
                        lemma_tokens_text_snoc(text, rts.subrange(0, k as int), rts[k as int]);
                    }
                    k = k + 1;
                }
                let item = InlineItem::Text(acc);
                proof {
                    crate::tree::lemma_view_inlines_push(prev, item);
                    assert(item@ == SpecInline::Text(tokens_text(text, rts.subrange(0, j as int))));
                    assert(spec_inline_items(text, rts) == seq![item@] + spec_inline_items(
                        text,
                        rts.subrange(j as int, rts.len() as int),
                    ));
                    assert(view_inlines(prev) + (seq![item@] + spec_inline_items(
                        text,
                        rts.subrange(j as int, rts.len() as int),
                    )) =~= (view_inlines(prev) + seq![item@]) + spec_inline_items(
                        text,
                        rts.subrange(j as int, rts.len() as int),
                    ));
                    lemma_in_bounds_subrange(rts, text.len() as nat, j as int, rts.len() as int);
                }
                items.push(item);
                rest = &rest[j..n];
            }
        }
        proof {
            assert(view_inlines(items@) + spec_inline_items(text, rest@) =~= view_inlines(items@));
        }
        InlineTree { root: items }
    }
}


/// A label built line by line, each line followed by a break item.
pub open spec fn spec_label_acc(input: Seq<char>, lines: Seq<Seq<Token>>) -> Seq<SpecInline>
    decreases lines.len(),
{
    if lines.len() == 0 {
        Seq::empty()
    } else {
        spec_inline_items(input, lines[0]) + seq![SpecInline::Break] + spec_label_acc(
            input,
            lines.drop_first(),
        )
    }
}

/// The built label is the final label with one break item after it.
pub proof fn lemma_label_acc(input: Seq<char>, lines: Seq<Seq<Token>>)
    requires
        lines.len() > 0,
    ensures
        spec_label_acc(input, lines) == spec_label(input, lines) + seq![SpecInline::Break],
    decreases lines.len(),
{
    reveal_with_fuel(spec_label_acc, 2);
    if lines.len() == 1 {
        assert(spec_label_acc(input, lines.drop_first()) =~= Seq::<SpecInline>::empty());
        assert(spec_inline_items(input, lines[0]) + seq![SpecInline::Break]
            + Seq::<SpecInline>::empty() =~= spec_label(input, lines) + seq![SpecInline::Break]);
    } else {
        lemma_label_acc(input, lines.drop_first());
        assert((spec_inline_items(input, lines[0]) + seq![SpecInline::Break] + (spec_label(
            input,
            lines.drop_first(),
        ) + seq![SpecInline::Break])) =~= (spec_inline_items(input, lines[0]) + seq![
            SpecInline::Break,
        ] + spec_label(input, lines.drop_first())) + seq![SpecInline::Break]);
    }
}

/// Adding one line to a built label appends its inline items and a break.
pub proof fn lemma_label_acc_snoc(input: Seq<char>, lines: Seq<Seq<Token>>, l: Seq<Token>)
    ensures
        spec_label_acc(input, lines.push(l)) =~= spec_label_acc(input, lines) + spec_inline_items(
            input,
            l,
        ) + seq![SpecInline::Break],
    decreases lines.len(),
{
    reveal_with_fuel(spec_label_acc, 2);
    if lines.len() == 0 {
        assert(lines.push(l).drop_first() =~= Seq::<Seq<Token>>::empty());
        assert(lines.push(l)[0] == l);
        assert(spec_label_acc(input, lines.push(l)) =~= spec_inline_items(input, l) + seq![
            SpecInline::Break,
        ] + Seq::<SpecInline>::empty());
    } else {
        assert(lines.push(l).drop_first() =~= lines.drop_first().push(l));
        assert(lines.push(l)[0] == lines[0]);
        lemma_label_acc_snoc(input, lines.drop_first(), l);
        assert(spec_inline_items(input, lines[0]) + seq![SpecInline::Break] + (spec_label_acc(
            input,
            lines.drop_first(),
        ) + spec_inline_items(input, l) + seq![SpecInline::Break]) =~= (spec_inline_items(
            input,
            lines[0],
        ) + seq![SpecInline::Break] + spec_label_acc(input, lines.drop_first()))
            + spec_inline_items(input, l) + seq![SpecInline::Break]);
    }
}

/// Adding one region appends one list item.
pub proof fn lemma_list_items_of_push(cfg: Parser, input: Seq<char>, rs: Seq<Seq<Token>>, r: Seq<
    Token,
>)
    ensures
        spec_list_items_of(cfg, input, rs.push(r)) =~= spec_list_items_of(cfg, input, rs) + seq![
            spec_list_item(cfg, input, r),
        ],
    decreases rs.len(),
{
    reveal_with_fuel(spec_list_items_of, 2);
    if rs.len() == 0 {
        assert(rs.push(r).drop_first() =~= Seq::<Seq<Token>>::empty());
        assert(rs.push(r)[0] == r);
        assert(spec_list_items_of(cfg, input, rs.push(r)) =~= seq![spec_list_item(cfg, input, r)]
            + Seq::<SpecListItem>::empty());
    } else {
        assert(rs.push(r).drop_first() =~= rs.drop_first().push(r));
        assert(rs.push(r)[0] == rs[0]);
        lemma_list_items_of_push(cfg, input, rs.drop_first(), r);
        assert(seq![spec_list_item(cfg, input, rs[0])] + (spec_list_items_of(
            cfg,
            input,
            rs.drop_first(),
        ) + seq![spec_list_item(cfg, input, r)]) =~= (seq![spec_list_item(cfg, input, rs[0])]
            + spec_list_items_of(cfg, input, rs.drop_first())) + seq![
            spec_list_item(cfg, input, r),
        ]);
    }
}

impl Executor {
    /// Judge whether the tokens look like the start of a new block.
    pub fn maybe_block_item(&self, tokens: &[Token], trim: bool) -> (b: bool)
        requires
            self.wf(),
            tokens_in_bounds(tokens@, self.text().len() as nat),
        ensures
            b == spec_maybe_block(self.text(), tokens@, trim),
    {
        let ts1: &[Token] = if trim {
            Self::trim_white_spaces(tokens)
        } else {
            tokens
        };
        proof {
            if trim {
                lemma_in_bounds_trim_ws(tokens@, self.text().len() as nat);
            }
        }
        let h = Self::trim_white_spaces(ts1);
        let ghost hs = h@;
        let mut p: usize = 0;
        while p < h.len() && h[p].kind == TokenKind::Pound
            invariant
                hs == h@,
                0 <= p <= hs.len(),
                lead_count(hs, TokenKind::Pound, 0) == p + lead_count(hs, TokenKind::Pound, p as int),
            decreases hs.len() - p,
        {
            p = p + 1;
        }
        proof {
            assert(lead_count(hs, TokenKind::Pound, p as int) == 0);
        }
        if 1 <= p && p <= 6 && p < h.len() && h[p].kind == TokenKind::Space {
            proof {
                assert(spec_headline_level(hs) == p);
            }
            return true;
        }
        proof {
            assert(spec_headline_level(hs) == 0);
        }
        if ts1.len() >= 1 && ts1[0].kind == TokenKind::Gt {
            return true;
        }
        if ts1.len() >= 2 && ts1[0].kind == TokenKind::Hyphen && ts1[1].kind == TokenKind::Space {
            return true;
        }
        if ts1.len() >= 3 && ts1[0].kind == TokenKind::Text && ts1[1].kind == TokenKind::Dot
            && ts1[2].kind == TokenKind::Space {
            if self.is_digits(ts1[0]) {
                return true;
            }
        }
        false
    }

    /// Read tokens until the next probable block item or blank line, and
    /// trim the breaks at the seam.
    pub fn get_until_maybe_block_item<'b>(&self, tokens: &'b [Token]) -> (r: (
        &'b [Token],
        &'b [Token],
    ))
        requires
            self.wf(),
            tokens_in_bounds(tokens@, self.text().len() as nat),
        ensures
            r.0@ == spec_get_until(self.text(), tokens@).0,
            r.1@ == spec_get_until(self.text(), tokens@).1,
            tokens_in_bounds(r.0@, self.text().len() as nat),
            tokens_in_bounds(r.1@, self.text().len() as nat),
    {
        let ghost ts = tokens@;
        let ghost text = self.text();
        let ghost nn = self.text().len() as nat;
        let n = tokens.len();
        let trimmed = Self::trim_end(tokens, TokenKind::Break);
        let m = trimmed.len();
        proof {
            lemma_trim_end_len(ts, TokenKind::Break);
            lemma_in_bounds_trim_end(ts, TokenKind::Break, nn);
        }
        let mut k: usize = 0;
        while k < m
            invariant
                self.wf(),
                ts == tokens@,
                text == self.text(),
                nn == text.len(),
                tokens_in_bounds(ts, nn),
                n == ts.len(),
                trimmed@ == spec_trim_end(ts, TokenKind::Break),
                m == trimmed@.len() <= n,
                trimmed@ == ts.subrange(0, m as int),
                0 <= k <= m,
                until_cut(text, ts, m as int, 0) == until_cut(text, ts, m as int, k as int),
            ensures
                until_cut(text, ts, m as int, 0) is None,
            decreases m - k,
        {
            if tokens[k].kind == TokenKind::Break {
                proof {
                    lemma_trim_end_len(ts, TokenKind::Break);
                    assert(trimmed@[m - 1] == ts[m - 1]);
                    assert(trimmed@.last().kind != TokenKind::Break);
                    assert(ts[k as int] == trimmed@[k as int]);
                    assert(k < m - 1);
                    lemma_in_bounds_subrange(ts, nn, k + 1, n as int);
                }
                if self.maybe_block_item(&tokens[k + 1..n], false) {
                    proof {
                        assert(until_cut(text, ts, m as int, k as int) == Some((k as int, k + 1)));
                    }
                    let front = Self::trim_end(&tokens[0..k], TokenKind::Break);
                    let back = Self::trim_start(&tokens[k + 1..n], TokenKind::Break);
                    proof {
                        lemma_in_bounds_subrange(ts, nn, 0, k as int);
                        lemma_in_bounds_trim_end(ts.subrange(0, k as int), TokenKind::Break, nn);
                        lemma_in_bounds_trim_start(
                            ts.subrange(k + 1, n as int),
                            TokenKind::Break,
                            nn,
                        );
                    }
                    return (front, back);
                } else if tokens[k + 1].kind == TokenKind::Break {
                    proof {
                        assert(until_cut(text, ts, m as int, k as int) == Some((k as int, k + 2)));
                        lemma_in_bounds_subrange(ts, nn, k + 2, n as int);
                    }
                    let front = Self::trim_end(&tokens[0..k], TokenKind::Break);
                    let back = Self::trim_start(&tokens[k + 2..n], TokenKind::Break);
                    proof {
                        lemma_in_bounds_subrange(ts, nn, 0, k as int);
                        lemma_in_bounds_trim_end(ts.subrange(0, k as int), TokenKind::Break, nn);
                        lemma_in_bounds_trim_start(
                            ts.subrange(k + 2, n as int),
                            TokenKind::Break,
                            nn,
                        );
                    }
                    return (front, back);
                }
            }
            proof {
                assert(until_cut(text, ts, m as int, k as int) == until_cut(
                    text,
                    ts,
                    m as int,
                    k + 1,
                ));
            }
            k = k + 1;
        }
        (trimmed, &tokens[n..n])
    }

    /// Parse a headline off the head of the tokens.
    pub fn headline<'b>(&self, tokens: &'b [Token]) -> (r: Option<(BlockItem, &'b [Token])>)
        requires
            self.wf(),
            tokens_in_bounds(tokens@, self.text().len() as nat),
        ensures
            match r {
                Some(p) => spec_headline(self.cfg(), self.text(), tokens@) == Some((p.0@, p.1@))
                    && tokens_in_bounds(p.1@, self.text().len() as nat),
                None => spec_headline(self.cfg(), self.text(), tokens@) is None,
            },
    {
        let ghost nn = self.text().len() as nat;
        let tts = Self::trim_white_spaces(tokens);
        proof {
            lemma_in_bounds_trim_ws(tokens@, nn);
        }
        let ghost hs = tts@;
        let mut p: usize = 0;
        while p < tts.len() && tts[p].kind == TokenKind::Pound
            invariant
                hs == tts@,
                0 <= p <= hs.len(),
                lead_count(hs, TokenKind::Pound, 0) == p + lead_count(hs, TokenKind::Pound, p as int),
            decreases hs.len() - p,
        {
            p = p + 1;
        }
        proof {
            assert(lead_count(hs, TokenKind::Pound, p as int) == 0);
        }
        if !(1 <= p && p <= 6 && p < tts.len() && tts[p].kind == TokenKind::Space) {
            proof {
                assert(spec_headline_level(hs) == 0);
            }
            return None;
        }
        proof {
            assert(spec_headline_level(hs) == p);
            lemma_in_bounds_subrange(hs, nn, p as int, hs.len() as int);
        }
        let content = Self::trim_start(&tts[p..tts.len()], TokenKind::Space);
        proof {
            lemma_in_bounds_trim_start(hs.subrange(p as int, hs.len() as int), TokenKind::Space, nn);
        }
        let split: (&[Token], &[Token]) = match self.config.headline_ending {
            HeadlineEnding::SoftBreak => Self::get_line(content, true),
            HeadlineEnding::AllowSoftBreak => self.get_until_maybe_block_item(content),
            HeadlineEnding::HardBreak => Self::get_paragraph(content),
        };
        proof {
            lemma_in_bounds_get_line(content@, true, nn);
            lemma_in_bounds_get_paragraph(content@, nn);
            lemma_in_bounds_get_until(self.text(), content@, nn);
        }
        let tree = self.inline_tree(split.0);
        Some((BlockItem::Headline(p as u8, tree), split.1))
    }

    /// Parse a paragraph off the head of the tokens; the catch-all, it
    /// always succeeds.
    pub fn paragraph<'b>(&self, tokens: &'b [Token]) -> (r: Option<(BlockItem, &'b [Token])>)
        requires
            self.wf(),
            tokens_in_bounds(tokens@, self.text().len() as nat),
        ensures
            match r {
                Some(p) => spec_paragraph(self.cfg(), self.text(), tokens@) == (p.0@, p.1@)
                    && tokens_in_bounds(p.1@, self.text().len() as nat),
                None => false,
            },
    {
        let ghost nn = self.text().len() as nat;
        let split: (&[Token], &[Token]) = match self.config.paragraph_ending {
            ParagraphEnding::HardBreak => Self::get_paragraph(tokens),
            ParagraphEnding::AllowSoftBreak => self.get_until_maybe_block_item(tokens),
        };
        proof {
            lemma_in_bounds_get_paragraph(tokens@, nn);
            lemma_in_bounds_get_until(self.text(), tokens@, nn);
        }
        let tree = self.inline_tree(split.0);
        Some((BlockItem::Paragraph(tree), split.1))
    }

    /// Parse one list item from its body region.
    pub fn list_item(&self, tokens: &[Token]) -> (r: ListItem)
        requires
            self.wf(),
            tokens_in_bounds(tokens@, self.text().len() as nat),
        ensures
            r@ == spec_list_item(self.cfg(), self.text(), tokens@),
        decreases tokens@.len(), 4int,
    {
        let ghost ts = tokens@;
        let ghost text = self.text();
        let ghost nn = text.len() as nat;
        let ghost style = self.config.list_indent_style;
        let mut name_items: Vec<InlineItem> = Vec::new();
        let mut this_rest: &[Token] = tokens;
        let ghost mut lines: Seq<Seq<Token>> = Seq::empty();
        proof {
            assert(view_inlines(name_items@) =~= spec_label_acc(text, lines));
            assert(lines + spec_label_split(ts, style).0 =~= spec_label_split(ts, style).0);
        }
        while this_rest.len() > 0
            invariant_except_break
                self.wf(),
                ts == tokens@,
                text == self.text(),
                nn == text.len(),
                style == self.config.list_indent_style,
                tokens_in_bounds(this_rest@, nn),
                this_rest@.len() <= ts.len(),
                spec_label_split(ts, style).0 == lines + spec_label_split(this_rest@, style).0,
                spec_label_split(ts, style).1 == spec_label_split(this_rest@, style).1,
                view_inlines(name_items@) == spec_label_acc(text, lines),
            ensures
                self.wf(),
                ts == tokens@,
                text == self.text(),
                nn == text.len(),
                style == self.config.list_indent_style,
                tokens_in_bounds(this_rest@, nn),
                this_rest@.len() <= ts.len(),
                spec_label_split(ts, style).0 == lines,
                spec_label_split(ts, style).1 == this_rest@,
                view_inlines(name_items@) == spec_label_acc(text, lines),
            decreases this_rest@.len(),
        {
            let ghost rts = this_rest@;
            let (line, rest2) = Self::get_line(this_rest, false);
            proof {
                lemma_get_line_len(rts, false);
                lemma_in_bounds_get_line(rts, false, nn);
            }
            if line.len() == 0 {
                proof {
                    assert(spec_label_split(rts, style).0 =~= Seq::<Seq<Token>>::empty());
                    assert(lines + Seq::<Seq<Token>>::empty() =~= lines);
                }
                break;
            }
            let level = Self::indent_level(line, self.config.list_indent_style);
            if level.0 != 0 {
                proof {
                    assert(spec_label_split(rts, style).0 =~= Seq::<Seq<Token>>::empty());
                    assert(lines + Seq::<Seq<Token>>::empty() =~= lines);
                }
                break;
            }
            let mut lt = self.inline_tree(line);
            let ghost prev = name_items@;
            let ghost lroot = lt.root@;
            name_items.append(&mut lt.root);
            name_items.push(InlineItem::Break);
            proof {
                let tail = spec_label_split(rest2@, style);
                assert(spec_label_split(rts, style).0 == seq![line@] + tail.0);
                assert(lines + (seq![line@] + tail.0) =~= lines.push(line@) + tail.0);
                lemma_label_acc_snoc(text, lines, line@);
                assert(name_items@ =~= (prev + lroot).push(InlineItem::Break));
                crate::tree::lemma_view_inlines_push(prev + lroot, InlineItem::Break);
                crate::tree::lemma_view_inlines_concat(prev, lroot);
                assert(view_inlines(name_items@) =~= spec_label_acc(text, lines)
                    + spec_inline_items(text, line@) + seq![SpecInline::Break]);
                lines = lines.push(line@);
            }
            this_rest = rest2;
        }
        let ghost before_pop = name_items@;
        let popped = name_items.pop();
        proof {
            crate::tree::lemma_view_inlines_index(before_pop);
            if lines.len() == 0 {
                assert(spec_label_acc(text, lines) =~= Seq::<SpecInline>::empty());
                assert(before_pop.len() == 0);
                assert(view_inlines(name_items@) =~= spec_label(text, lines));
            } else {
                lemma_label_acc(text, lines);
                assert(before_pop.len() > 0);
                assert(name_items@ == before_pop.subrange(0, before_pop.len() - 1));
                assert(name_items@ =~= before_pop.drop_last());
                crate::tree::lemma_view_inlines_drop_last(before_pop);
                assert(view_inlines(name_items@) =~= (spec_label(text, lines) + seq![
                    SpecInline::Break,
                ]).drop_last());
                assert(view_inlines(name_items@) =~= spec_label(text, lines));
            }
        }
        let children_buf = Self::reduce_indent(this_rest, self.config.list_indent_style, true);
        proof {
            lemma_in_bounds_reduce(this_rest@, style, true, nn);
            lemma_reduce_indent_len(this_rest@, style, true);
        }
        let bt = self.block_tree(children_buf.as_slice());
        ListItem { name: InlineTree { root: name_items }, children: bt.root }
    }
}



impl Executor {
    /// Parse a bullet list off the head of the tokens.
    pub fn bullet_list<'b>(&self, tokens: &'b [Token]) -> (r: Option<(BlockItem, &'b [Token])>)
        requires
            self.wf(),
            tokens_in_bounds(tokens@, self.text().len() as nat),
        ensures
            match r {
                Some(p) => spec_bullet_list(self.cfg(), self.text(), tokens@) == Some((p.0@, p.1@))
                    && tokens_in_bounds(p.1@, self.text().len() as nat),
                None => spec_bullet_list(self.cfg(), self.text(), tokens@) is None,
            },
        decreases tokens@.len(), 1int,
    {
        let ghost ts = tokens@;
        let ghost text = self.text();
        let ghost nn = text.len() as nat;
        let ghost cfg = self.cfg();
        let ghost st = self.config.list_indent_style;
        let ghost ru = self.config.list_indent_rule;
        let a0 = Self::align_indent(tokens, self.config.list_indent_style, self.config.list_indent_rule);
        if a0.len() < 2 || a0[0].kind != TokenKind::Hyphen || a0[1].kind != TokenKind::Space {
            proof {
                assert(!list_marker_at(text, ts, st, ru, false));
            }
            return None;
        }
        let mut items: Vec<ListItem> = Vec::new();
        let mut rest: &[Token] = tokens;
        let ghost mut regions: Seq<Seq<Token>> = Seq::empty();
        proof {
            assert(view_list_items(items@) =~= spec_list_items_of(cfg, text, regions));
            assert(regions + spec_list_scan(text, ts, st, ru, false).0 =~= spec_list_scan(
                text,
                ts,
                st,
                ru,
                false,
            ).0);
        }
        while rest.len() > 0
            invariant_except_break
                self.wf(),
                ts == tokens@,
                text == self.text(),
                nn == text.len(),
                cfg == self.cfg(),
                st == self.config.list_indent_style,
                ru == self.config.list_indent_rule,
                list_marker_at(text, ts, st, ru, false),
                tokens_in_bounds(rest@, nn),
                rest@.len() <= ts.len(),
                view_list_items(items@) == spec_list_items_of(cfg, text, regions),
                items@.len() == regions.len(),
                spec_list_scan(text, ts, st, ru, false).0 == regions + spec_list_scan(
                    text,
                    rest@,
                    st,
                    ru,
                    false,
                ).0,
                spec_list_scan(text, ts, st, ru, false).1 == spec_list_scan(
                    text,
                    rest@,
                    st,
                    ru,
                    false,
                ).1,
            ensures
                self.wf(),
                ts == tokens@,
                text == self.text(),
                nn == text.len(),
                cfg == self.cfg(),
                list_marker_at(text, ts, st, ru, false),
                tokens_in_bounds(rest@, nn),
                rest@.len() <= ts.len(),
                view_list_items(items@) == spec_list_items_of(cfg, text, regions),
                items@.len() == regions.len(),
                spec_list_scan(text, ts, st, ru, false) == (regions, rest@),
            decreases rest@.len(),
        {
            let ghost rts = rest@;
            let a = Self::align_indent(rest, self.config.list_indent_style, self.config.list_indent_rule);
            if a.len() < 2 || a[0].kind != TokenKind::Hyphen || a[1].kind != TokenKind::Space {
                proof {
                    assert(!list_marker_at(text, rts, st, ru, false));
                    assert(spec_list_scan(text, rts, st, ru, false) == (
                        Seq::<Seq<Token>>::empty(),
                        rts,
                    ));
                    assert(regions + Seq::<Seq<Token>>::empty() =~= regions);
                }
                break;
            }
            proof {
                assert(list_marker_at(text, rts, st, ru, false));
                crate::grammar::lemma_align_indent_len(rts, st, ru);
                lemma_in_bounds_subrange(rts, nn, 2, rts.len() as int);
            }
            let (region, new_rest) = self.get_until_maybe_block_item(&rest[2..rest.len()]);
            proof {
                lemma_get_until_len(text, rts.subrange(2, rts.len() as int));
            }
            if region.len() == 0 {
                proof {
                    assert(spec_list_scan(text, rts, st, ru, false) == (
                        Seq::<Seq<Token>>::empty(),
                        rts,
                    ));
                    assert(regions + Seq::<Seq<Token>>::empty() =~= regions);
                }
                break;
            }
            let ghost prev_items = items@;
            let item = self.list_item(region);
            items.push(item);
            proof {
                lemma_list_items_of_push(cfg, text, regions, region@);
                crate::tree::lemma_view_list_items_push(prev_items, item);
                let tail = spec_list_scan(text, new_rest@, st, ru, false);
                assert(spec_list_scan(text, rts, st, ru, false) == (
                    seq![region@] + tail.0,
                    tail.1,
                ));
                assert(regions + (seq![region@] + tail.0) =~= regions.push(region@) + tail.0);
                regions = regions.push(region@);
            }
            rest = new_rest;
        }
        if items.len() == 0 {
            proof {
                crate::tree::lemma_view_list_items_index(items@);
                assert(regions.len() == 0);
            }
            return None;
        }
        proof {
            assert(regions.len() > 0);
            assert(spec_bullet_split(cfg, text, ts) == Some((regions, rest@)));
        }
        Some((BlockItem::BulletList(ListTree { root: items }), rest))
    }

    /// Parse an ordered list off the head of the tokens.
    pub fn ordered_list<'b>(&self, tokens: &'b [Token]) -> (r: Option<(BlockItem, &'b [Token])>)
        requires
            self.wf(),
            tokens_in_bounds(tokens@, self.text().len() as nat),
        ensures
            match r {
                Some(p) => spec_ordered_list(self.cfg(), self.text(), tokens@) == Some(
                    (p.0@, p.1@),
                ) && tokens_in_bounds(p.1@, self.text().len() as nat),
                None => spec_ordered_list(self.cfg(), self.text(), tokens@) is None,
            },
        decreases tokens@.len(), 1int,
    {
        let ghost ts = tokens@;
        let ghost text = self.text();
        let ghost nn = text.len() as nat;
        let ghost cfg = self.cfg();
        let ghost st = self.config.list_indent_style;
        let ghost ru = self.config.list_indent_rule;
        let a0 = Self::align_indent(tokens, self.config.list_indent_style, self.config.list_indent_rule);
        if a0.len() < 3 || a0[0].kind != TokenKind::Text || a0[1].kind != TokenKind::Dot
            || a0[2].kind != TokenKind::Space {
            proof {
                assert(!ordered_marker(spec_align_indent(ts, st, ru)));
                assert(!list_marker_at(text, ts, st, ru, true));
            }
            return None;
        }
        proof {
            lemma_in_bounds_align(ts, st, ru, nn);
        }
        if !self.is_digits(a0[0]) {
            proof {
                assert(!list_marker_at(text, ts, st, ru, true));
            }
            return None;
        }
        let mut items: Vec<ListItem> = Vec::new();
        let mut rest: &[Token] = tokens;
        let ghost mut regions: Seq<Seq<Token>> = Seq::empty();
        proof {
            assert(view_list_items(items@) =~= spec_list_items_of(cfg, text, regions));
            assert(regions + spec_list_scan(text, ts, st, ru, true).0 =~= spec_list_scan(
                text,
                ts,
                st,
                ru,
                true,
            ).0);
        }
        while rest.len() > 0
            invariant_except_break
                self.wf(),
                ts == tokens@,
                text == self.text(),
                nn == text.len(),
                cfg == self.cfg(),
                st == self.config.list_indent_style,
                ru == self.config.list_indent_rule,
                list_marker_at(text, ts, st, ru, true),
                tokens_in_bounds(rest@, nn),
                rest@.len() <= ts.len(),
                view_list_items(items@) == spec_list_items_of(cfg, text, regions),
                items@.len() == regions.len(),
                spec_list_scan(text, ts, st, ru, true).0 == regions + spec_list_scan(
                    text,
                    rest@,
                    st,
                    ru,
                    true,
                ).0,
                spec_list_scan(text, ts, st, ru, true).1 == spec_list_scan(
                    text,
                    rest@,
                    st,
                    ru,
                    true,
                ).1,
            ensures
                self.wf(),
                ts == tokens@,
                text == self.text(),
                nn == text.len(),
                cfg == self.cfg(),
                list_marker_at(text, ts, st, ru, true),
                tokens_in_bounds(rest@, nn),
                rest@.len() <= ts.len(),
                view_list_items(items@) == spec_list_items_of(cfg, text, regions),
                items@.len() == regions.len(),
                spec_list_scan(text, ts, st, ru, true) == (regions, rest@),
            decreases rest@.len(),
        {
            let ghost rts = rest@;
            let a = Self::align_indent(rest, self.config.list_indent_style, self.config.list_indent_rule);
            if a.len() < 3 || a[0].kind != TokenKind::Text || a[1].kind != TokenKind::Dot
                || a[2].kind != TokenKind::Space {
                proof {
                    assert(!ordered_marker(spec_align_indent(rts, st, ru)));
                    assert(!list_marker_at(text, rts, st, ru, true));
                    assert(spec_list_scan(text, rts, st, ru, true) == (
                        Seq::<Seq<Token>>::empty(),
                        rts,
                    ));
                    assert(regions + Seq::<Seq<Token>>::empty() =~= regions);
                }
                break;
            }
            proof {
                lemma_in_bounds_align(rts, st, ru, nn);
            }
            if !self.is_digits(a[0]) {
                proof {
                    assert(!list_marker_at(text, rts, st, ru, true));
                    assert(spec_list_scan(text, rts, st, ru, true) == (
                        Seq::<Seq<Token>>::empty(),
                        rts,
                    ));
                    assert(regions + Seq::<Seq<Token>>::empty() =~= regions);
                }
                break;
            }
            proof {
                assert(list_marker_at(text, rts, st, ru, true));
                crate::grammar::lemma_align_indent_len(rts, st, ru);
                lemma_in_bounds_subrange(rts, nn, 3, rts.len() as int);
            }
            let (region, new_rest) = self.get_until_maybe_block_item(&rest[3..rest.len()]);
            proof {
                lemma_get_until_len(text, rts.subrange(3, rts.len() as int));
            }
            if region.len() == 0 {
                proof {
                    assert(spec_list_scan(text, rts, st, ru, true) == (
                        Seq::<Seq<Token>>::empty(),
                        rts,
                    ));
                    assert(regions + Seq::<Seq<Token>>::empty() =~= regions);
                }
                break;
            }
            let ghost prev_items = items@;
            let item = self.list_item(region);
            items.push(item);
            proof {
                lemma_list_items_of_push(cfg, text, regions, region@);
                crate::tree::lemma_view_list_items_push(prev_items, item);
                let tail = spec_list_scan(text, new_rest@, st, ru, true);
                assert(spec_list_scan(text, rts, st, ru, true) == (
                    seq![region@] + tail.0,
                    tail.1,
                ));
                assert(regions + (seq![region@] + tail.0) =~= regions.push(region@) + tail.0);
                regions = regions.push(region@);
            }
            rest = new_rest;
        }
        if items.len() == 0 {
            proof {
                crate::tree::lemma_view_list_items_index(items@);
                assert(regions.len() == 0);
            }
            return None;
        }
        proof {
            assert(regions.len() > 0);
            assert(spec_ordered_split(cfg, text, ts) == Some((regions, rest@)));
        }
        Some((BlockItem::OrderedList(ListTree { root: items }), rest))
    }


    /// Parse a blockquote off the head of the tokens.
    pub fn blockquote<'b>(&self, tokens: &'b [Token]) -> (r: Option<(BlockItem, &'b [Token])>)
        requires
            self.wf(),
            tokens_in_bounds(tokens@, self.text().len() as nat),
        ensures
            match r {
                Some(p) => spec_blockquote(self.cfg(), self.text(), tokens@) == Some((p.0@, p.1@))
                    && tokens_in_bounds(p.1@, self.text().len() as nat),
                None => spec_blockquote(self.cfg(), self.text(), tokens@) is None,
            },
        decreases tokens@.len(), 1int,
    {
        let ghost ts = tokens@;
        let ghost text = self.text();
        let ghost nn = text.len() as nat;
        let ghost cfg = self.cfg();
        if tokens.len() == 0 || tokens[0].kind != TokenKind::Gt {
            return None;
        }
        let mut buf: Vec<Token> = Vec::new();
        let mut rest: &[Token] = tokens;
        proof {
            assert(buf@ + spec_dequote(text, rest@).0 =~= spec_dequote(text, rest@).0);
        }
        while rest.len() > 0
            invariant_except_break
                self.wf(),
                ts == tokens@,
                text == self.text(),
                nn == text.len(),
                cfg == self.cfg(),
                tokens_in_bounds(rest@, nn),
                tokens_in_bounds(buf@, nn),
                rest@.len() <= ts.len(),
                spec_dequote(text, ts).0 == buf@ + spec_dequote(text, rest@).0,
                spec_dequote(text, ts).1 == spec_dequote(text, rest@).1,
            ensures
                self.wf(),
                ts == tokens@,
                text == self.text(),
                nn == text.len(),
                cfg == self.cfg(),
                tokens_in_bounds(rest@, nn),
                tokens_in_bounds(buf@, nn),
                rest@.len() <= ts.len(),
                spec_dequote(text, ts).0 == buf@,
                spec_dequote(text, ts).1 == rest@,
            decreases rest@.len(),
        {
            let ghost rts = rest@;
            let ghost prev = buf@;
            if rest[0].kind != TokenKind::Gt {
                proof {
                    assert(spec_dequote(text, rts).0 =~= Seq::<Token>::empty());
                    assert(prev + Seq::<Token>::empty() =~= prev);
                }
                break;
            }
            proof {
                lemma_in_bounds_subrange(rts, nn, 1, rts.len() as int);
            }
            let sub = &rest[1..rest.len()];
            let (line, nr) = Self::get_line(sub, false);
            proof {
                lemma_get_line_len(sub@, false);
                lemma_in_bounds_get_line(sub@, false, nn);
            }
            let line2: &[Token] = if self.maybe_block_item(line, true) {
                Self::align_indent(line, IndentStyle::Space(2), IndentRule::Loose)
            } else {
                Self::trim_start(line, TokenKind::Space)
            };
            proof {
                lemma_in_bounds_align(line@, IndentStyle::Space(2), IndentRule::Loose, nn);
                lemma_in_bounds_trim_start(line@, TokenKind::Space, nn);
            }
            let ghost mid0 = buf@;
            let mut q: usize = 0;
            proof {
                assert(mid0 + line2@.subrange(0, 0) =~= mid0);
            }
            while q < line2.len()
                invariant
                    0 <= q <= line2@.len(),
                    buf@ == mid0 + line2@.subrange(0, q as int),
                decreases line2@.len() - q,
            {
                buf.push(line2[q]);
                proof {
                    assert(line2@.subrange(0, q + 1) =~= line2@.subrange(0, q as int).push(
                        line2@[q as int],
                    ));
                }
                q = q + 1;
            }
            proof {
                assert(line2@.subrange(0, line2@.len() as int) =~= line2@);
            }
            if 1 + line.len() < rest.len() {
                buf.push(rest[1 + line.len()]);
            }
            proof {
                let brk = if 1 + line@.len() < rts.len() {
                    seq![rts[1 + line@.len() as int]]
                } else {
                    Seq::<Token>::empty()
                };
                assert(buf@ =~= (prev + line2@) + brk);
                assert(spec_dequote(text, rts).0 == line2@ + brk + spec_dequote(text, nr@).0);
                assert(prev + (line2@ + brk + spec_dequote(text, nr@).0) =~= ((prev + line2@)
                    + brk) + spec_dequote(text, nr@).0);
                assert(tokens_in_bounds(buf@, nn)) by {
                    crate::grammar::lemma_in_bounds_concat(prev + line2@, brk, nn);
                    crate::grammar::lemma_in_bounds_concat(prev, line2@, nn);
                    if 1 + line@.len() < rts.len() {
                        assert(brk[0] == rts[1 + line@.len() as int]);
                    }
                }
            }
            rest = nr;
        }
        proof {
            lemma_dequote_len(text, ts);
        }
        let bt = self.block_tree(buf.as_slice());
        Some((BlockItem::BlockQuote(bt), rest))
    }

    /// Try the non-paragraph productions in their fixed order.
    pub fn not_paragraph<'b>(&self, tokens: &'b [Token]) -> (r: Option<(BlockItem, &'b [Token])>)
        requires
            self.wf(),
            tokens_in_bounds(tokens@, self.text().len() as nat),
        ensures
            match r {
                Some(p) => spec_not_paragraph(self.cfg(), self.text(), tokens@) == Some(
                    (p.0@, p.1@),
                ) && tokens_in_bounds(p.1@, self.text().len() as nat),
                None => spec_not_paragraph(self.cfg(), self.text(), tokens@) is None,
            },
        decreases tokens@.len(), 2int,
    {
        let h = self.headline(tokens);
        if h.is_some() {
            return h;
        }
        let b = self.bullet_list(tokens);
        if b.is_some() {
            return b;
        }
        let o = self.ordered_list(tokens);
        if o.is_some() {
            return o;
        }
        self.blockquote(tokens)
    }

    /// Parse all tokens into a block tree.
    pub fn block_tree(&self, tokens: &[Token]) -> (r: BlockTree)
        requires
            self.wf(),
            tokens_in_bounds(tokens@, self.text().len() as nat),
        ensures
            view_blocks(r.root@) == spec_block_items(self.cfg(), self.text(), tokens@),
        decreases tokens@.len(), 3int,
    {
        let ghost ts = tokens@;
        let ghost text = self.text();
        let ghost nn = text.len() as nat;
        let ghost cfg = self.cfg();
        let mut items: Vec<BlockItem> = Vec::new();
        let mut rest: &[Token] = tokens;
        proof {
            assert(view_blocks(items@) + spec_block_items(cfg, text, rest@) =~= spec_block_items(
                cfg,
                text,
                rest@,
            ));
        }
        while rest.len() > 0
            invariant
                self.wf(),
                ts == tokens@,
                text == self.text(),
                nn == text.len(),
                cfg == self.cfg(),
                tokens_in_bounds(rest@, nn),
                rest@.len() <= ts.len(),
                spec_block_items(cfg, text, ts) == view_blocks(items@) + spec_block_items(
                    cfg,
                    text,
                    rest@,
                ),
            decreases rest@.len(),
        {
            let ghost rts = rest@;
            let ghost prev = items@;
            proof {
                lemma_block_items_step(cfg, text, rts);
            }
            let step = self.not_paragraph(rest);
            if let Some((item, nr)) = step {
                proof {
                    crate::tree::lemma_view_blocks_push(prev, item);
                    assert(view_blocks(prev) + (seq![item@] + spec_block_items(cfg, text, nr@))
                        =~= (view_blocks(prev) + seq![item@]) + spec_block_items(cfg, text, nr@));
                }
                items.push(item);
                rest = nr;
            } else {
                match self.paragraph(rest) {
                    Some((item, nr)) => {
                        proof {
                            crate::tree::lemma_view_blocks_push(prev, item);
                            assert(view_blocks(prev) + (seq![item@] + spec_block_items(
                                cfg,
                                text,
                                nr@,
                            )) =~= (view_blocks(prev) + seq![item@]) + spec_block_items(
                                cfg,
                                text,
                                nr@,
                            ));
                        }
                        items.push(item);
                        rest = nr;
                    },
                    None => {
                        proof {
                            assert(false);
                        }
                    },
                }
            }
        }
        proof {
            assert(view_blocks(items@) + spec_block_items(cfg, text, rest@) =~= view_blocks(
                items@,
            ));
        }
        BlockTree { root: items }
    }

    /// Parse tokens into a markup tree.
    pub fn markdown_tree(&self, tokens: &[Token]) -> (r: MarkdownTree)
        requires
            self.wf(),
            tokens_in_bounds(tokens@, self.text().len() as nat),
        ensures
            r@ == spec_block_items(self.cfg(), self.text(), tokens@),
    {
        MarkdownTree { root: self.block_tree(tokens) }
    }

    /// Parse tokens into a markup tree.
    pub fn parse(&self, tokens: Vec<Token>) -> (r: MarkdownTree)
        requires
            self.wf(),
            tokens_in_bounds(tokens@, self.text().len() as nat),
        ensures
            r@ == spec_block_items(self.cfg(), self.text(), tokens@),
    {
        self.markdown_tree(tokens.as_slice())
    }
}

impl Parser {
    /// Parse tokens into a markup tree: the whole grammar, under this
    /// configuration, over the given source text.
    pub fn parse(&self, input: &str, tokens: &[Token]) -> (r: MarkdownTree)
        requires
            config_wf(*self),
            tokens_in_bounds(tokens@, input@.len() as nat),
        ensures
            r@ == spec_block_items(*self, input@, tokens@),
    {
        let ex = Executor::with_config(input, self.clone());
        ex.markdown_tree(tokens)
    }
}


/// Every block tree the grammar produces is well-formed: headline levels
/// always lie between one and six.
pub proof fn lemma_block_items_wf(cfg: Parser, input: Seq<char>, ts: Seq<Token>)
    ensures
        crate::tree::blocks_wf(spec_block_items(cfg, input, ts)),
    decreases ts.len(), 1int,
{
    if ts.len() > 0 {
        lemma_headline_rest(cfg, input, ts);
        lemma_paragraph_rest(cfg, input, ts);
        lemma_list_scan_len(input, ts, cfg.list_indent_style, cfg.list_indent_rule, false);
        lemma_list_scan_len(input, ts, cfg.list_indent_style, cfg.list_indent_rule, true);
        lemma_dequote_len(input, ts);
        match spec_headline(cfg, input, ts) {
            Some((item, rest)) => {
                lemma_block_items_wf(cfg, input, rest);
                lemma_wf_cons(item, spec_block_items(cfg, input, rest));
            },
            None => {
                match spec_bullet_split(cfg, input, ts) {
                    Some((rs, fr)) => {
                        lemma_sum_lens_bounds(rs);
                        lemma_list_items_of_wf(cfg, input, rs);
                        lemma_block_items_wf(cfg, input, fr);
                        lemma_wf_cons(
                            SpecBlock::BulletList(spec_list_items_of(cfg, input, rs)),
                            spec_block_items(cfg, input, fr),
                        );
                    },
                    None => {
                        match spec_ordered_split(cfg, input, ts) {
                            Some((rs, fr)) => {
                                lemma_sum_lens_bounds(rs);
                                lemma_list_items_of_wf(cfg, input, rs);
                                lemma_block_items_wf(cfg, input, fr);
                                lemma_wf_cons(
                                    SpecBlock::OrderedList(spec_list_items_of(cfg, input, rs)),
                                    spec_block_items(cfg, input, fr),
                                );
                            },
                            None => {
                                if ts[0].kind == TokenKind::Gt {
                                    lemma_block_items_wf(cfg, input, spec_dequote(input, ts).0);
                                    lemma_block_items_wf(cfg, input, spec_dequote(input, ts).1);
                                    lemma_wf_cons(
                                        SpecBlock::BlockQuote(
                                            spec_block_items(cfg, input, spec_dequote(input, ts).0),
                                        ),
                                        spec_block_items(cfg, input, spec_dequote(input, ts).1),
                                    );
                                } else {
                                    lemma_block_items_wf(
                                        cfg,
                                        input,
                                        spec_paragraph(cfg, input, ts).1,
                                    );
                                    lemma_wf_cons(
                                        spec_paragraph(cfg, input, ts).0,
                                        spec_block_items(cfg, input, spec_paragraph(cfg, input, ts).1),
                                    );
                                }
                            },
                        }
                    },
                }
            },
        }
    }
}

/// A well-formed block in front of a well-formed sequence keeps it
/// well-formed.
proof fn lemma_wf_cons(b: SpecBlock, bs: Seq<SpecBlock>)
    requires
        crate::tree::block_wf(b),
        crate::tree::blocks_wf(bs),
    ensures
        crate::tree::blocks_wf(seq![b] + bs),
{
    assert((seq![b] + bs)[0] == b);
    assert((seq![b] + bs).drop_first() =~= bs);
}

/// Every list item sequence the grammar produces is well-formed.
proof fn lemma_list_items_of_wf(cfg: Parser, input: Seq<char>, rs: Seq<Seq<Token>>)
    ensures
        crate::tree::list_items_wf(spec_list_items_of(cfg, input, rs)),
    decreases sum_lens(rs) + rs.len(), 0int,
{
    lemma_sum_lens_bounds(rs);
    if rs.len() > 0 {
        lemma_sum_lens_bounds(rs.drop_first());
        assert(sum_lens(rs) == rs[0].len() + sum_lens(rs.drop_first()));
        lemma_list_item_wf(cfg, input, rs[0]);
        lemma_list_items_of_wf(cfg, input, rs.drop_first());
        let items = spec_list_items_of(cfg, input, rs);
        assert(items[0] == spec_list_item(cfg, input, rs[0]));
        assert(items.drop_first() =~= spec_list_items_of(cfg, input, rs.drop_first()));
    }
}

/// Every list item the grammar produces has well-formed children.
proof fn lemma_list_item_wf(cfg: Parser, input: Seq<char>, ts: Seq<Token>)
    ensures
        crate::tree::blocks_wf(spec_list_item(cfg, input, ts).children),
    decreases ts.len(), 2int,
{
    lemma_label_split_len(ts, cfg.list_indent_style);
    let crest = spec_label_split(ts, cfg.list_indent_style).1;
    lemma_reduce_indent_len(crest, cfg.list_indent_style, true);
    lemma_block_items_wf(cfg, input, spec_reduce_indent(crest, cfg.list_indent_style, true));
}


/// The grammar yields no more block items than it was given tokens.
pub proof fn lemma_block_items_len(cfg: Parser, input: Seq<char>, ts: Seq<Token>)
    ensures
        spec_block_items(cfg, input, ts).len() <= ts.len(),
    decreases ts.len(),
{
    if ts.len() > 0 {
        lemma_block_items_step(cfg, input, ts);
        match spec_not_paragraph(cfg, input, ts) {
            Some((item, rest)) => {
                lemma_block_items_len(cfg, input, rest);
            },
            None => {
                lemma_block_items_len(cfg, input, spec_paragraph(cfg, input, ts).1);
            },
        }
    }
}


/// Heading monotonicity, first half: a line of `n` pound marks and a
/// space, for `n` between one and six, always parses to a headline of
/// level exactly `n`, whatever follows and under every configuration.
pub proof fn lemma_heading_level(cfg: Parser, input: Seq<char>, ts: Seq<Token>, n: int)
    requires
        1 <= n <= 6,
        n < ts.len(),
        forall|k: int| 0 <= k < n ==> (#[trigger] ts[k]).kind == TokenKind::Pound,
        ts[n as int].kind == TokenKind::Space,
    ensures
        spec_headline(cfg, input, ts) is Some,
        spec_headline(cfg, input, ts)->Some_0.0 is Headline,
        spec_headline(cfg, input, ts)->Some_0.0->Headline_0 == n as u8,
        spec_block_items(cfg, input, ts).len() > 0,
        spec_block_items(cfg, input, ts)[0] == spec_headline(cfg, input, ts)->Some_0.0,
{
    assert(!is_ws(ts[0].kind));
    assert(spec_trim_ws(ts) == ts);
    lemma_lead_count(ts, TokenKind::Pound, 0);
    let c = lead_count(ts, TokenKind::Pound, 0);
    assert(c >= n) by {
        if c < n {
            assert(ts[c].kind == TokenKind::Pound);
            assert(c + lead_count(ts, TokenKind::Pound, c) == c);
        }
    }
    assert(c == n) by {
        if c > n {
            assert(ts[n as int].kind == TokenKind::Pound);
        }
    }
    assert(spec_headline_level(ts) == n);
    lemma_block_items_step(cfg, input, ts);
}

/// Heading monotonicity, second half: a line of seven pound marks and a
/// space is no headline (no seventh level exists); with nothing else to
/// match at its head, it falls back to the paragraph catch-all.
pub proof fn lemma_seven_pounds_paragraph(cfg: Parser, input: Seq<char>, ts: Seq<Token>)
    requires
        7 < ts.len(),
        forall|k: int| 0 <= k < 7 ==> (#[trigger] ts[k]).kind == TokenKind::Pound,
        ts[7].kind == TokenKind::Space,
    ensures
        spec_headline(cfg, input, ts) is None,
        spec_not_paragraph(cfg, input, ts) is None,
        spec_block_items(cfg, input, ts).len() > 0,
        spec_block_items(cfg, input, ts)[0] == spec_paragraph(cfg, input, ts).0,
        spec_block_items(cfg, input, ts)[0] is Paragraph,
    {
    assert(!is_ws(ts[0].kind));
    assert(spec_trim_ws(ts) == ts);
    lemma_lead_count(ts, TokenKind::Pound, 0);
    let c = lead_count(ts, TokenKind::Pound, 0);
    assert(c >= 7) by {
        if c < 7 {
            assert(ts[c].kind == TokenKind::Pound);
            assert(c + lead_count(ts, TokenKind::Pound, c) == c);
        }
    }
    assert(spec_headline_level(ts) == 0);
    let st = cfg.list_indent_style;
    let ru = cfg.list_indent_rule;
    let a = spec_align_indent(ts, st, ru);
    assert(a[0].kind == TokenKind::Pound) by {
        match ru {
            IndentRule::Strict => {},
            IndentRule::Loose => {
                lemma_indent_level(ts, st);
                let r = spec_indent_level(ts, st).1;
                assert(r == 0) by {
                    match st {
                        IndentStyle::Space(u) => {
                            assert(lead_count(ts, TokenKind::Space, 0) == 0);
                            if u > 0 {
                                assert(0int % (u as int) == 0);
                            }
                        },
                        IndentStyle::Tab => {},
                        IndentStyle::Both => {
                            assert(crate::grammar::lead_ws_spaces(ts, 0) == 0);
                            assert(crate::grammar::lead_ws_tabs(ts, 0) == 0);
                        },
                    }
                }
                assert(a =~= ts);
            },
        }
    }
    assert(spec_bullet_split(cfg, input, ts) is None);
    assert(spec_ordered_split(cfg, input, ts) is None);
    assert(ts[0].kind != TokenKind::Gt);
    lemma_block_items_step(cfg, input, ts);
}


/// Heading monotonicity over the whole pipeline: a text that opens with
/// `n` pound marks and a space, for `n` between one and six, always
/// parses to a tree whose first block is a headline of level exactly `n`.
pub proof fn lemma_text_heading_level(cfg: Parser, s: Seq<char>, n: int)
    requires
        1 <= n <= 6,
        n < s.len() <= usize::MAX,
        forall|k: int| 0 <= k < n ==> s[k] == '#',
        s[n as int] == ' ',
    ensures
        spec_block_items(cfg, s, crate::lexer::spec_lex(s)).len() > 0,
        spec_block_items(cfg, s, crate::lexer::spec_lex(s))[0] is Headline,
        spec_block_items(cfg, s, crate::lexer::spec_lex(s))[0]->Headline_0 == n as u8,
{
    crate::lexer::lemma_lex_pound_space(s, n);
    lemma_heading_level(cfg, s, crate::lexer::spec_lex(s), n);
}

/// Heading monotonicity, the falling edge: a text that opens with seven
/// pound marks and a space has no seventh headline level, so its first
/// block is a paragraph.
pub proof fn lemma_text_seven_pounds(cfg: Parser, s: Seq<char>)
    requires
        7 < s.len() <= usize::MAX,
        forall|k: int| 0 <= k < 7 ==> s[k] == '#',
        s[7] == ' ',
    ensures
        spec_block_items(cfg, s, crate::lexer::spec_lex(s)).len() > 0,
        spec_block_items(cfg, s, crate::lexer::spec_lex(s))[0] is Paragraph,
{
    crate::lexer::lemma_lex_pound_space(s, 7);
    lemma_seven_pounds_paragraph(cfg, s, crate::lexer::spec_lex(s));
}

} // verus!
