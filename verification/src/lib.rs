//! note_mark is a markdown parser: a library that turns lightweight markup
//! text into an HTML-like element tree and its string form, with a verified
//! tokenizer, parser, transformer, stringifier and table-of-contents builder.

pub mod config;
pub mod grammar;
pub mod html;
pub mod lexer;
pub mod parser;
pub mod stringifier;
pub mod stringify;
pub mod toc;
pub mod token;
pub mod transformer;
pub mod tree;

use vstd::prelude::*;

use crate::html::SpecNode;
use crate::lexer::{lemma_spec_lex_len, lex, spec_lex};
use crate::parser::{
    config_wf, default_config, lemma_block_items_len, lemma_block_items_wf, spec_block_items,
    Parser,
};
use crate::stringifier::{spec_stringify, Stringifier};
use crate::toc::{spec_collect, spec_list_tag, spec_nest, ListType, TocMaker};
use crate::transformer::{spec_transform_blocks, Transformer};

verus! {

/// Markup processor: the lexer, parser, transformer, stringifier and
/// table-of-contents maker assembled into one pipeline.
#[derive(Debug, Clone, Copy)]
pub struct Markdown {
    /// The parser configuration.
    parser: Parser,
    /// The transformer configuration.
    transformer: Transformer,
    /// The stringifier configuration.
    stringifier: Stringifier,
    /// The table-of-contents maker configuration.
    toc_maker: TocMaker,
}

/// The element tree of a text under a parser configuration: lexed,
/// parsed, and transformed.
pub open spec fn spec_document(cfg: Parser, input: Seq<char>) -> Seq<SpecNode> {
    spec_transform_blocks(spec_block_items(cfg, input, spec_lex(input)))
}

/// The output of the whole pipeline on a text.
pub open spec fn spec_execute(cfg: Parser, format: bool, width: u32, input: Seq<char>) -> Seq<
    char,
> {
    spec_stringify(spec_document(cfg, input), format, width)
}

impl Default for Markdown {
    /// The default pipeline: every stage under its own defaults.
    fn default() -> (r: Self)
        ensures
            r.parser_config() == default_config(),
            !r.transformer_config().sectioned(),
            !r.stringifier_config().format,
            r.stringifier_config().width == 20,
            r.toc_config().depth() == 3,
            r.toc_config().list_form() == ListType::Unordered,
    {
        Markdown {
            parser: Parser::new(),
            transformer: Transformer::new(),
            stringifier: Stringifier::new(),
            toc_maker: TocMaker::default(),
        }
    }
}

impl Markdown {
    /// The parser configuration of the pipeline.
    pub closed spec fn parser_config(&self) -> Parser {
        self.parser
    }

    /// The transformer configuration of the pipeline.
    pub closed spec fn transformer_config(&self) -> Transformer {
        self.transformer
    }

    /// The stringifier configuration of the pipeline.
    pub closed spec fn stringifier_config(&self) -> Stringifier {
        self.stringifier
    }

    /// The table-of-contents configuration of the pipeline.
    pub closed spec fn toc_config(&self) -> TocMaker {
        self.toc_maker
    }

    /// Create a pipeline with the default configuration.
    pub fn new() -> (r: Self)
        ensures
            r.parser_config() == default_config(),
            !r.transformer_config().sectioned(),
            !r.stringifier_config().format,
            r.stringifier_config().width == 20,
            r.toc_config().depth() == 3,
            r.toc_config().list_form() == ListType::Unordered,
    {
        Self::default()
    }

    /// Set the parser configuration.
    pub fn parser(self, parser: Parser) -> (r: Self)
        ensures
            r.parser_config() == parser,
            r.transformer_config() == self.transformer_config(),
            r.stringifier_config() == self.stringifier_config(),
            r.toc_config() == self.toc_config(),
    {
        Markdown { parser, ..self }
    }

    /// Set the transformer configuration.
    pub fn transformer(self, transformer: Transformer) -> (r: Self)
        ensures
            r.parser_config() == self.parser_config(),
            r.transformer_config() == transformer,
            r.stringifier_config() == self.stringifier_config(),
            r.toc_config() == self.toc_config(),
    {
        Markdown { transformer, ..self }
    }

    /// Set the stringifier configuration.
    pub fn stringifier(self, stringifier: Stringifier) -> (r: Self)
        ensures
            r.parser_config() == self.parser_config(),
            r.transformer_config() == self.transformer_config(),
            r.stringifier_config() == stringifier,
            r.toc_config() == self.toc_config(),
    {
        Markdown { stringifier, ..self }
    }

    /// Set the table-of-contents maker configuration.
    pub fn toc_maker(self, toc_maker: TocMaker) -> (r: Self)
        ensures
            r.parser_config() == self.parser_config(),
            r.transformer_config() == self.transformer_config(),
            r.stringifier_config() == self.stringifier_config(),
            r.toc_config() == toc_maker,
    {
        Markdown { toc_maker, ..self }
    }

    /// Run the pipeline: lex the text, parse it, transform the tree, and
    /// stringify the document.
    pub fn execute(&self, input: &str) -> (r: String)
        requires
            config_wf(self.parser_config()),
        ensures
            r@ == spec_execute(
                self.parser_config(),
                self.stringifier_config().format,
                self.stringifier_config().width,
                input@,
            ),
    {
        let tokens = lex(input);
        let tree = self.parser.parse(input, tokens.as_slice());
        proof {
            lemma_block_items_wf(self.parser, input@, tokens@);
        }
        let document = self.transformer.transform(tree);
        self.stringifier.stringify(document)
    }

    /// Run the pipeline and build the table of contents beside it: the
    /// document string (its headings now carrying anchor ids) and the
    /// table's own string.
    pub fn execute_with_toc(&self, input: &str) -> (r: (String, String))
        requires
            config_wf(self.parser_config()),
            input@.len() < usize::MAX,
        ensures
            ({
                let c = spec_collect(
                    spec_document(self.parser_config(), input@),
                    self.toc_config().depth(),
                    Seq::empty(),
                );
                r.0@ == spec_stringify(
                    c.2,
                    self.stringifier_config().format,
                    self.stringifier_config().width,
                ) && r.1@ == spec_stringify(
                    seq![spec_nest(c.0, spec_list_tag(self.toc_config().list_form()))],
                    self.stringifier_config().format,
                    self.stringifier_config().width,
                )
            }),
    {
        let tokens = lex(input);
        let tree = self.parser.parse(input, tokens.as_slice());
        proof {
            lemma_block_items_wf(self.parser, input@, tokens@);
            lemma_block_items_len(self.parser, input@, tokens@);
            lemma_spec_lex_len(input@);
            crate::tree::lemma_view_blocks_index(tree.root.root@);
            crate::transformer::lemma_transform_blocks_index(tree@);
        }
        let mut document = self.transformer.transform(tree);
        proof {
            crate::html::lemma_view_nodes_index(document.root@);
        }
        let toc = self.toc_maker.make_toc(&mut document);
        (self.stringifier.stringify(document), self.stringifier.stringify(toc))
    }
}

} // verus!
