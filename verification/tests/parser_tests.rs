use note_mark::config::{HeadlineEnding, IndentStyle, ParagraphEnding};
use note_mark::lexer::lex;
use note_mark::parser::{Executor, Parser};
use note_mark::token::Token;
use note_mark::tree::{
    BlockItem, BlockTree, InlineItem, InlineTree, ListItem, ListTree, MarkdownTree,
};

fn text(s: &str) -> InlineItem {
    InlineItem::Text(s.to_string())
}

fn italic(items: Vec<InlineItem>) -> InlineItem {
    InlineItem::Italic(InlineTree { root: items })
}

fn strong(items: Vec<InlineItem>) -> InlineItem {
    InlineItem::Strong(InlineTree { root: items })
}

fn lex_to_vec(input: &str) -> Vec<Token> {
    lex(input)
}

#[test]
fn test_parse() {
    let input = "# Hello *World*!\n\nparagraph\n\n";

    let tokens = lex(input);

    let tree = Parser::new().parse(input, &tokens);

    assert_eq!(
        tree,
        MarkdownTree {
            root: BlockTree {
                root: vec![
                    BlockItem::Headline(
                        1,
                        InlineTree {
                            root: vec![
                                text("Hello "),
                                italic(vec![text("World")]),
                                text("!"),
                            ]
                        }
                    ),
                    BlockItem::Paragraph(InlineTree {
                        root: vec![text("paragraph")]
                    }),
                ]
            }
        }
    );
}

#[test]
fn test_reduce_indent() {
    let input = "  # Hello *World*!\n\nparagraph\n\n";
    let tokens = lex_to_vec(input);

    let result = Executor::reduce_indent(&tokens, IndentStyle::Space(2), true)
        .into_iter()
        .map(|token| token.kind)
        .collect::<Vec<_>>();

    let expected = "# Hello *World*!\n\nparagraph\n\n";
    let expected_tokens = lex(expected)
        .into_iter()
        .map(|token| token.kind)
        .collect::<Vec<_>>();

    assert_eq!(result, expected_tokens);
}

#[test]
fn test_block_tree() {
    let input = "# Hello *World*!\n\nparagraph\n\n";
    let tokens = lex_to_vec(input);
    let parser = Executor::new(input);

    let tree = parser.block_tree(&tokens);

    assert_eq!(
        tree,
        BlockTree {
            root: vec![
                BlockItem::Headline(
                    1,
                    InlineTree {
                        root: vec![
                            text("Hello "),
                            italic(vec![text("World")]),
                            text("!"),
                        ]
                    }
                ),
                BlockItem::Paragraph(InlineTree {
                    root: vec![text("paragraph")]
                }),
            ]
        }
    );
}

#[test]
fn test_paragraph() {
    let input = "Hello *World*!\n\n";
    let tokens = lex_to_vec(input);
    let parser = Executor::new(input);

    let (item, rest) = parser.paragraph(&tokens).unwrap();

    assert_eq!(
        item,
        BlockItem::Paragraph(InlineTree {
            root: vec![
                text("Hello "),
                italic(vec![text("World")]),
                text("!"),
            ]
        })
    );
    assert_eq!(rest.len(), 0);

    let input = "Hello\n";

    let tokens = lex_to_vec(input);
    let parser = Executor::new(input);

    let (item, rest) = parser.paragraph(&tokens).unwrap();

    assert_eq!(
        item,
        BlockItem::Paragraph(InlineTree {
            root: vec![text("Hello")]
        })
    );

    assert_eq!(rest.len(), 0);
}

#[test]
fn test_paragraph_before_not_paragraph() {
    let input = "Hello *World*!\n# Hello\n";
    let tokens = lex_to_vec(input);
    let parser = Executor::with_config(
        input,
        Parser::new().paragraph_ending(ParagraphEnding::AllowSoftBreak),
    );

    let (item, rest) = parser.paragraph(&tokens).unwrap();

    assert_eq!(
        item,
        BlockItem::Paragraph(InlineTree {
            root: vec![
                text("Hello "),
                italic(vec![text("World")]),
                text("!"),
            ]
        })
    );

    assert_eq!(rest.len(), 4);
}

#[test]
fn test_headline() {
    let input = "###  Hello *World*!\n\n";
    let tokens = lex_to_vec(input);
    let parser = Executor::new(input);

    let (item, rest) = parser.headline(&tokens).unwrap();

    assert_eq!(
        item,
        BlockItem::Headline(
            3,
            InlineTree {
                root: vec![
                    text("Hello "),
                    italic(vec![text("World")]),
                    text("!"),
                ]
            }
        )
    );

    assert_eq!(rest.len(), 0);
}

#[test]
fn test_headline2() {
    let input = "# Hello World!\n# Goodbye\n";
    let tokens = lex_to_vec(input);
    let parser = Executor::new(input);

    let (item, _) = parser.headline(&tokens).unwrap();

    assert_ne!(
        item,
        BlockItem::Headline(
            1,
            InlineTree {
                root: vec![text("Hello World!")]
            }
        )
    );

    let parser = Executor::with_config(
        input,
        Parser::default().headline_ending(HeadlineEnding::AllowSoftBreak),
    );

    let (item, _) = parser.headline(&tokens).unwrap();

    assert_eq!(
        item,
        BlockItem::Headline(
            1,
            InlineTree {
                root: vec![text("Hello World!")]
            }
        )
    );
}

#[test]
fn test_bullet_list() {
    let input = "- Hello *World*!\n- Hello *World*!\n\n";
    let tokens = lex_to_vec(input);
    let parser = Executor::new(input);

    let (item, rest) = parser.bullet_list(&tokens).unwrap();

    assert_eq!(
        item,
        BlockItem::BulletList(ListTree {
            root: vec![
                ListItem {
                    name: InlineTree {
                        root: vec![
                            text("Hello "),
                            italic(vec![text("World")]),
                            text("!"),
                        ]
                    },
                    children: vec![]
                },
                ListItem {
                    name: InlineTree {
                        root: vec![
                            text("Hello "),
                            italic(vec![text("World")]),
                            text("!"),
                        ]
                    },
                    children: vec![]
                },
            ]
        }),
    );

    assert_eq!(rest.len(), 0);

    let input = "- Hello!\n  - Fooo!\nHappy\n  - hogee!\n- Good\njobs\n# End\n";
    let tokens = lex_to_vec(input);
    let parser = Executor::new(input);

    let (item, rest) = parser.bullet_list(&tokens).unwrap();

    assert_eq!(
        item,
        BlockItem::BulletList(ListTree {
            root: vec![
                ListItem {
                    name: InlineTree {
                        root: vec![text("Hello!")]
                    },
                    children: vec![BlockItem::BulletList(ListTree {
                        root: vec![
                            ListItem {
                                name: InlineTree {
                                    root: vec![
                                        text("Fooo!"),
                                        InlineItem::Break,
                                        text("Happy")
                                    ]
                                },
                                children: vec![]
                            },
                            ListItem {
                                name: InlineTree {
                                    root: vec![text("hogee!")]
                                },
                                children: vec![]
                            }
                        ]
                    }),]
                },
                ListItem {
                    name: InlineTree {
                        root: vec![
                            text("Good"),
                            InlineItem::Break,
                            text("jobs")
                        ]
                    },
                    children: vec![]
                },
            ]
        }),
    );

    assert_eq!(rest.len(), 4);
}

#[test]
fn ordered_list() {
    let input = "1. Hello!\n  1. Fooo!\nHappy\n  1. hogee!\n1. Good\njobs\n# End\n";
    let tokens = lex_to_vec(input);
    let parser = Executor::new(input);

    let (item, rest) = parser.ordered_list(&tokens).unwrap();

    assert_eq!(
        item,
        BlockItem::OrderedList(ListTree {
            root: vec![
                ListItem {
                    name: InlineTree {
                        root: vec![text("Hello!")]
                    },
                    children: vec![BlockItem::OrderedList(ListTree {
                        root: vec![
                            ListItem {
                                name: InlineTree {
                                    root: vec![
                                        text("Fooo!"),
                                        InlineItem::Break,
                                        text("Happy")
                                    ]
                                },
                                children: vec![]
                            },
                            ListItem {
                                name: InlineTree {
                                    root: vec![text("hogee!")]
                                },
                                children: vec![]
                            }
                        ]
                    }),]
                },
                ListItem {
                    name: InlineTree {
                        root: vec![
                            text("Good"),
                            InlineItem::Break,
                            text("jobs")
                        ]
                    },
                    children: vec![]
                },
            ]
        }),
    );

    assert_eq!(rest.len(), 4);
}

#[test]
fn test_blockquote() {
    let input = ">Hello\n>\n>>Yeah\nHappy";
    let tokens = lex_to_vec(input);
    let parser = Executor::new(input);

    let (item, rest) = parser.blockquote(&tokens).unwrap();

    assert_eq!(
        item,
        BlockItem::BlockQuote(BlockTree {
            root: vec![
                BlockItem::Paragraph(InlineTree {
                    root: vec![text("Hello")]
                }),
                BlockItem::BlockQuote(BlockTree {
                    root: vec![BlockItem::Paragraph(InlineTree {
                        root: vec![text("Yeah")]
                    }),]
                }),
            ]
        })
    );

    assert_eq!(rest.len(), 1);
}

#[test]
fn test_inline_tree() {
    let input = "Hello *World*!\n";
    let tokens = lex_to_vec(input);
    let parser = Executor::new(input);

    let tree = parser.inline_tree(&tokens);

    assert_eq!(
        tree,
        InlineTree {
            root: vec![
                text("Hello "),
                italic(vec![text("World")]),
                text("!"),
                InlineItem::Break,
            ]
        }
    );
}

#[test]
fn test_italic() {
    let input = r"*Hello*";
    let tokens = lex_to_vec(input);
    let parser = Executor::new(input);

    let (item, rest) = parser.italic(&tokens).unwrap();

    assert_eq!(item, italic(vec![text("Hello")]));
    assert_eq!(rest.len(), 0);

    let input = "*";
    let tokens = lex_to_vec(input);
    let parser = Executor::new(input);

    assert_eq!(parser.italic(&tokens), None);
}

#[test]
fn test_strong() {
    let input = r"**Hello**";
    let tokens = lex_to_vec(input);
    let parser = Executor::new(input);

    let (item, rest) = parser.strong(&tokens).unwrap();

    assert_eq!(item, strong(vec![text("Hello")]));
    assert_eq!(rest.len(), 0);
}

#[test]
fn test_break() {
    let input = "\r\nHello";
    let tokens = lex_to_vec(input);
    let parser = Executor::new(input);

    let (item, rest) = parser.line_break(&tokens).unwrap();

    assert_eq!(item, InlineItem::Break);
    assert_eq!(rest.len(), 1);
}

#[test]
fn heading_levels_one_to_six() {
    for n in 1..=6u8 {
        let input = format!("{} Body\n\n", "#".repeat(n as usize));
        let tokens = lex(&input);
        let tree = Parser::new().parse(&input, &tokens);
        assert_eq!(
            tree.root.root,
            vec![BlockItem::Headline(
                n,
                InlineTree {
                    root: vec![text("Body")]
                }
            )],
            "level {n} heading"
        );
    }
}

#[test]
fn seven_pounds_fall_back_to_paragraph() {
    let input = "####### Body\n\n";
    let tokens = lex(input);
    let tree = Parser::new().parse(input, &tokens);
    assert_eq!(
        tree.root.root,
        vec![BlockItem::Paragraph(InlineTree {
            root: vec![text("####### Body")]
        })]
    );
}

#[test]
fn empty_marker_line_is_no_list() {
    let input = "- ";
    let tokens = lex(input);
    let tree = Parser::new().parse(input, &tokens);
    assert_eq!(
        tree.root.root,
        vec![BlockItem::Paragraph(InlineTree {
            root: vec![text("- ")]
        })]
    );
}

#[test]
fn unterminated_emphasis_is_literal_text() {
    let input = "a *b\n\n";
    let tokens = lex(input);
    let tree = Parser::new().parse(input, &tokens);
    assert_eq!(
        tree.root.root,
        vec![BlockItem::Paragraph(InlineTree {
            root: vec![text("a *b")]
        })]
    );
}

#[test]
fn empty_input_parses_to_empty_tree() {
    let tokens = lex("");
    let tree = Parser::new().parse("", &tokens);
    assert_eq!(tree.root.root, vec![]);
}

#[test]
fn tab_indent_style_nests_lists() {
    let input = "- Hello\n\t- World\n\n";
    let tokens = lex(input);
    let tree = Parser::new()
        .list_indent_style(IndentStyle::Tab)
        .parse(input, &tokens);
    assert_eq!(
        tree.root.root,
        vec![BlockItem::BulletList(ListTree {
            root: vec![ListItem {
                name: InlineTree {
                    root: vec![text("Hello")]
                },
                children: vec![BlockItem::BulletList(ListTree {
                    root: vec![ListItem {
                        name: InlineTree {
                            root: vec![text("World")]
                        },
                        children: vec![]
                    }]
                })]
            }]
        })]
    );
}

#[test]
fn indent_level_formulas() {
    let tokens = lex("     x");
    assert_eq!(Executor::indent_level(&tokens, IndentStyle::Space(2)), (2, 1));
    assert_eq!(Executor::indent_level(&tokens, IndentStyle::Space(3)), (1, 2));
    assert_eq!(Executor::indent_level(&tokens, IndentStyle::Tab), (0, 0));

    let tokens = lex("\t\t x");
    assert_eq!(Executor::indent_level(&tokens, IndentStyle::Tab), (2, 0));
    assert_eq!(Executor::indent_level(&tokens, IndentStyle::Both), (2, 1));

    let tokens = lex(" \t x");
    assert_eq!(Executor::indent_level(&tokens, IndentStyle::Both), (2, 0));
}

#[test]
fn short_line_ends_list_run_keeping_items() {
    let input = "- a\n\n-";
    let tokens = lex(input);
    let parser = Executor::new(input);

    let (item, rest) = parser.bullet_list(&tokens).unwrap();

    assert_eq!(
        item,
        BlockItem::BulletList(ListTree {
            root: vec![ListItem {
                name: InlineTree {
                    root: vec![text("a")]
                },
                children: vec![]
            }]
        })
    );
    assert_eq!(rest.len(), 1);

    let tree = Parser::new().parse(input, &tokens);
    assert_eq!(
        tree.root.root,
        vec![
            BlockItem::BulletList(ListTree {
                root: vec![ListItem {
                    name: InlineTree {
                        root: vec![text("a")]
                    },
                    children: vec![]
                }]
            }),
            BlockItem::Paragraph(InlineTree {
                root: vec![text("-")]
            }),
        ]
    );
}

#[test]
fn loose_rule_aligns_ordered_marker_before_digit_test() {
    let input = " 1. x";
    let tokens = lex(input);
    let parser = Executor::with_config(
        input,
        Parser::new().list_indent_rule(note_mark::config::IndentRule::Loose),
    );

    let (item, rest) = parser.ordered_list(&tokens).unwrap();

    assert_eq!(
        item,
        BlockItem::OrderedList(ListTree {
            root: vec![ListItem {
                name: InlineTree {
                    root: vec![text(" x")]
                },
                children: vec![]
            }]
        })
    );
    assert_eq!(rest.len(), 0);
}
