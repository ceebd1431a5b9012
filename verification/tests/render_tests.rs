use note_mark::html::{DocumentNode, ElementNode, ElementTag, Node, TextNode};
use note_mark::transformer::Transformer;
use note_mark::tree::{
    BlockItem, BlockTree, InlineItem, InlineTree, ListItem, ListTree, MarkdownTree,
};

fn text_node(s: &str) -> Node {
    Node::Text(TextNode {
        text: s.to_string(),
    })
}

#[test]
fn test_transform() {
    // # Hello
    // World
    //
    // Hello2 *World2*
    let tree = MarkdownTree {
        root: BlockTree {
            root: vec![
                BlockItem::Headline(
                    1,
                    InlineTree {
                        root: vec![
                            InlineItem::Text("Hello".to_string()),
                            InlineItem::Break,
                            InlineItem::Text("World".to_string()),
                        ],
                    },
                ),
                BlockItem::Paragraph(InlineTree {
                    root: vec![InlineItem::Strong(InlineTree {
                        root: vec![InlineItem::Text("Hello World2".to_string())],
                    })],
                }),
            ],
        },
    };

    let transformer = Transformer::new();
    let document = transformer.transform(tree);

    assert_eq!(
        document,
        DocumentNode {
            root: vec![
                Node::Element(ElementNode {
                    tag: ElementTag::H1,
                    children: vec![
                        text_node("Hello"),
                        Node::Element(ElementNode {
                            tag: ElementTag::Br,
                            ..Default::default()
                        }),
                        text_node("World"),
                    ],
                    ..Default::default()
                }),
                Node::Element(ElementNode {
                    tag: ElementTag::P,
                    children: vec![Node::Element(ElementNode {
                        tag: ElementTag::Strong,
                        children: vec![text_node("Hello World2")],
                        ..Default::default()
                    }),],
                    ..Default::default()
                }),
            ]
        }
    );
}

#[test]
fn test_transform2() {
    // - Hello
    // - World
    //   1. Change the **world**
    //   1. OK
    //     Good
    // - Hello2
    let tree = MarkdownTree {
        root: BlockTree {
            root: vec![BlockItem::BulletList(ListTree {
                root: vec![
                    ListItem {
                        name: InlineTree {
                            root: vec![InlineItem::Text("Hello".to_string())],
                        },
                        children: vec![],
                    },
                    ListItem {
                        name: InlineTree {
                            root: vec![InlineItem::Text("World".to_string())],
                        },
                        children: vec![
                            BlockItem::OrderedList(ListTree {
                                root: vec![
                                    ListItem {
                                        name: InlineTree {
                                            root: vec![InlineItem::Text(
                                                "Change the ".to_string(),
                                            )],
                                        },
                                        children: vec![],
                                    },
                                    ListItem {
                                        name: InlineTree {
                                            root: vec![InlineItem::Strong(InlineTree {
                                                root: vec![InlineItem::Text(
                                                    "world".to_string(),
                                                )],
                                            })],
                                        },
                                        children: vec![],
                                    },
                                    ListItem {
                                        name: InlineTree {
                                            root: vec![
                                                InlineItem::Text("OK".to_string()),
                                                InlineItem::Break,
                                                InlineItem::Text("Good".to_string()),
                                            ],
                                        },
                                        children: vec![],
                                    },
                                ],
                            }),
                            BlockItem::Paragraph(InlineTree {
                                root: vec![InlineItem::Text("OK".to_string())],
                            }),
                        ],
                    },
                    ListItem {
                        name: InlineTree {
                            root: vec![InlineItem::Text("Hello2".to_string())],
                        },
                        children: vec![],
                    },
                ],
            })],
        },
    };

    let transformer = Transformer::new();
    let document = transformer.transform(tree);

    assert_eq!(
        document,
        DocumentNode {
            root: vec![Node::Element(ElementNode {
                tag: ElementTag::Ul,
                children: vec![
                    Node::Element(ElementNode {
                        tag: ElementTag::Li,
                        children: vec![text_node("Hello"),],
                        ..Default::default()
                    }),
                    Node::Element(ElementNode {
                        tag: ElementTag::Li,
                        children: vec![
                            text_node("World"),
                            Node::Element(ElementNode {
                                tag: ElementTag::Ol,
                                children: vec![
                                    Node::Element(ElementNode {
                                        tag: ElementTag::Li,
                                        children: vec![text_node("Change the "),],
                                        ..Default::default()
                                    }),
                                    Node::Element(ElementNode {
                                        tag: ElementTag::Li,
                                        children: vec![Node::Element(ElementNode {
                                            tag: ElementTag::Strong,
                                            children: vec![text_node("world"),],
                                            ..Default::default()
                                        }),],
                                        ..Default::default()
                                    }),
                                    Node::Element(ElementNode {
                                        tag: ElementTag::Li,
                                        children: vec![
                                            text_node("OK"),
                                            Node::Element(ElementNode {
                                                tag: ElementTag::Br,
                                                ..Default::default()
                                            }),
                                            text_node("Good"),
                                        ],
                                        ..Default::default()
                                    }),
                                ],
                                ..Default::default()
                            }),
                            Node::Element(ElementNode {
                                tag: ElementTag::P,
                                children: vec![text_node("OK"),],
                                ..Default::default()
                            }),
                        ],
                        ..Default::default()
                    }),
                    Node::Element(ElementNode {
                        tag: ElementTag::Li,
                        children: vec![text_node("Hello2"),],
                        ..Default::default()
                    }),
                ],
                ..Default::default()
            }),]
        }
    )
}

fn sample_document() -> DocumentNode {
    DocumentNode {
        root: vec![Node::Element(ElementNode {
            tag: ElementTag::P,
            children: vec![text_node("Hello, world!")],
            ..Default::default()
        })],
    }
}

fn sample_document_rich() -> DocumentNode {
    DocumentNode {
        root: vec![Node::Element(ElementNode {
            tag: ElementTag::P,
            children: vec![
                text_node("Hello, "),
                Node::Element(ElementNode {
                    tag: ElementTag::Strong,
                    children: vec![text_node("world")],
                    ..Default::default()
                }),
                text_node("!"),
                Node::Element(ElementNode {
                    tag: ElementTag::Br,
                    ..Default::default()
                }),
                text_node("Hello, "),
                Node::Element(ElementNode {
                    tag: ElementTag::Strong,
                    children: vec![text_node("world")],
                    ..Default::default()
                }),
                text_node("!"),
            ],
            ..Default::default()
        })],
    }
}

fn sample_document_attrs() -> DocumentNode {
    DocumentNode {
        root: vec![Node::Element(ElementNode {
            tag: ElementTag::P,
            class: vec!["test".to_string(), "test2".to_string()],
            id: vec!["ttt".to_string()],
            href: Some("https://example.com".to_string()),
            attrs: vec![
                ("data-test".to_string(), "ok".to_string()),
                ("data-test2".to_string(), "ok2".to_string()),
            ],
            children: vec![text_node("Hello, world!")],
            ..Default::default()
        })],
    }
}

#[test]
fn stringifier_test_stringify() {
    let stringifier = note_mark::stringifier::Stringifier::new();

    assert_eq!(
        stringifier.stringify(sample_document()),
        "<p>Hello, world!</p>".to_string()
    );

    assert_eq!(
        stringifier.stringify(sample_document_rich()),
        "<p>Hello, <strong>world</strong>!<br>Hello, <strong>world</strong>!</p>".to_string()
    );
}

#[test]
fn stringifier_test_stringify_attrs() {
    let stringifier = note_mark::stringifier::Stringifier::new();

    assert_eq!(
        stringifier.stringify(sample_document_attrs()),
        "<p class=\"test test2\" id=\"ttt\" href=\"https://example.com\" data-test=\"ok\" data-test2=\"ok2\">Hello, world!</p>".to_string()
    );
}

#[test]
fn stringify_test_stringify() {
    let stringifier = note_mark::stringify::Stringifier::new();

    assert_eq!(
        stringifier.stringify(sample_document()),
        "<p>Hello, world!</p>".to_string()
    );

    assert_eq!(
        stringifier.stringify(sample_document_rich()),
        "<p>Hello, <strong>world</strong>!<br>Hello, <strong>world</strong>!</p>".to_string()
    );
}

#[test]
fn stringify_test_stringify_attrs() {
    let stringifier = note_mark::stringify::Stringifier::new();

    assert_eq!(
        stringifier.stringify(sample_document_attrs()),
        "<p class=\"test test2\" id=\"ttt\" href=\"https://example.com\" data-test=\"ok\" data-test2=\"ok2\">Hello, world!</p>".to_string()
    );
}

#[test]
fn formatted_output_indents_long_children() {
    let stringifier = note_mark::stringifier::Stringifier::new().format(true).width(5);

    assert_eq!(
        stringifier.stringify(sample_document()),
        "<p>\n    Hello, world!\n</p>".to_string()
    );

    let short = DocumentNode {
        root: vec![Node::Element(ElementNode {
            tag: ElementTag::P,
            children: vec![text_node("hi")],
            ..Default::default()
        })],
    };
    let wide = note_mark::stringifier::Stringifier::new().format(true).width(5);
    assert_eq!(wide.stringify(short), "<p>hi</p>".to_string());
}

#[test]
fn formatted_output_separates_blocks_with_newlines() {
    let stringifier = note_mark::stringifier::Stringifier::new().format(true).width(100);
    let document = DocumentNode {
        root: vec![
            Node::Element(ElementNode {
                tag: ElementTag::P,
                children: vec![text_node("a")],
                ..Default::default()
            }),
            Node::Element(ElementNode {
                tag: ElementTag::P,
                children: vec![text_node("b")],
                ..Default::default()
            }),
        ],
    };
    assert_eq!(stringifier.stringify(document), "<p>a</p>\n<p>b</p>".to_string());
}
