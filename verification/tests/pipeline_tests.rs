use note_mark::lexer::lex;
use note_mark::parser::Parser;
use note_mark::stringifier::Stringifier;
use note_mark::toc::TocMaker;
use note_mark::transformer::Transformer;
use note_mark::Markdown;

#[test]
fn test_markdown() {
    let input = "# Hello World\n\nThis is **TEST**\n\n## Goodbye\nI'm happy\n\nSee you\nagain\n";

    let output = Markdown::default().execute(input);

    assert_eq!(
        &output,
        "<h1>Hello World</h1><p>This is <strong>TEST</strong></p><h2>Goodbye<br>I'm happy</h2><p>See you<br>again</p>"
    );
}

#[test]
fn test_markdown2() {
    let input = "- Hello\n- World\n  - Change the **world**\n  - Great!\n    1. Yeah\n    1. Wryyyyy\n- End of the world\n";

    let output = Markdown::default().execute(input);

    assert_eq!(
        &output,
        "<ul><li>Hello</li><li>World<ul><li>Change the <strong>world</strong></li><li>Great!<ol><li>Yeah</li><li>Wryyyyy</li></ol></li></ul></li><li>End of the world</li></ul>")
}

#[test]
fn test_markdown3() {
    let input = "- AAA\n- BBB\n- CCC\n\nHappy\n\n> Ok!\n> Good!\n>\n> - Yeah\n> - Wryyyyy\n>   - Change the **world**\n>\nEnd of the world\n";

    let output = Markdown::default().execute(input);

    assert_eq!(
        &output,
        "<ul><li>AAA</li><li>BBB</li><li>CCC</li></ul><p>Happy</p><blockquote><p>Ok!<br>Good!</p><ul><li>Yeah</li><li>Wryyyyy<ul><li>Change the <strong>world</strong></li></ul></li></ul></blockquote><p>End of the world</p>")
}

#[test]
fn test_make_toc() {
    let input =
        "# H1AAAAAA\n\n# H1AAAAAA\n\n# H1BBBBBB\n\n## H2AAAAAA\n\n## H2BBBBBB\n\n# H1CCCCCC\n\n";

    let tokens = lex(input);
    let tree = Parser::new().parse(input, &tokens);
    let mut document = Transformer::new().transform(tree);

    let toc = TocMaker::default().make_toc(&mut document);

    let stringifier = Stringifier::new();
    let output1 = stringifier.stringify(document);

    assert_eq!(output1, "<h1 id=\"H1AAAAAA\">H1AAAAAA</h1><h1 id=\"H1AAAAAA1\">H1AAAAAA</h1><h1 id=\"H1BBBBBB\">H1BBBBBB</h1><h2 id=\"H2AAAAAA\">H2AAAAAA</h2><h2 id=\"H2BBBBBB\">H2BBBBBB</h2><h1 id=\"H1CCCCCC\">H1CCCCCC</h1>");

    let output2 = stringifier.stringify(toc);

    assert_eq!(output2, "<ul><li><a href=\"#H1AAAAAA\">H1AAAAAA</a></li><li><a href=\"#H1AAAAAA1\">H1AAAAAA</a></li><li><a href=\"#H1BBBBBB\">H1BBBBBB</a><ul><li><a href=\"#H2AAAAAA\">H2AAAAAA</a></li><li><a href=\"#H2BBBBBB\">H2BBBBBB</a></li></ul></li><li><a href=\"#H1CCCCCC\">H1CCCCCC</a></li></ul>")
}

#[test]
fn toc_ids_and_nesting_round_trip() {
    let input = "# A\n\n# A\n\n# B\n\n## X\n\n## Y\n\n# C\n\n";

    let (html, toc) = Markdown::default().execute_with_toc(input);

    assert_eq!(
        html,
        "<h1 id=\"A\">A</h1><h1 id=\"A1\">A</h1><h1 id=\"B\">B</h1><h2 id=\"X\">X</h2><h2 id=\"Y\">Y</h2><h1 id=\"C\">C</h1>"
    );
    assert_eq!(
        toc,
        "<ul><li><a href=\"#A\">A</a></li><li><a href=\"#A1\">A</a></li><li><a href=\"#B\">B</a><ul><li><a href=\"#X\">X</a></li><li><a href=\"#Y\">Y</a></li></ul></li><li><a href=\"#C\">C</a></li></ul>"
    );
}

#[test]
fn toc_depth_limit_excludes_deeper_headings() {
    let input = "# A\n\n## B\n\n### C\n\n#### D\n\n";

    let (_, toc) = Markdown::default().execute_with_toc(input);

    assert_eq!(
        toc,
        "<ul><li><a href=\"#A\">A</a><ul><li><a href=\"#B\">B</a><ul><li><a href=\"#C\">C</a></li></ul></li></ul></li></ul>"
    );
}

#[test]
fn hello_world_headline() {
    let html = Markdown::default().execute("# Hello, world!");

    assert_eq!(html, "<h1>Hello, world!</h1>");
}

#[test]
fn headline_then_paragraph() {
    let html = Markdown::default().execute("# Hello, world!\n\nThis is a paragraph.");

    assert_eq!(html, "<h1>Hello, world!</h1><p>This is a paragraph.</p>");
}

#[test]
fn quoted_lines_nest_and_stop() {
    let html = Markdown::default().execute(">Hello\n>\n>>Yeah\nHappy");

    assert_eq!(
        html,
        "<blockquote><p>Hello</p><blockquote><p>Yeah</p></blockquote></blockquote><p>Happy</p>"
    );
}

#[test]
fn soft_break_configurations() {
    let parser = Parser::default().headline_ending(note_mark::config::HeadlineEnding::SoftBreak);
    let markdown = Markdown::default().parser(parser);
    let html = markdown.execute("# Hello, world!\nThis is a new line.");
    assert_eq!(html, "<h1>Hello, world!</h1><p>This is a new line.</p>");

    let parser = Parser::default().headline_ending(note_mark::config::HeadlineEnding::HardBreak);
    let markdown = Markdown::default().parser(parser);
    let html = markdown.execute("# Hello, world!\nThis is a new line.");
    assert_eq!(html, "<h1>Hello, world!<br>This is a new line.</h1>");

    let parser =
        Parser::default().paragraph_ending(note_mark::config::ParagraphEnding::AllowSoftBreak);
    let markdown = Markdown::default().parser(parser);
    let html = markdown.execute("Hello, world!\n# This is a new headline.");
    assert_eq!(html, "<p>Hello, world!</p><h1>This is a new headline.</h1>");
}

#[test]
fn escaped_punctuation_renders_literally() {
    let html = Markdown::default().execute("\\# not a heading");

    assert_eq!(html, "<p># not a heading</p>");
}

#[test]
fn empty_input_renders_empty() {
    assert_eq!(Markdown::default().execute(""), "");
}

#[test]
fn bare_star_run_makes_empty_emphasis() {
    let html = Markdown::default().execute("***");

    assert_eq!(html, "<p><em></em>*</p>");
}

#[test]
fn anchor_suffixes_reach_two_digits() {
    let input = "# A\n\n".repeat(12);

    let (_, toc) = Markdown::default().execute_with_toc(&input);

    assert!(toc.contains("href=\"#A\""));
    assert!(toc.contains("href=\"#A1\""));
    assert!(toc.contains("href=\"#A9\""));
    assert!(toc.contains("href=\"#A10\""));
    assert!(toc.contains("href=\"#A11\""));
    assert!(!toc.contains("href=\"#A12\""));
}
