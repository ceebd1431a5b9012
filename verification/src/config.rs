//! Configuration for parsing: grammar variants supplied per parse call.

use vstd::prelude::*;

verus! {

/// Ending of a paragraph.
#[derive(Debug, Clone, Copy, PartialEq, Eq, Structural)]
pub enum ParagraphEnding {
    AllowSoftBreak,
    HardBreak,
}

/// Ending of a headline.
#[derive(Debug, Clone, Copy, PartialEq, Eq, Structural)]
pub enum HeadlineEnding {
    SoftBreak,
    AllowSoftBreak,
    HardBreak,
}

/// Indent rule of a list: whether indentation must match exactly or may be
/// normalized before marker tests.
#[derive(Debug, Clone, Copy, PartialEq, Eq, Structural)]
pub enum IndentRule {
    Strict,
    Loose,
}

/// Indent style of a list: the unit of indentation recognized for nesting.
#[derive(Debug, Clone, Copy, PartialEq, Eq, Structural)]
pub enum IndentStyle {
    Space(u8),
    Tab,
    Both,
}

/// A well-formed indent style: a space unit must cover at least one space.
pub open spec fn style_wf(style: IndentStyle) -> bool {
    match style {
        IndentStyle::Space(n) => n > 0,
        IndentStyle::Tab => true,
        IndentStyle::Both => true,
    }
}

} // verus!
