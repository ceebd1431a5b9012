//! A second surface of the document stringifier.
//!
//! It renders exactly as the stringifier does; only the builder surface
//! differs, holding its options privately.

use vstd::prelude::*;

use crate::html::DocumentNode;
use crate::stringifier::spec_stringify;

verus! {

/// Stringifier of a document into its markup string, with its options
/// held privately.
#[derive(Debug, Clone, Copy)]
pub struct Stringifier {
    format: bool,
    width: u32,
}

impl Default for Stringifier {
    /// The default stringifier: unformatted, with a width of twenty.
    fn default() -> (r: Self)
        ensures
            !r.formatted(),
            r.width_of() == 20,
    {
        Self { format: false, width: 20 }
    }
}

impl Stringifier {
    /// Whether the output is formatted.
    pub closed spec fn formatted(&self) -> bool {
        self.format
    }

    /// The width at which formatting breaks a line.
    pub closed spec fn width_of(&self) -> u32 {
        self.width
    }

    /// Create a stringifier with the default configuration.
    pub fn new() -> (r: Self)
        ensures
            !r.formatted(),
            r.width_of() == 20,
    {
        Self::default()
    }

    /// Set whether to format the output.
    pub fn format(self, format: bool) -> (r: Self)
        ensures
            r.formatted() == format,
            r.width_of() == self.width_of(),
    {
        Stringifier { format, ..self }
    }

    /// Set the width at which formatting breaks a line.
    pub fn width(self, width: u32) -> (r: Self)
        ensures
            r.formatted() == self.formatted(),
            r.width_of() == width,
    {
        Stringifier { width, ..self }
    }

    /// Stringify a document.
    pub fn stringify(&self, document: DocumentNode) -> (r: String)
        ensures
            r@ == spec_stringify(document@, self.formatted(), self.width_of()),
    {
        let renderer = crate::stringifier::Stringifier {
            format: self.format,
            width: self.width,
        };
        renderer.stringify(document)
    }
}

} // verus!
