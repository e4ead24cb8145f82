use vstd::prelude::*;

use crate::document::Document;

pub mod lint;
pub mod spell_check;
pub mod spelling;
pub mod word_cache;

pub use lint::{Lint, LintKind, Suggestion};
pub use spell_check::SpellCheck;

verus! {

/// Something that reads a document and reports what it finds.
pub trait Linter {
    /// Whether the linter is in a state in which it can be run.
    spec fn ready(&self) -> bool;

    /// Reads the document and reports the findings, in source order. The
    /// linter is ready to run again afterwards.
    fn lint(&mut self, document: &Document) -> (lints: Vec<Lint>)
        requires
            old(self).ready(),
        ensures
            final(self).ready(),
    ;
}

} // verus!
