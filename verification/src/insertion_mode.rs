//! The insertion mode of the tree builder, as a value that can be changed
//! in place.
use vstd::prelude::*;

verus! {

/// The insertion modes.
#[derive(PartialEq, Eq, Structural, PartialOrd, Ord, Hash, Debug, Clone, Copy)]
pub enum Mode {
    Initial,
    BeforeHtml,
    BeforeHead,
    InHead,
    InHeadNoscript,
    AfterHead,
    InBody,
    Text,
    InTable,
    InTableText,
    InCaption,
    InColumnGroup,
    InTableBody,
    InRow,
    InCell,
    InSelect,
    InSelectInTable,
    InTemplate,
    AfterBody,
    InFrameset,
    AfterFrameset,
    AfterAfterBody,
    AfterAfterFrameset,
}

/// The current insertion mode.
#[derive(PartialEq, Eq, Structural, PartialOrd, Ord, Debug, Clone)]
pub struct InsertionMode {
    pub mode: Mode,
}

impl Default for InsertionMode {
    /// The initial insertion mode.
    fn default() -> (res: Self)
        ensures
            res.mode == Mode::Initial,
    {
        Self { mode: Mode::Initial }
    }
}

} // verus!
