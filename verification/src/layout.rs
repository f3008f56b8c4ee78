//! Layout: the boxes that the layout tree is made of.
use vstd::prelude::*;

verus! {

/// The kinds of layout boxes.
#[derive(Debug, Clone, Copy, PartialEq, Eq, Structural)]
pub enum BoxType {
    Viewport,
    BlockContainer,
}

/// How a layout tree is dumped as text.
#[derive(Debug, Clone, Copy, PartialEq, Eq, Hash)]
pub struct DumpSettings {
    pub closing_marker: Option<&'static str>,
    pub color: bool,
    pub trim_text: bool,
    pub indentation: &'static str,
}

impl Default for DumpSettings {
    /// No closing marker, colors on, text trimmed, two spaces of
    /// indentation.
    fn default() -> (res: Self)
        ensures
            res.closing_marker is None,
            res.color,
            res.trim_text,
            res.indentation@ == "  "@,
    {
        Self { closing_marker: None, color: true, trim_text: true, indentation: "  " }
    }
}

} // verus!
