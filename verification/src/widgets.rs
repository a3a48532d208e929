//! The state of the viewer's small widgets that does not depend on drawing.
use vstd::prelude::*;

verus! {

/// The icons of the viewer's image buttons.
#[derive(Debug, Clone, Copy, PartialEq, Eq, Structural)]
pub enum IconButton {
    Add,
    Close,
    Copy,
    Paste,
}

/// A single-line text edit that keeps its text between frames and reports it
/// when enter is pressed; `hint` is shown while it is empty.
#[derive(Debug, Clone, Copy)]
pub struct MemorizeTextEdit<'a> {
    pub hint: Option<&'a str>,
}

impl<'a> MemorizeTextEdit<'a> {
    /// A text edit with no hint.
    pub fn new() -> (e: MemorizeTextEdit<'a>)
        ensures
            e.hint is None,
    {
        MemorizeTextEdit { hint: None }
    }

    /// The same text edit, showing `hint` while it is empty.
    pub fn hint<'b>(self, hint: &'b str) -> (e: MemorizeTextEdit<'b>)
        where
            'a: 'b,
        ensures
            e.hint == Some(hint),
    {
        MemorizeTextEdit { hint: Some(hint) }
    }
}

} // verus!
