use vstd::prelude::*;

verus! {

/// Width and height of a text terminal, in character cells.
#[derive(Debug, Clone, Copy, PartialEq, Eq, Structural)]
pub struct TerminalSize {
    pub width: u16,
    pub height: u16,
}

impl TerminalSize {
    pub fn new(width: u16, height: u16) -> (r: TerminalSize)
        ensures
            r.width == width,
            r.height == height,
    {
        TerminalSize { width, height }
    }
}

} // verus!
