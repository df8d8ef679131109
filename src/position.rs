use vstd::prelude::*;

verus! {

/// Which way a search walks through the text.
#[derive(PartialEq, Eq, Structural, Copy, Clone, Debug)]
pub enum SearchDirection {
    Forward,
    Backward,
}

/// A place in a document: `x` is a display column, `y` a line index.
#[derive(PartialEq, Eq, Structural, Copy, Clone, Debug, Default)]
pub struct Position {
    pub x: usize,
    pub y: usize,
}

impl Position {
    /// The top-left corner.
    pub fn origin() -> (r: Position)
        ensures
            r.x == 0,
            r.y == 0,
    {
        Position { x: 0, y: 0 }
    }
}

} // verus!
