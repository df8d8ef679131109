use vstd::prelude::*;

verus! {

/// The size of the text area, in columns and lines.
#[derive(PartialEq, Eq, Structural, Copy, Clone, Debug)]
pub struct Size {
    pub width: u16,
    pub height: u16,
}

/// The terminal as the editor sees it: the size of its text area, which
/// leaves two lines for the status and message bars.
pub struct Terminal {
    size: Size,
}

impl Terminal {
    pub closed spec fn area(&self) -> Size {
        self.size
    }

    /// A terminal of `width` columns and `height` lines.
    pub fn with_size(width: u16, height: u16) -> (r: Terminal)
        ensures
            r.area().width == width,
            r.area().height == if height >= 2 {
                height - 2
            } else {
                0
            },
    {
        Terminal { size: Size { width, height: height.saturating_sub(2) } }
    }

    /// The size of the text area.
    pub fn size(&self) -> (r: &Size)
        ensures
            *r == self.area(),
    {
        &self.size
    }
}

} // verus!
