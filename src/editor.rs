use vstd::prelude::*;
use crate::document::Document;
use crate::position::Position;
use crate::row::{column_of, index_at_column};

verus! {

/// A language the editor can be told about.
pub struct Language {
    pub name: String,
}

/// `a + b`, saturating at `usize::MAX`.
pub open spec fn sat_add(a: usize, b: usize) -> usize {
    if a + b <= usize::MAX {
        (a + b) as usize
    } else {
        usize::MAX
    }
}

/// `a - b`, saturating at 0.
pub open spec fn sat_sub(a: usize, b: usize) -> usize {
    if a >= b {
        (a - b) as usize
    } else {
        0
    }
}

/// The offset along one axis that keeps `p` inside a window of `size`
/// starting at `off`: unchanged when `p` is inside, moved just enough
/// otherwise.
pub open spec fn scrolled(p: usize, off: usize, size: usize) -> usize {
    if p < off {
        p
    } else if p >= sat_add(off, size) {
        sat_add(sat_sub(p, size), 1)
    } else {
        off
    }
}

/// The view offset after moving the cursor to `cursor`, for a text area of
/// `width` columns and `height` lines.
pub fn scroll(cursor: &Position, offset: &Position, width: usize, height: usize) -> (r: Position)
    ensures
        r.x == scrolled(cursor.x, offset.x, width),
        r.y == scrolled(cursor.y, offset.y, height),
{
    let mut r = *offset;
    if cursor.y < r.y {
        r.y = cursor.y;
    } else if cursor.y >= r.y.saturating_add(height) {
        r.y = cursor.y.saturating_sub(height).saturating_add(1);
    }
    if cursor.x < r.x {
        r.x = cursor.x;
    } else if cursor.x >= r.x.saturating_add(width) {
        r.x = cursor.x.saturating_sub(width).saturating_add(1);
    }
    r
}

/// A cursor movement key.
#[derive(PartialEq, Eq, Structural, Copy, Clone, Debug)]
pub enum CursorMove {
    Up,
    Down,
    Left,
    Right,
    PageUp,
    PageDown,
    Home,
    End,
    Enter,
}

/// The display width of line `y`, or 0 past the last line.
pub open spec fn line_width(ls: Seq<Seq<char>>, y: int) -> usize {
    if 0 <= y < ls.len() {
        column_of(ls[y], ls[y].len() as int)
    } else {
        0
    }
}

/// Where `key` takes the cursor, before clamping to the line's width: up
/// and down by a line (down stops one past the last line), left and right
/// by a glyph (wrapping to the neighbouring line), a page at a time, or to
/// either end of the line.
pub open spec fn step(ls: Seq<Seq<char>>, cur: Position, key: CursorMove, page: usize) -> Position {
    let x = cur.x;
    let y = cur.y;
    let height = ls.len();
    match key {
        CursorMove::Up => Position { x, y: sat_sub(y, 1) },
        CursorMove::Down | CursorMove::Enter => if y < height {
            Position { x, y: sat_add(y, 1) }
        } else {
            cur
        },
        CursorMove::Left => if x > 0 {
            if y < height {
                let k = index_at_column(ls[y as int], x as int);
                if k > 0 {
                    Position { x: column_of(ls[y as int], k - 1 as int), y }
                } else {
                    Position { x: 0, y }
                }
            } else {
                cur
            }
        } else if y > 0 {
            Position { x: line_width(ls, y - 1), y: (y - 1) as usize }
        } else {
            cur
        },
        CursorMove::Right => if y < height {
            let k = index_at_column(ls[y as int], x as int);
            if k < ls[y as int].len() {
                Position { x: column_of(ls[y as int], k + 1 as int), y }
            } else {
                Position { x: 0, y: (y + 1) as usize }
            }
        } else {
            cur
        },
        CursorMove::PageUp => Position { x, y: sat_sub(y, page) },
        CursorMove::PageDown => if sat_add(y, page) < height {
            Position { x, y: sat_add(y, page) }
        } else {
            Position { x, y: height as usize }
        },
        CursorMove::Home => Position { x: 0, y },
        CursorMove::End => Position { x: line_width(ls, y as int), y },
    }
}

/// The cursor after `key`: the step, with the column clamped to the width
/// of the line it lands on.
pub open spec fn moved(ls: Seq<Seq<char>>, cur: Position, key: CursorMove, page: usize) -> Position {
    let p = step(ls, cur, key, page);
    if p.x > line_width(ls, p.y as int) {
        Position { x: line_width(ls, p.y as int), y: p.y }
    } else {
        p
    }
}

fn width_of_line(doc: &Document, y: usize) -> (r: usize)
    ensures
        r == line_width(doc.lines(), y as int),
{
    match doc.row(y) {
        Some(row) => row.width_to(row.len()),
        None => 0,
    }
}

/// Moves the cursor by `key` in `doc`, with pages of `page` lines.
pub fn move_cursor(doc: &Document, cursor: &Position, key: CursorMove, page: usize) -> (r: Position)
    ensures
        r == moved(doc.lines(), *cursor, key, page),
{
    let mut x = cursor.x;
    let mut y = cursor.y;
    let height = doc.len();
    match key {
        CursorMove::Up => y = y.saturating_sub(1),
        CursorMove::Down | CursorMove::Enter => {
            if y < height {
                y = y.saturating_add(1);
            }
        },
        CursorMove::Left => {
            if x > 0 {
                match doc.row(y) {
                    Some(row) => {
                        let k = row.char_index_at(x);
                        if k > 0 {
                            x = row.width_to(k - 1);
                        } else {
                            x = 0;
                        }
                    },
                    None => {},
                }
            } else if y > 0 {
                y -= 1;
                x = width_of_line(doc, y);
            }
        },
        CursorMove::Right => {
            match doc.row(y) {
                Some(row) => {
                    let k = row.char_index_at(x);
                    if k < row.len() {
                        x = row.width_to(k + 1);
                    } else {
                        y += 1;
                        x = 0;
                    }
                },
                None => {},
            }
        },
        CursorMove::PageUp => y = y.saturating_sub(page),
        CursorMove::PageDown => {
            y = if y.saturating_add(page) < height {
                y.saturating_add(page)
            } else {
                height
            };
        },
        CursorMove::Home => x = 0,
        CursorMove::End => x = width_of_line(doc, y),
    }
    let width = width_of_line(doc, y);
    if x > width {
        x = width;
    }
    Position { x, y }
}

} // verus!
