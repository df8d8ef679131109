//! Text-buffer core of a terminal line editor: lines with display-width
//! indexing, syntax highlighting carried across lines, substring search and
//! a coalescing undo/redo history.
pub mod document;
pub mod editor;
pub mod filetype;
pub mod highlighting;
pub mod position;
pub mod row;
pub mod terminal;

pub use document::{Document, EditorState};
pub use editor::{move_cursor, scroll, CursorMove, Language};
pub use filetype::{FileType, HighlightingOptions};
pub use highlighting::HighlightType;
pub use position::{Position, SearchDirection};
pub use row::Row;
pub use terminal::{Size, Terminal};
