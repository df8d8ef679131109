use hecto_core::{move_cursor, scroll, CursorMove, HighlightType, Document, FileType, Position, SearchDirection, Terminal};

fn at(x: usize, y: usize) -> Position {
    Position { x, y }
}

fn lines(d: &Document) -> Vec<String> {
    (0..d.len()).map(|i| d.row(i).unwrap().chars().iter().collect()).collect()
}

fn typed(text: &str) -> Document {
    let mut d = Document::default();
    let mut t: u64 = 0;
    let mut y = 0;
    let mut x = 0;
    for c in text.chars() {
        d.insert_at_time(&at(x, y), c, t);
        t += 5000;
        if c == '\n' {
            y += 1;
            x = 0;
        } else {
            x += 1;
        }
    }
    d
}

#[test]
fn insert_builds_lines() {
    let d = typed("ab\ncd");
    assert_eq!(lines(&d), vec!["ab", "cd"]);
    assert!(d.is_dirty());
    assert!(!d.is_empty());
}

#[test]
fn insert_newline_splits_line() {
    let mut d = typed("abcd");
    d.insert_at_time(&at(2, 0), '\n', 99_000);
    assert_eq!(lines(&d), vec!["ab", "cd"]);
}

#[test]
fn insert_past_end_is_ignored() {
    let mut d = Document::default();
    d.insert_at_time(&at(0, 3), 'x', 0);
    assert_eq!(d.len(), 0);
    assert!(!d.is_dirty());
}

#[test]
fn undo_at_start_does_nothing() {
    let mut d = Document::default();
    assert_eq!(d.undo(), None);
    assert_eq!(d.len(), 0);
    let mut opened = Document::from_contents("a.txt", "one\ntwo\n");
    assert_eq!(opened.undo(), None);
    assert_eq!(lines(&opened), vec!["one", "two"]);
}

#[test]
fn edits_within_window_undo_together() {
    let mut d = Document::default();
    d.insert_at_time(&at(0, 0), 'a', 10_000);
    d.insert_at_time(&at(1, 0), 'b', 10_200);
    assert_eq!(lines(&d), vec!["ab"]);
    assert_eq!(d.undo(), Some(at(0, 0)));
    assert_eq!(d.len(), 0);
    assert_eq!(d.undo(), None);
}

#[test]
fn edits_apart_undo_separately() {
    let mut d = Document::from_contents("a.txt", "x\n");
    d.insert_at_time(&at(1, 0), 'a', 10_000);
    d.insert_at_time(&at(2, 0), 'b', 12_000);
    assert_eq!(lines(&d), vec!["xab"]);
    assert!(d.undo().is_some());
    assert_eq!(lines(&d), vec!["xa"]);
    assert!(d.undo().is_some());
    assert_eq!(lines(&d), vec!["x"]);
    assert_eq!(d.undo(), None);
}

#[test]
fn redo_after_undo_and_branch_drop() {
    let mut d = Document::from_contents("a.txt", "x\n");
    d.insert_at_time(&at(1, 0), 'a', 10_000);
    d.insert_at_time(&at(2, 0), 'b', 12_000);
    assert_eq!(d.undo(), Some(at(1, 0)));
    assert_eq!(lines(&d), vec!["xa"]);
    assert_eq!(d.undo(), Some(at(0, 0)));
    assert_eq!(lines(&d), vec!["x"]);
    assert_eq!(d.redo(), Some(at(1, 0)));
    assert_eq!(lines(&d), vec!["xa"]);
    assert_eq!(d.redo(), Some(at(2, 0)));
    assert_eq!(lines(&d), vec!["xab"]);
    assert_eq!(d.redo(), None);
    d.undo();
    d.insert_at_time(&at(0, 0), 'z', 20_000);
    assert_eq!(lines(&d), vec!["zxa"]);
    assert_eq!(d.redo(), None);
}

#[test]
fn redo_restores_state_before_undo() {
    let mut d = Document::default();
    d.insert(&at(0, 0), 'a');
    assert!(d.undo().is_some());
    assert_eq!(d.len(), 0);
    assert!(d.redo().is_some());
    assert_eq!(lines(&d), vec!["a"]);
}

#[test]
fn three_edits_window_then_gap() {
    let mut d = Document::default();
    d.insert_at_time(&at(0, 0), 'a', 0);
    d.insert_at_time(&at(1, 0), 'b', 5000);
    d.insert_at_time(&at(2, 0), 'c', 5500);
    assert_eq!(lines(&d), vec!["abc"]);
    d.undo();
    assert_eq!(lines(&d), vec!["a"]);
    d.undo();
    assert_eq!(lines(&d), Vec::<String>::new());
}

#[test]
fn delete_at_line_end_joins_lines() {
    let mut d = Document::from_contents("a.txt", "ab\ncd\nef\n");
    assert!(d.delete_at_time(&at(2, 0), 0));
    assert_eq!(lines(&d), vec!["abcd", "ef"]);
    assert!(d.delete_at_time(&at(0, 1), 5000));
    assert_eq!(lines(&d), vec!["abcd", "f"]);
    assert!(d.delete_at_time(&at(1, 1), 10_000));
    assert_eq!(lines(&d), vec!["abcd", "f"]);
    assert!(d.delete_at_time(&at(0, 1), 12_000));
    assert_eq!(lines(&d), vec!["abcd", ""]);
    assert!(!d.delete_at_time(&at(0, 2), 15_000));
    assert!(d.is_dirty());
}

#[test]
fn delete_through_the_clock() {
    let mut d = Document::from_contents("a.txt", "ab\n");
    assert!(d.delete(&at(0, 0)));
    assert_eq!(lines(&d), vec!["b"]);
    d.insert(&at(0, 0), 'c');
    assert_eq!(lines(&d), vec!["cb"]);
}

#[test]
fn find_forward_reaches_last_line_without_wrapping() {
    let d = Document::from_contents("a.txt", "one\ntwo\nthree needle\n");
    assert_eq!(d.find("needle", &at(0, 0), SearchDirection::Forward), Some(at(6, 2)));
    assert_eq!(d.find("needle", &at(7, 2), SearchDirection::Forward), None);
    assert_eq!(d.find("one", &at(1, 0), SearchDirection::Forward), None);
    assert_eq!(d.find("o", &at(0, 5), SearchDirection::Forward), None);
}

#[test]
fn find_backward_walks_up() {
    let d = Document::from_contents("a.txt", "one\ntwo\nthree\n");
    assert_eq!(d.find("o", &at(0, 2), SearchDirection::Backward), Some(at(2, 1)));
    assert_eq!(d.find("on", &at(3, 0), SearchDirection::Backward), Some(at(0, 0)));
    assert_eq!(d.find("x", &at(3, 2), SearchDirection::Backward), None);
}

#[test]
fn find_reports_display_columns() {
    let d = Document::from_contents("a.txt", "中文 ab\n");
    assert_eq!(d.find("ab", &at(0, 0), SearchDirection::Forward), Some(at(5, 0)));
}

#[test]
fn save_then_reopen() {
    let d = Document::from_contents("a.txt", "one\n\ntwo é\n");
    let bytes = d.serialize();
    assert_eq!(bytes, b"one\n\ntwo \xC3\xA9\n".to_vec());
    let again = Document::from_contents("a.txt", &String::from_utf8(bytes).unwrap());
    assert_eq!(lines(&again), lines(&d));
    let no_end = Document::from_contents("a.txt", "a\r\nb");
    assert_eq!(lines(&no_end), vec!["a", "b"]);
    assert_eq!(no_end.serialize(), b"a\nb\n".to_vec());
}

#[test]
fn mark_saved_clears_dirty() {
    let mut d = Document::from_contents("main.rs", "x\n");
    d.insert_at_time(&at(0, 0), 'y', 0);
    assert!(d.is_dirty());
    d.mark_saved();
    assert!(!d.is_dirty());
    let mut unnamed = Document::default();
    unnamed.insert_at_time(&at(0, 0), 'y', 0);
    unnamed.mark_saved();
    assert!(unnamed.is_dirty());
}

#[test]
fn file_types_by_extension() {
    assert_eq!(Document::from_contents("main.rs", "").file_type(), "Rust");
    let mut named = Document::default();
    named.set_file_name("lib.rs".to_string());
    named.mark_saved();
    assert_eq!(named.file_type(), "Rust");
    assert_eq!(named.get_file_name(), &Some("lib.rs".to_string()));
    assert_eq!(Document::from_contents("notes.txt", "").file_type(), "No filetype");
    assert_eq!(Document::default().file_type(), "No filetype");
    assert!(FileType::from("x.rs").highlighting_options().numbers);
    assert!(!FileType::from("x.r").highlighting_options().numbers);
}

#[test]
fn document_highlight_carries_comments() {
    let mut d = Document::from_contents("main.rs", "/* a\nb */ fn\nlet\n");
    d.highlight(&None, Some(1));
    assert!(d.row(0).unwrap().is_highlighted());
    assert!(d.row(1).unwrap().is_highlighted());
    assert!(!d.row(2).unwrap().is_highlighted());
    assert_eq!(d.row(1).unwrap().highlighting()[0], HighlightType::MultilineComment);
    assert_eq!(d.row(1).unwrap().highlighting()[5], HighlightType::PrimaryKeywords);
    d.highlight(&Some("le".to_string()), None);
    assert_eq!(d.row(2).unwrap().highlighting()[0], HighlightType::Match);
    assert_eq!(d.row(2).unwrap().highlighting()[2], HighlightType::PrimaryKeywords);
}

#[test]
fn scroll_keeps_cursor_visible() {
    assert_eq!(scroll(&at(5, 5), &at(0, 0), 10, 10), at(0, 0));
    assert_eq!(scroll(&at(12, 25), &at(0, 0), 10, 10), at(3, 16));
    assert_eq!(scroll(&at(1, 2), &at(4, 8), 10, 10), at(1, 2));
}

#[test]
fn terminal_leaves_room_for_bars() {
    let t = Terminal::with_size(80, 24);
    assert_eq!(t.size().width, 80);
    assert_eq!(t.size().height, 22);
    assert_eq!(Terminal::with_size(80, 1).size().height, 0);
}

#[test]
fn cursor_moves_by_glyphs_and_lines() {
    let d = Document::from_contents("a.txt", "a中b\nxy\n");
    assert_eq!(move_cursor(&d, &at(1, 0), CursorMove::Right, 10), at(3, 0));
    assert_eq!(move_cursor(&d, &at(3, 0), CursorMove::Left, 10), at(1, 0));
    assert_eq!(move_cursor(&d, &at(4, 0), CursorMove::Right, 10), at(0, 1));
    assert_eq!(move_cursor(&d, &at(0, 1), CursorMove::Left, 10), at(4, 0));
    assert_eq!(move_cursor(&d, &at(4, 0), CursorMove::Down, 10), at(2, 1));
    assert_eq!(move_cursor(&d, &at(0, 1), CursorMove::End, 10), at(2, 1));
    assert_eq!(move_cursor(&d, &at(2, 1), CursorMove::Home, 10), at(0, 1));
    assert_eq!(move_cursor(&d, &at(1, 0), CursorMove::PageDown, 10), at(0, 2));
    assert_eq!(move_cursor(&d, &at(1, 1), CursorMove::PageUp, 10), at(1, 0));
    assert_eq!(move_cursor(&d, &at(0, 0), CursorMove::Up, 10), at(0, 0));
}
