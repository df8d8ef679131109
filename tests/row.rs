use hecto_core::{HighlightType, HighlightingOptions, Row, SearchDirection};

fn text(row: &Row) -> String {
    row.chars().iter().collect()
}

fn query(s: &str) -> Vec<char> {
    s.chars().collect()
}

#[test]
fn split_then_append_restores_line() {
    for at in 0..=5 {
        let mut row = Row::from("héllo");
        let tail = row.split(at);
        row.append(&tail);
        assert_eq!(text(&row), "héllo");
    }
    let mut row = Row::from("abcdef");
    let tail = row.split(2);
    assert_eq!(text(&row), "ab");
    assert_eq!(text(&tail), "cdef");
}

#[test]
fn narrow_columns_round_trip() {
    let row = Row::from("hello, world");
    for i in 0..=row.len() {
        assert_eq!(row.width_to(i), i);
        assert_eq!(row.char_index_at(row.width_to(i)), i);
    }
}

#[test]
fn wide_glyph_columns() {
    let row = Row::from("a中b");
    assert_eq!(row.width_to(0), 0);
    assert_eq!(row.width_to(1), 1);
    assert_eq!(row.width_to(2), 3);
    assert_eq!(row.width_to(3), 4);
    assert_eq!(row.char_index_at(1), 1);
    assert_eq!(row.char_index_at(2), 1);
    assert_eq!(row.char_index_at(3), 2);
    assert_eq!(row.char_index_at(4), 3);
    assert_eq!(row.char_index_at(100), 3);
    assert_eq!(row.get_char_width('中'), 2);
    assert_eq!(row.get_char_width('x'), 1);
}

#[test]
fn render_keeps_whole_glyphs() {
    let row = Row::from("a中b");
    assert_eq!(row.render(0, 4).iter().collect::<String>(), "a中b");
    assert_eq!(row.render(0, 2).iter().collect::<String>(), "a");
    assert_eq!(row.render(2, 4).iter().collect::<String>(), "b");
    assert_eq!(row.render(1, 3).iter().collect::<String>(), "中");
    assert_eq!(row.render(5, 9).iter().collect::<String>(), "");
}

#[test]
fn insert_and_delete_chars() {
    let mut row = Row::from("ac");
    row.insert(1, 'b');
    assert_eq!(text(&row), "abc");
    row.insert(3, 'd');
    assert_eq!(text(&row), "abcd");
    row.delete(0);
    assert_eq!(text(&row), "bcd");
    assert_eq!(row.len(), 3);
    assert_eq!(row.get_char(1), Some('c'));
    assert_eq!(row.get_char(3), None);
}

#[test]
fn as_bytes_is_utf8() {
    assert_eq!(Row::from("aé中").as_bytes(), "aé中".as_bytes().to_vec());
    assert_eq!(Row::from("😀").as_bytes(), vec![0xF0, 0x9F, 0x98, 0x80]);
    assert_eq!(Row::default().as_bytes(), Vec::<u8>::new());
}

#[test]
fn line_find_both_directions() {
    let row = Row::from("abcabc");
    let q = query("bc");
    assert_eq!(row.find(&q, 0, SearchDirection::Forward), Some(1));
    assert_eq!(row.find(&q, 2, SearchDirection::Forward), Some(4));
    assert_eq!(row.find(&q, 5, SearchDirection::Forward), None);
    assert_eq!(row.find(&q, 6, SearchDirection::Backward), Some(4));
    assert_eq!(row.find(&q, 5, SearchDirection::Backward), Some(1));
    assert_eq!(row.find(&q, 2, SearchDirection::Backward), None);
    assert_eq!(row.find(&query(""), 0, SearchDirection::Forward), None);
    assert_eq!(row.find(&q, 7, SearchDirection::Forward), None);
    assert_eq!(row.find(&query("Bc"), 0, SearchDirection::Forward), None);
}

fn rust_options() -> HighlightingOptions {
    HighlightingOptions {
        numbers: true,
        strings: true,
        comments: true,
        multiline_comments: true,
        primary_keywords: vec![query("fn"), query("let")],
        secondary_keywords: vec![query("u8")],
    }
}

#[test]
fn highlight_classes() {
    let mut row = Row::from("let x: u8 = 12; // c");
    let carry = row.highlight(&rust_options(), &None, false);
    assert!(!carry);
    assert!(row.is_highlighted());
    let h = row.highlighting();
    assert_eq!(&h[0..3], &[HighlightType::PrimaryKeywords; 3]);
    assert_eq!(h[3], HighlightType::Plain);
    assert_eq!(&h[7..9], &[HighlightType::SecondaryKeywords; 2]);
    assert_eq!(&h[12..14], &[HighlightType::Number; 2]);
    assert_eq!(&h[16..], &[HighlightType::Comment; 4]);
}

#[test]
fn highlight_strings_and_words() {
    let mut row = Row::from("x \"fn\" fnx");
    row.highlight(&rust_options(), &None, false);
    let h = row.highlighting();
    assert_eq!(&h[2..6], &[HighlightType::StringLiteral; 4]);
    assert_eq!(&h[7..10], &[HighlightType::Plain; 3]);
}

#[test]
fn highlight_block_comment_carry() {
    let opts = rust_options();
    let mut first = Row::from("a /* b");
    assert!(first.highlight(&opts, &None, false));
    assert_eq!(&first.highlighting()[2..], &[HighlightType::MultilineComment; 4]);
    let mut second = Row::from("c */ d");
    assert!(!second.highlight(&opts, &None, true));
    assert_eq!(&second.highlighting()[0..4], &[HighlightType::MultilineComment; 4]);
    assert_eq!(second.highlighting()[5], HighlightType::Plain);
}

#[test]
fn highlight_search_word_wins() {
    let mut row = Row::from("let aaa");
    row.highlight(&rust_options(), &Some(query("et a")), false);
    let h = row.highlighting();
    assert_eq!(h[0], HighlightType::PrimaryKeywords);
    assert_eq!(&h[1..5], &[HighlightType::Match; 4]);
    assert_eq!(h[5], HighlightType::Plain);
    let mut overlap = Row::from("aaa");
    overlap.highlight(&rust_options(), &Some(query("aa")), false);
    assert_eq!(overlap.highlighting(), &vec![HighlightType::Match; 3]);
}
