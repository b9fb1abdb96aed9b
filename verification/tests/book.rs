use mdbook_icons::book::{
    book_requests, replace_in_book, replace_in_book_item, Book, BookError, BookField, BookItem,
    ChapterContent,
};
use mdbook_icons::shortcode::ShortcodeMap;

fn chapter(text: &str, sub_items: Vec<BookItem>) -> BookItem {
    BookItem::Chapter { content: Some(ChapterContent::Text(text.to_string())), sub_items }
}

fn text_of(item: &BookItem) -> Option<&str> {
    match item {
        BookItem::Chapter { content: Some(ChapterContent::Text(t)), .. } => Some(t.as_str()),
        _ => None,
    }
}

fn rendered() -> ShortcodeMap {
    let mut m = ShortcodeMap::new();
    m.insert("a".to_string(), "<A>".to_string());
    m
}

#[test]
fn transforms_every_chapter_depth_first() {
    let book = Book {
        sections: Some(vec![
            chapter("x :a:", vec![chapter(":a: y", vec![])]),
            BookItem::Other,
            chapter("plain", vec![]),
        ]),
        items: None,
    };
    let (field, items) = replace_in_book(&book, &rendered()).unwrap();
    assert_eq!(field, BookField::Sections);
    assert_eq!(text_of(&items[0]), Some("x <A>\n"));
    match &items[0] {
        BookItem::Chapter { sub_items, .. } => assert_eq!(text_of(&sub_items[0]), Some("<A> y\n")),
        _ => panic!("expected a chapter"),
    }
    assert!(matches!(items[1], BookItem::Other));
    assert_eq!(text_of(&items[2]), Some("plain\n"));
    assert_eq!(book_requests(&book), vec!["a", "a"]);
}

#[test]
fn falls_back_to_items_and_reports_missing_lists() {
    let book = Book { sections: None, items: Some(vec![chapter(":a:", vec![])]) };
    let (field, items) = replace_in_book(&book, &rendered()).unwrap();
    assert_eq!(field, BookField::Items);
    assert_eq!(text_of(&items[0]), Some("<A>\n"));
    let none = Book { sections: None, items: None };
    assert_eq!(replace_in_book(&none, &rendered()).err(), Some(BookError::MissingItems));
    assert!(book_requests(&none).is_empty());
}

#[test]
fn malformed_chapters_stop_the_transform() {
    let bad = BookItem::Chapter { content: Some(ChapterContent::NotText), sub_items: vec![] };
    assert_eq!(replace_in_book_item(&bad, &rendered()).err(), Some(BookError::ContentNotText));
    let book = Book {
        sections: Some(vec![
            chapter("ok", vec![BookItem::MalformedChapter]),
            BookItem::Chapter { content: Some(ChapterContent::NotText), sub_items: vec![] },
        ]),
        items: None,
    };
    assert_eq!(replace_in_book(&book, &rendered()).err(), Some(BookError::ChapterNotObject));
    let empty = BookItem::Chapter { content: None, sub_items: vec![] };
    assert!(replace_in_book_item(&empty, &rendered()).is_ok());
}
