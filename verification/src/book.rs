//! The book that mdBook hands over: a tree of items whose chapters hold
//! Markdown. Transforming it transforms every chapter, depth first, and stops
//! at the first malformed chapter.
use vstd::prelude::*;
use crate::markdown::{transform_markdown, transformed};
use crate::requests::{
    agree_on, lemma_agree_split, lemma_only_requested_shortcodes_matter, requested,
    shortcode_requests,
};
use crate::text::views;
use crate::shortcode::ShortcodeMap;

verus! {

/// The `content` of a chapter.
pub enum ChapterContent {
    /// Markdown text.
    Text(String),
    /// A value that is not a string.
    NotText,
}

/// An item of the book.
pub enum BookItem {
    /// A chapter: its content when it has one, and its sub-items (empty when
    /// it has none, or when they are not a list).
    Chapter { content: Option<ChapterContent>, sub_items: Vec<BookItem> },
    /// A `Chapter` entry that is not an object.
    MalformedChapter,
    /// Anything else: a separator, a part title, or a value that is no object.
    Other,
}

/// The lists of items a book may carry: `sections`, and the older `items`.
pub struct Book {
    pub sections: Option<Vec<BookItem>>,
    pub items: Option<Vec<BookItem>>,
}

/// Which list of a book was transformed.
#[derive(PartialEq, Eq, Debug, Clone, Copy)]
pub enum BookField {
    Sections,
    Items,
}

/// Why a book could not be transformed.
#[derive(PartialEq, Eq, Debug, Clone, Copy)]
pub enum BookError {
    /// The book has neither a `sections` nor an `items` list.
    MissingItems,
    /// A `Chapter` entry is not an object.
    ChapterNotObject,
    /// A chapter's `content` is not a string.
    ContentNotText,
}

/// The first error met transforming `item`, depth first.
pub open spec fn item_error(item: BookItem) -> Option<BookError>
    decreases item,
{
    match item {
        BookItem::Chapter { content, sub_items } => {
            if content matches Some(ChapterContent::NotText) {
                Some(BookError::ContentNotText)
            } else {
                items_error(sub_items@)
            }
        },
        BookItem::MalformedChapter => Some(BookError::ChapterNotObject),
        BookItem::Other => None,
    }
}

/// The first error met transforming `items` in order.
pub open spec fn items_error(items: Seq<BookItem>) -> Option<BookError>
    decreases items,
{
    if items.len() == 0 {
        None
    } else {
        match items_error(items.drop_last()) {
            Some(e) => Some(e),
            None => item_error(items.last()),
        }
    }
}

/// `after` is `before` with the text of every chapter transformed.
pub open spec fn item_transformed(
    before: BookItem,
    after: BookItem,
    rendered: Map<Seq<char>, Seq<char>>,
) -> bool
    decreases before,
{
    match before {
        BookItem::Chapter { content, sub_items } => {
            &&& after is Chapter
            &&& match (content, after->content) {
                (None, None) => true,
                (Some(ChapterContent::NotText), Some(ChapterContent::NotText)) => true,
                (Some(ChapterContent::Text(a)), Some(ChapterContent::Text(b))) => b@ == transformed(
                    a@,
                    rendered,
                ),
                _ => false,
            }
            &&& after->sub_items@.len() == sub_items@.len()
            &&& forall|i: int|
                0 <= i < sub_items@.len() ==> item_transformed(
                    #[trigger] sub_items@[i],
                    after->sub_items@[i],
                    rendered,
                )
        },
        BookItem::MalformedChapter => after is MalformedChapter,
        BookItem::Other => after is Other,
    }
}

/// Each item of `after` is the transformed item of `before` at the same place.
pub open spec fn items_transformed(
    before: Seq<BookItem>,
    after: Seq<BookItem>,
    rendered: Map<Seq<char>, Seq<char>>,
) -> bool {
    &&& after.len() == before.len()
    &&& forall|i: int|
        0 <= i < before.len() ==> item_transformed(#[trigger] before[i], after[i], rendered)
}

/// Transforms the text of every chapter of `item` and of its sub-items.
pub fn replace_in_book_item(item: &BookItem, rendered: &ShortcodeMap) -> (r: Result<
    BookItem,
    BookError,
>)
    ensures
        r matches Ok(after) ==> item_error(*item) is None && item_transformed(
            *item,
            after,
            rendered@,
        ),
        r matches Err(e) ==> item_error(*item) == Some(e),
    decreases *item,
{
    match item {
        BookItem::Chapter { content, sub_items } => {
            let new_content = match content {
                None => None,
                Some(ChapterContent::Text(text)) => Some(
                    ChapterContent::Text(transform_markdown(text.as_str(), rendered)),
                ),
                Some(ChapterContent::NotText) => {
                    return Err(BookError::ContentNotText);
                },
            };
            match replace_in_book_items(sub_items, rendered) {
                Ok(new_items) => Ok(BookItem::Chapter { content: new_content, sub_items: new_items }),
                Err(e) => Err(e),
            }
        },
        BookItem::MalformedChapter => Err(BookError::ChapterNotObject),
        BookItem::Other => Ok(BookItem::Other),
    }
}

/// Transforms a list of items in order, stopping at the first error.
pub fn replace_in_book_items(items: &Vec<BookItem>, rendered: &ShortcodeMap) -> (r: Result<
    Vec<BookItem>,
    BookError,
>)
    ensures
        r matches Ok(after) ==> items_error(items@) is None && items_transformed(
            items@,
            after@,
            rendered@,
        ),
        r matches Err(e) ==> items_error(items@) == Some(e),
    decreases items@,
{
    let mut out: Vec<BookItem> = Vec::new();
    let mut i: usize = 0;
    while i < items.len()
        invariant
            i <= items@.len(),
            items_error(items@.take(i as int)) is None,
            items_transformed(items@.take(i as int), out@, rendered@),
        decreases items@.len() - i,
    {
        proof {
            assert(items@.take(i + 1).drop_last() =~= items@.take(i as int));
            assert(items@.take(i + 1).last() == items@[i as int]);
        }
        match replace_in_book_item(&items[i], rendered) {
            Ok(after) => {
                let ghost before = out@;
                out.push(after);
                proof {
                    assert forall|j: int| 0 <= j < i + 1 implies item_transformed(
                        #[trigger] items@.take(i + 1)[j],
                        out@[j],
                        rendered@,
                    ) by {
                        if j < i {
                            assert(items@.take(i + 1)[j] == items@.take(i as int)[j]);
                        }
                    }
                }
                i = i + 1;
            },
            Err(e) => {
                proof {
                    lemma_items_error_prefix(items@, i as int);
                }
                return Err(e);
            },
        }
    }
    assert(items@.take(i as int) =~= items@);
    Ok(out)
}

/// An error in the first `i + 1` items is the first error of all items.
proof fn lemma_items_error_prefix(items: Seq<BookItem>, i: int)
    requires
        0 <= i < items.len(),
        items_error(items.take(i + 1)) is Some,
    ensures
        items_error(items) == items_error(items.take(i + 1)),
    decreases items.len(),
{
    if i + 1 < items.len() {
        assert(items.drop_last().take(i + 1) =~= items.take(i + 1));
        lemma_items_error_prefix(items.drop_last(), i);
    } else {
        assert(items.take(i + 1) =~= items);
    }
}

/// The list of items a book is transformed by: `sections` when present, else
/// `items`.
pub open spec fn book_items(book: Book) -> Option<Seq<BookItem>> {
    match book.sections {
        Some(v) => Some(v@),
        None => match book.items {
            Some(v) => Some(v@),
            None => None,
        },
    }
}

/// Transforms the chapters of a book. It works on `sections` when the book
/// has that list, else on `items`, and fails when it has neither, or at the
/// first malformed chapter.
pub fn replace_in_book(book: &Book, rendered: &ShortcodeMap) -> (r: Result<
    (BookField, Vec<BookItem>),
    BookError,
>)
    ensures
        r matches Ok((field, after)) ==> {
            &&& (field == BookField::Sections <==> book.sections is Some)
            &&& book_items(*book) matches Some(before) && items_error(before) is None
                && items_transformed(before, after@, rendered@)
        },
        r matches Err(e) ==> match book_items(*book) {
            None => e == BookError::MissingItems,
            Some(before) => items_error(before) == Some(e),
        },
{
    let (field, items) = match &book.sections {
        Some(v) => (BookField::Sections, v),
        None => match &book.items {
            Some(v) => (BookField::Items, v),
            None => {
                return Err(BookError::MissingItems);
            },
        },
    };
    match replace_in_book_items(items, rendered) {
        Ok(after) => Ok((field, after)),
        Err(e) => Err(e),
    }
}

/// The shortcodes that transforming `item` looks up, depth first.
pub open spec fn item_requests(item: BookItem) -> Seq<Seq<char>>
    decreases item,
{
    match item {
        BookItem::Chapter { content, sub_items } => {
            let own = match content {
                Some(ChapterContent::Text(t)) => requested(t@),
                _ => Seq::<Seq<char>>::empty(),
            };
            own + items_requests(sub_items@)
        },
        _ => Seq::<Seq<char>>::empty(),
    }
}

/// The shortcodes that transforming `items` looks up, in order.
pub open spec fn items_requests(items: Seq<BookItem>) -> Seq<Seq<char>>
    decreases items,
{
    if items.len() == 0 {
        Seq::<Seq<char>>::empty()
    } else {
        items_requests(items.drop_last()) + item_requests(items.last())
    }
}

/// The shortcodes that transforming a book looks up.
pub open spec fn book_requested(book: Book) -> Seq<Seq<char>> {
    match book_items(book) {
        Some(items) => items_requests(items),
        None => Seq::<Seq<char>>::empty(),
    }
}

proof fn lemma_views_append(a: Seq<String>, b: Seq<String>)
    ensures
        views(a + b) == views(a) + views(b),
{
    assert(views(a + b) =~= views(a) + views(b));
}

fn item_requests_into(item: &BookItem, out: &mut Vec<String>)
    ensures
        views(final(out)@) == views(old(out)@) + item_requests(*item),
    decreases *item,
{
    match item {
        BookItem::Chapter { content, sub_items } => {
            let ghost start = views(out@);
            if let Some(ChapterContent::Text(text)) = content {
                let mut found = shortcode_requests(text.as_str());
                let ghost prev = out@;
                let ghost add = found@;
                out.append(&mut found);
                proof {
                    lemma_views_append(prev, add);
                }
            }
            items_requests_into(sub_items, out);
            assert(views(out@) =~= start + item_requests(*item));
        },
        _ => {
            assert(views(out@) =~= views(old(out)@) + item_requests(*item));
        },
    }
}

fn items_requests_into(items: &Vec<BookItem>, out: &mut Vec<String>)
    ensures
        views(final(out)@) == views(old(out)@) + items_requests(items@),
    decreases items@,
{
    let ghost start = views(out@);
    let mut i: usize = 0;
    assert(items_requests(items@.take(0)) =~= Seq::<Seq<char>>::empty());
    assert(views(out@) =~= start + items_requests(items@.take(0)));
    while i < items.len()
        invariant
            i <= items@.len(),
            views(out@) == start + items_requests(items@.take(i as int)),
        decreases items@.len() - i,
    {
        proof {
            assert(items@.take(i + 1).drop_last() =~= items@.take(i as int));
            assert(items@.take(i + 1).last() == items@[i as int]);
        }
        item_requests_into(&items[i], out);
        i = i + 1;
        assert(views(out@) =~= start + items_requests(items@.take(i as int)));
    }
    assert(items@.take(i as int) =~= items@);
}

/// The shortcodes that `replace_in_book` looks up, chapter after chapter, in
/// the order it meets them.
pub fn book_requests(book: &Book) -> (r: Vec<String>)
    ensures
        views(r@) == book_requested(*book),
{
    let mut out: Vec<String> = Vec::new();
    assert(views(out@) =~= Seq::<Seq<char>>::empty());
    match &book.sections {
        Some(v) => items_requests_into(v, &mut out),
        None => match &book.items {
            Some(v) => items_requests_into(v, &mut out),
            None => {},
        },
    }
    assert(views(out@) =~= book_requested(*book));
    out
}

proof fn lemma_agree_items(
    m1: Map<Seq<char>, Seq<char>>,
    m2: Map<Seq<char>, Seq<char>>,
    items: Seq<BookItem>,
    i: int,
)
    requires
        agree_on(m1, m2, items_requests(items)),
        0 <= i < items.len(),
    ensures
        agree_on(m1, m2, item_requests(items[i])),
    decreases items.len(),
{
    lemma_agree_split(m1, m2, items_requests(items.drop_last()), item_requests(items.last()));
    if i < items.len() - 1 {
        lemma_agree_items(m1, m2, items.drop_last(), i);
    }
}

/// A transformed item stays correct for any table that agrees on the
/// shortcodes the item looks up.
pub proof fn lemma_item_only_requested_matter(
    before: BookItem,
    after: BookItem,
    m1: Map<Seq<char>, Seq<char>>,
    m2: Map<Seq<char>, Seq<char>>,
)
    requires
        item_transformed(before, after, m1),
        agree_on(m1, m2, item_requests(before)),
    ensures
        item_transformed(before, after, m2),
    decreases before,
{
    if let BookItem::Chapter { content, sub_items } = before {
        let own = match content {
            Some(ChapterContent::Text(t)) => requested(t@),
            _ => Seq::<Seq<char>>::empty(),
        };
        lemma_agree_split(m1, m2, own, items_requests(sub_items@));
        if let Some(ChapterContent::Text(t)) = content {
            lemma_only_requested_shortcodes_matter(t@, m1, m2);
        }
        let after_items = after->sub_items@;
        assert forall|i: int| 0 <= i < sub_items@.len() implies item_transformed(
            #[trigger] sub_items@[i],
            after_items[i],
            m2,
        ) by {
            lemma_agree_items(m1, m2, sub_items@, i);
            lemma_item_only_requested_matter(sub_items@[i], after_items[i], m1, m2);
        }
    }
}

/// Transforming a book depends on the markup table only at the shortcodes
/// that `book_requests` lists: a result for one table is the result for any
/// table that agrees with it there.
pub proof fn lemma_book_only_requested_matter(
    book: Book,
    after: Seq<BookItem>,
    m1: Map<Seq<char>, Seq<char>>,
    m2: Map<Seq<char>, Seq<char>>,
)
    requires
        book_items(book) is Some,
        items_transformed(book_items(book)->Some_0, after, m1),
        agree_on(m1, m2, book_requested(book)),
    ensures
        items_transformed(book_items(book)->Some_0, after, m2),
{
    let items = book_items(book)->Some_0;
    assert forall|i: int| 0 <= i < items.len() implies item_transformed(
        #[trigger] items[i],
        after[i],
        m2,
    ) by {
        lemma_agree_items(m1, m2, items, i);
        lemma_item_only_requested_matter(items[i], after[i], m1, m2);
    }
}

} // verus!
