use booklog::book::{Book, BookCreated, BookEvent, PageAdded, ValidationError};

fn created(id: &str, author: &str) -> BookEvent {
    BookEvent::Created(BookCreated { id: id.to_owned(), author: author.to_owned() })
}

fn page_added(content: &str) -> BookEvent {
    BookEvent::PageAdded(PageAdded { content: content.to_owned() })
}

#[test]
fn book_sources_from_events() {
    let book_created = BookEvent::Created(BookCreated {
        id: "1".to_owned(),
        author: "ds".to_owned(),
    });
    let page_added = BookEvent::PageAdded(PageAdded { content: "first page".to_owned() });
    let page_added_2 = BookEvent::PageAdded(PageAdded { content: "second page".to_owned() });
    let events: Vec<BookEvent> = vec![book_created, page_added, page_added_2];
    let book = Book::from_events(events);
    assert_eq!(2, book.pages.len())
}

#[test]
fn main_sources_from_events() {
    let book_created = BookEvent::Created(BookCreated {
        id: "1".to_owned(),
        author: "ds".to_owned(),
    });
    let page_added = BookEvent::PageAdded(PageAdded { content: "first page".to_owned() });
    let page_added_2 = BookEvent::PageAdded(PageAdded { content: "second page".to_owned() });
    let events: Vec<BookEvent> = vec![book_created, page_added, page_added_2];
    let book = Book::from_events(events);
    assert_eq!(2, book.pages.len())
}

#[test]
fn replay_projects_full_state() {
    let events = vec![created("1", "ds"), page_added("first page"), page_added("second page")];
    let book = Book::from_events(events);
    assert_eq!(book.id, "1");
    assert_eq!(book.author, "ds");
    assert_eq!(book.pages, vec!["first page".to_owned(), "second page".to_owned()]);
    assert_eq!(book.pages.len(), 2);
    assert!(book.events.is_empty());
}

#[test]
fn replay_with_no_pages_leaves_pages_empty() {
    let book = Book::from_events(vec![created("7", "someone")]);
    assert_eq!(book.id, "7");
    assert_eq!(book.author, "someone");
    assert!(book.pages.is_empty());
    assert!(book.events.is_empty());
}

#[test]
fn replay_of_empty_history_is_zero_state() {
    let book = Book::from_events(vec![]);
    assert_eq!(book.id, "");
    assert_eq!(book.author, "");
    assert!(book.pages.is_empty());
    assert!(book.events.is_empty());
}

#[test]
fn replay_keeps_page_order() {
    let forward = Book::from_events(vec![created("1", "a"), page_added("x"), page_added("y")]);
    let backward = Book::from_events(vec![created("1", "a"), page_added("y"), page_added("x")]);
    assert_eq!(forward.pages, vec!["x".to_owned(), "y".to_owned()]);
    assert_eq!(backward.pages, vec!["y".to_owned(), "x".to_owned()]);
    assert_ne!(forward.pages, backward.pages);
}

#[test]
fn new_book_has_single_pending_created_event() {
    let book = Book::new("42".to_owned(), "Joe".to_owned()).unwrap();
    assert_eq!(book.id, "42");
    assert_eq!(book.author, "Joe");
    assert!(book.pages.is_empty());
    assert_eq!(book.events.len(), 1);
    match &book.events[0] {
        BookEvent::Created(ev) => {
            assert_eq!(ev.id, "42");
            assert_eq!(ev.author, "Joe");
        },
        BookEvent::PageAdded(_) => panic!("expected the creation event to be pending"),
    }
}

#[test]
fn new_book_rejects_empty_id() {
    let r = Book::new("".to_owned(), "Joe".to_owned());
    assert!(matches!(r, Err(ValidationError::EmptyId)));
}

#[test]
fn new_book_rejects_empty_author() {
    let r = Book::new("42".to_owned(), "".to_owned());
    assert!(matches!(r, Err(ValidationError::EmptyAuthor)));
}

#[test]
fn add_page_appends_page_and_pending_event() {
    let mut book = Book::new("42".to_owned(), "Joe".to_owned()).unwrap();
    book.add_page("Page #1".to_owned());
    assert_eq!(book.pages, vec!["Page #1".to_owned()]);
    assert_eq!(book.events.len(), 2);
    match &book.events[0] {
        BookEvent::Created(ev) => {
            assert_eq!(ev.id, "42");
            assert_eq!(ev.author, "Joe");
        },
        BookEvent::PageAdded(_) => panic!("the creation event must come first"),
    }
    match &book.events[1] {
        BookEvent::PageAdded(ev) => assert_eq!(ev.content, "Page #1"),
        BookEvent::Created(_) => panic!("the page event must come second"),
    }
}

#[test]
fn add_page_grows_pages_by_exactly_one() {
    let mut book = Book::new("42".to_owned(), "Joe".to_owned()).unwrap();
    book.add_page("a".to_owned());
    assert_eq!(book.pages.len(), 1);
    book.add_page("b".to_owned());
    assert_eq!(book.pages.len(), 2);
    assert_eq!(book.pages[1], "b");
    assert_eq!(book.events.len(), 3);
}

#[test]
fn clear_events_empties_only_the_pending_buffer() {
    let mut book = Book::new("42".to_owned(), "Joe".to_owned()).unwrap();
    book.add_page("a".to_owned());
    book.clear_events();
    assert!(book.events.is_empty());
    assert_eq!(book.id, "42");
    assert_eq!(book.author, "Joe");
    assert_eq!(book.pages, vec!["a".to_owned()]);
}

#[test]
fn new_id_is_a_36_character_identifier() {
    let id = Book::new_id();
    assert_eq!(id.chars().count(), 36);
    let other = Book::new_id();
    assert_ne!(id, other);
}
