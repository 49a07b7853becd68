use booklog::book::Book;
use booklog::repo::{generate_new_book_page, get_book_or_create_new, BookRepository};

#[test]
fn save_clears_pending_and_snapshots_the_state() {
    let mut repo = BookRepository::new();
    let mut book = Book::new("42".to_owned(), "Joe".to_owned()).unwrap();
    book.add_page("Page #1".to_owned());
    repo.save(&mut book);
    assert!(book.events.is_empty());
    let found = repo.get("42").unwrap();
    assert_eq!(found.id, "42");
    assert_eq!(found.author, "Joe");
    assert_eq!(found.pages, vec!["Page #1".to_owned()]);
    assert!(found.events.is_empty());
}

#[test]
fn save_appends_pending_events_in_order() {
    let mut repo = BookRepository::new();
    let mut book = Book::new("42".to_owned(), "Joe".to_owned()).unwrap();
    book.add_page("a".to_owned());
    book.add_page("b".to_owned());
    repo.save(&mut book);
    assert_eq!(repo.log.len(), 3);
    let batch = repo.log.poll();
    assert_eq!(batch[0], "{\"Created\":{\"id\":\"42\",\"author\":\"Joe\"}}");
    assert_eq!(batch[1], "{\"PageAdded\":{\"content\":\"a\"}}");
    assert_eq!(batch[2], "{\"PageAdded\":{\"content\":\"b\"}}");
}

#[test]
fn second_save_without_commands_appends_nothing() {
    let mut repo = BookRepository::new();
    let mut book = Book::new("42".to_owned(), "Joe".to_owned()).unwrap();
    book.add_page("Page #1".to_owned());
    repo.save(&mut book);
    let appended_after_first = repo.log.len();
    repo.save(&mut book);
    assert_eq!(repo.log.len(), appended_after_first);
    let first = repo.get("42").unwrap();
    let second = repo.get("42").unwrap();
    assert_eq!(first.id, second.id);
    assert_eq!(first.author, second.author);
    assert_eq!(first.pages, second.pages);
}

#[test]
fn get_of_unsaved_id_is_an_explicit_absence() {
    let repo = BookRepository::new();
    assert!(repo.get("nobody").is_none());
}

#[test]
fn get_returns_the_latest_snapshot() {
    let mut repo = BookRepository::new();
    let mut book = Book::new("42".to_owned(), "Joe".to_owned()).unwrap();
    repo.save(&mut book);
    book.add_page("late page".to_owned());
    repo.save(&mut book);
    let found = repo.get("42").unwrap();
    assert_eq!(found.pages, vec!["late page".to_owned()]);
}

#[test]
fn snapshots_of_different_books_stay_apart() {
    let mut repo = BookRepository::new();
    let mut one = Book::new("1".to_owned(), "a".to_owned()).unwrap();
    let mut two = Book::new("2".to_owned(), "b".to_owned()).unwrap();
    one.add_page("only in one".to_owned());
    repo.save(&mut one);
    repo.save(&mut two);
    assert_eq!(repo.get("1").unwrap().pages, vec!["only in one".to_owned()]);
    assert!(repo.get("2").unwrap().pages.is_empty());
}

#[test]
fn lookup_falls_back_to_a_fresh_aggregate() {
    let mut repo = BookRepository::new();
    let fresh = get_book_or_create_new("42", &repo, "Joe").unwrap();
    assert_eq!(fresh.id, "42");
    assert_eq!(fresh.author, "Joe");
    assert_eq!(fresh.events.len(), 1);
    let mut book = fresh;
    repo.save(&mut book);
    let found = get_book_or_create_new("42", &repo, "someone else").unwrap();
    assert_eq!(found.author, "Joe");
    assert!(found.events.is_empty());
}

#[test]
fn lookup_fallback_rejects_an_empty_id() {
    let repo = BookRepository::new();
    assert!(get_book_or_create_new("", &repo, "Joe").is_err());
}

#[test]
fn generated_pages_are_numbered_from_the_page_count() {
    let mut repo = BookRepository::new();
    let mut book = Book::new("42".to_owned(), "Joe".to_owned()).unwrap();
    generate_new_book_page(&mut book, &mut repo);
    generate_new_book_page(&mut book, &mut repo);
    assert_eq!(book.pages, vec!["Page #1".to_owned(), "Page #2".to_owned()]);
    assert!(book.events.is_empty());
    let found = repo.get("42").unwrap();
    assert_eq!(found.pages, vec!["Page #1".to_owned(), "Page #2".to_owned()]);
}

#[test]
fn page_labels_render_multi_digit_numbers() {
    let label = booklog::label::make_page_label(105);
    assert_eq!(label, "Page #105");
    assert_eq!(booklog::label::usize_to_decimal(0), "0");
    assert_eq!(booklog::label::usize_to_decimal(10), "10");
    assert_eq!(booklog::label::usize_to_decimal(987654), "987654");
}
