use booklog::book::{Book, BookCreated, BookEvent, PageAdded};
use booklog::codec::{decode_event, decode_snapshot, encode_event, encode_snapshot};

#[test]
fn created_event_encodes_canonically() {
    let ev = BookEvent::Created(BookCreated { id: "1".to_owned(), author: "ds".to_owned() });
    assert_eq!(encode_event(&ev), "{\"Created\":{\"id\":\"1\",\"author\":\"ds\"}}");
}

#[test]
fn page_added_event_encodes_canonically() {
    let ev = BookEvent::PageAdded(PageAdded { content: "first page".to_owned() });
    assert_eq!(encode_event(&ev), "{\"PageAdded\":{\"content\":\"first page\"}}");
}

#[test]
fn created_event_round_trips() {
    let ev = BookEvent::Created(BookCreated { id: "42".to_owned(), author: "Joe".to_owned() });
    let decoded = decode_event(&encode_event(&ev)).unwrap();
    match decoded {
        BookEvent::Created(d) => {
            assert_eq!(d.id, "42");
            assert_eq!(d.author, "Joe");
        },
        BookEvent::PageAdded(_) => panic!("decoded the wrong variant"),
    }
}

#[test]
fn page_added_event_round_trips() {
    let ev = BookEvent::PageAdded(PageAdded { content: "Page #1".to_owned() });
    let decoded = decode_event(&encode_event(&ev)).unwrap();
    match decoded {
        BookEvent::PageAdded(d) => assert_eq!(d.content, "Page #1"),
        BookEvent::Created(_) => panic!("decoded the wrong variant"),
    }
}

#[test]
fn escaped_characters_round_trip() {
    let tricky = "a \"quoted\" name with a \\ backslash and a {brace}";
    let ev = BookEvent::Created(BookCreated {
        id: tricky.to_owned(),
        author: "\\\"".to_owned(),
    });
    let decoded = decode_event(&encode_event(&ev)).unwrap();
    match decoded {
        BookEvent::Created(d) => {
            assert_eq!(d.id, tricky);
            assert_eq!(d.author, "\\\"");
        },
        BookEvent::PageAdded(_) => panic!("decoded the wrong variant"),
    }
}

#[test]
fn empty_strings_round_trip() {
    let ev = BookEvent::PageAdded(PageAdded { content: String::new() });
    let decoded = decode_event(&encode_event(&ev)).unwrap();
    match decoded {
        BookEvent::PageAdded(d) => assert_eq!(d.content, ""),
        BookEvent::Created(_) => panic!("decoded the wrong variant"),
    }
}

#[test]
fn unknown_variant_fails_to_decode() {
    let r = decode_event("{\"Shelved\":{\"id\":\"1\"}}");
    assert!(r.is_err());
}

#[test]
fn truncated_payload_fails_to_decode() {
    assert!(decode_event("{\"Created\":{\"id\":\"1\"").is_err());
    assert!(decode_event("").is_err());
    assert!(decode_event("{\"PageAdded\":{\"content\":\"x\"}").is_err());
}

#[test]
fn trailing_garbage_fails_to_decode() {
    let r = decode_event("{\"PageAdded\":{\"content\":\"x\"}} ");
    assert!(r.is_err());
}

#[test]
fn encoded_event_is_json_compatible() {
    let ev = BookEvent::Created(BookCreated { id: "1".to_owned(), author: "ds".to_owned() });
    let text = encode_event(&ev);
    let v: serde_json::Value = serde_json::from_str(&text).unwrap();
    assert_eq!(v["Created"]["id"].as_str().unwrap(), "1");
    assert_eq!(v["Created"]["author"].as_str().unwrap(), "ds");
}

#[test]
fn snapshot_round_trips_through_the_store_format() {
    let book = Book::from_events(vec![
        BookEvent::Created(BookCreated { id: "42".to_owned(), author: "Joe".to_owned() }),
        BookEvent::PageAdded(PageAdded { content: "one".to_owned() }),
        BookEvent::PageAdded(PageAdded { content: "two \"quoted\"".to_owned() }),
    ]);
    let text = encode_snapshot(&book);
    let back = decode_snapshot(&text).unwrap();
    assert_eq!(back.id, "42");
    assert_eq!(back.author, "Joe");
    assert_eq!(back.pages, vec!["one".to_owned(), "two \"quoted\"".to_owned()]);
    assert!(back.events.is_empty());
}

#[test]
fn snapshot_with_no_pages_round_trips() {
    let book = Book::from_events(vec![BookEvent::Created(BookCreated {
        id: "7".to_owned(),
        author: "a".to_owned(),
    })]);
    let text = encode_snapshot(&book);
    assert_eq!(text, "{\"id\":\"7\",\"author\":\"a\",\"pages\":[]}");
    let back = decode_snapshot(&text).unwrap();
    assert_eq!(back.id, "7");
    assert!(back.pages.is_empty());
}

#[test]
fn encoded_snapshot_is_json_compatible() {
    let book = Book::from_events(vec![
        BookEvent::Created(BookCreated { id: "9".to_owned(), author: "b".to_owned() }),
        BookEvent::PageAdded(PageAdded { content: "p1".to_owned() }),
    ]);
    let text = encode_snapshot(&book);
    let v: serde_json::Value = serde_json::from_str(&text).unwrap();
    assert_eq!(v["id"].as_str().unwrap(), "9");
    assert_eq!(v["author"].as_str().unwrap(), "b");
    assert_eq!(v["pages"][0].as_str().unwrap(), "p1");
}

#[test]
fn snapshot_decode_rejects_event_payloads() {
    let ev = BookEvent::Created(BookCreated { id: "1".to_owned(), author: "ds".to_owned() });
    assert!(decode_snapshot(&encode_event(&ev)).is_err());
}
