//! The domain event model and the "Book" aggregate.
//!
//! A book's state is the left fold of an ordered sequence of domain events.
//! Commands mutate the in-memory state and enqueue the matching event into a
//! pending buffer that the repository drains on a successful save.

use vstd::prelude::*;

verus! {

/// Mathematical model of one domain event.
pub ghost enum EventModel {
    Created { id: Seq<char>, author: Seq<char> },
    PageAdded { content: Seq<char> },
}

/// Mathematical model of the aggregate: the projected state (`id`, `author`,
/// `pages`) together with the buffer of events not yet durably committed.
#[verifier::ext_equal]
pub ghost struct BookModel {
    pub id: Seq<char>,
    pub author: Seq<char>,
    pub pages: Seq<Seq<char>>,
    pub pending: Seq<EventModel>,
}

/// Payload of the event that starts an aggregate's history.
#[derive(Debug)]
pub struct BookCreated {
    pub id: String,
    pub author: String,
}

/// Payload of the event that appends one page.
#[derive(Debug)]
pub struct PageAdded {
    pub content: String,
}

/// The closed set of domain events. Folding is an exhaustive match, so a
/// missing variant is a compile-time error, never a silent no-op.
#[derive(Debug)]
pub enum BookEvent {
    Created(BookCreated),
    PageAdded(PageAdded),
}

/// The "Book" aggregate: projected state plus the pending event buffer.
#[derive(Debug)]
pub struct Book {
    pub id: String,
    pub author: String,
    pub pages: Vec<String>,
    pub events: Vec<BookEvent>,
}

impl View for BookEvent {
    type V = EventModel;

    open spec fn view(&self) -> EventModel {
        match self {
            BookEvent::Created(ev) => EventModel::Created { id: ev.id@, author: ev.author@ },
            BookEvent::PageAdded(ev) => EventModel::PageAdded { content: ev.content@ },
        }
    }
}

impl DeepView for BookEvent {
    type V = EventModel;

    open spec fn deep_view(&self) -> EventModel {
        self.view()
    }
}

impl View for Book {
    type V = BookModel;

    open spec fn view(&self) -> BookModel {
        BookModel {
            id: self.id@,
            author: self.author@,
            pages: self.pages.deep_view(),
            pending: self.events.deep_view(),
        }
    }
}

/// The zero state every replay starts from: empty id and author, no pages,
/// nothing pending.
pub open spec fn empty_book() -> BookModel {
    BookModel {
        id: Seq::empty(),
        author: Seq::empty(),
        pages: Seq::empty(),
        pending: Seq::empty(),
    }
}

/// What folding one event does to the projected state. The pending buffer is
/// never touched by a fold.
pub open spec fn apply_model(m: BookModel, e: EventModel) -> BookModel {
    match e {
        EventModel::Created { id, author } => BookModel { id, author, ..m },
        EventModel::PageAdded { content } => BookModel { pages: m.pages.push(content), ..m },
    }
}

/// Folding an ordered event sequence into a state, first event first.
pub open spec fn fold_model(m: BookModel, events: Seq<EventModel>) -> BookModel
    decreases events.len(),
{
    if events.len() == 0 {
        m
    } else {
        apply_model(fold_model(m, events.drop_last()), events.last())
    }
}

/// The ordered list of `content` fields of the `PageAdded` events of a
/// sequence, in their original order.
pub open spec fn page_contents(events: Seq<EventModel>) -> Seq<Seq<char>>
    decreases events.len(),
{
    if events.len() == 0 {
        Seq::empty()
    } else {
        page_contents(events.drop_last()) + (match events.last() {
            EventModel::PageAdded { content } => seq![content],
            EventModel::Created { .. } => Seq::empty(),
        })
    }
}

/// Folding appends exactly the `PageAdded` contents to the pages, in their
/// original order, whatever the sequence holds and wherever it starts from.
pub proof fn lemma_fold_pages(m: BookModel, events: Seq<EventModel>)
    ensures
        fold_model(m, events).pages == m.pages + page_contents(events),
    decreases events.len(),
{
    if events.len() == 0 {
        assert(m.pages + page_contents(events) =~= m.pages);
    } else {
        lemma_fold_pages(m, events.drop_last());
        assert(m.pages + page_contents(events) =~= (m.pages + page_contents(events.drop_last()))
            + (match events.last() {
                EventModel::PageAdded { content } => seq![content],
                EventModel::Created { .. } => Seq::<Seq<char>>::empty(),
            }));
    }
}

/// Replaying from the zero state yields exactly the `PageAdded` contents as
/// pages, for every sequence, including ones with no `PageAdded` at all.
pub proof fn lemma_replay_pages(events: Seq<EventModel>)
    ensures
        fold_model(empty_book(), events).pages == page_contents(events),
{
    lemma_fold_pages(empty_book(), events);
    assert(empty_book().pages + page_contents(events) =~= page_contents(events));
}

/// For a sequence that begins with `Created { id, author }` and holds no
/// later `Created` (the creation event is the logical first event of an
/// aggregate's history), replaying from the zero state yields exactly that
/// id and author.
pub proof fn lemma_replay_created_first(events: Seq<EventModel>, id: Seq<char>, author: Seq<char>)
    requires
        events.len() > 0,
        events[0] == (EventModel::Created { id, author }),
        forall|i: int| 1 <= i < events.len() ==> events[i] is PageAdded,
    ensures
        fold_model(empty_book(), events).id == id,
        fold_model(empty_book(), events).author == author,
    decreases events.len(),
{
    if events.len() == 1 {
        assert(events.drop_last() =~= Seq::<EventModel>::empty());
    } else {
        assert(events.drop_last()[0] == events[0]);
        lemma_replay_created_first(events.drop_last(), id, author);
    }
}

impl BookEvent {
    /// Folds this event into the aggregate's projected state.
    pub fn apply(&self, book: &mut Book)
        ensures
            final(book)@ == apply_model(old(book)@, self@),
    {
        match self {
            BookEvent::Created(ev) => {
                book.id = ev.id.clone();
                book.author = ev.author.clone();
                proof {
                    assert(final(book)@ =~= apply_model(old(book)@, self@));
                }
            },
            BookEvent::PageAdded(ev) => {
                book.pages.push(ev.content.clone());
                proof {
                    assert(final(book)@.pages =~= old(book)@.pages.push(ev.content@));
                    assert(final(book)@ =~= apply_model(old(book)@, self@));
                }
            },
        }
    }
}

/// Why constructing an aggregate was refused: the identifier and the author
/// must both be non-empty.
#[derive(Clone, Copy, PartialEq, Eq, Structural, Debug)]
pub enum ValidationError {
    EmptyId,
    EmptyAuthor,
}

impl Book {
    /// Rehydrates an aggregate by replaying a historical event sequence from
    /// the zero state, first event first; nothing is left pending.
    pub fn from_events(events: Vec<BookEvent>) -> (book: Book)
        ensures
            book@ == fold_model(empty_book(), events.deep_view()),
            book@.pending == Seq::<EventModel>::empty(),
    {
        let mut book = Book {
            id: String::new(),
            author: String::new(),
            pages: Vec::new(),
            events: Vec::new(),
        };
        proof {
            assert(book@ =~= empty_book());
        }
        let n = events.len();
        let mut i: usize = 0;
        while i < n
            invariant
                i <= n,
                n == events.len(),
                book@ == fold_model(empty_book(), events.deep_view().take(i as int)),
            decreases n - i,
        {
            let ev = &events[i];
            ev.apply(&mut book);
            proof {
                let evs = events.deep_view();
                assert(evs.take(i + 1).drop_last() =~= evs.take(i as int));
                assert(evs.take(i + 1).last() == ev@);
                assert(book@ == fold_model(empty_book(), evs.take(i + 1)));
            }
            i += 1;
        }
        proof {
            assert(events.deep_view().take(n as int) =~= events.deep_view());
            assert(fold_model(empty_book(), events.deep_view()).pending
                =~= Seq::<EventModel>::empty()) by {
                lemma_fold_pending(empty_book(), events.deep_view());
            }
        }
        book
    }

    /// Constructs a fresh aggregate whose state already reflects `id` and
    /// `author`, with exactly the creation event pending. Empty identifiers
    /// and empty authors are rejected; this library enforces both.
    pub fn new(id: String, author: String) -> (r: Result<Book, ValidationError>)
        ensures
            id@.len() > 0 && author@.len() > 0 ==> r is Ok && r->Ok_0@ == (BookModel {
                id: id@,
                author: author@,
                pages: Seq::empty(),
                pending: seq![EventModel::Created { id: id@, author: author@ }],
            }),
            id@.len() == 0 ==> r == Result::<Book, ValidationError>::Err(
                ValidationError::EmptyId,
            ),
            id@.len() > 0 && author@.len() == 0 ==> r == Result::<Book, ValidationError>::Err(
                ValidationError::EmptyAuthor,
            ),
    {
        if id.as_str().is_empty() {
            return Err(ValidationError::EmptyId);
        }
        if author.as_str().is_empty() {
            return Err(ValidationError::EmptyAuthor);
        }
        let book = Book {
            id: id.clone(),
            author: author.clone(),
            pages: Vec::new(),
            events: vec![BookEvent::Created(BookCreated { id, author })],
        };
        proof {
            assert(book@.pending =~= seq![EventModel::Created { id: id@, author: author@ }]);
            assert(book@.pages =~= Seq::<Seq<char>>::empty());
        }
        Ok(book)
    }

    /// Appends `page` to the pages and enqueues the matching `PageAdded`
    /// event; both happen together, never one without the other.
    pub fn add_page(&mut self, page: String)
        ensures
            final(self)@ == (BookModel {
                pages: old(self)@.pages.push(page@),
                pending: old(self)@.pending.push(EventModel::PageAdded { content: page@ }),
                ..old(self)@
            }),
    {
        self.events.push(BookEvent::PageAdded(PageAdded { content: page.clone() }));
        self.pages.push(page);
        proof {
            assert(final(self)@.pages =~= old(self)@.pages.push(final(self).pages@.last()@));
            assert(final(self)@.pending =~= old(self)@.pending.push(
                final(self).events@.last()@,
            ));
        }
    }

    /// Empties the pending buffer. Only the repository calls this, and only
    /// once the events have been confirmed durable; clearing earlier would
    /// lose them on a crash.
    pub fn clear_events(&mut self)
        ensures
            final(self)@ == (BookModel { pending: Seq::empty(), ..old(self)@ }),
    {
        self.events.clear();
        proof {
            assert(final(self)@.pending =~= Seq::<EventModel>::empty());
        }
    }

    /// Relies on `uuid::Uuid::new_v4` and `uuid`'s hyphenated formatting: a
    /// fresh random identifier rendered as 36 characters. The result is
    /// random, so nothing more is promised of it.
    #[verifier::external_body]
    pub fn new_id() -> (r: String)
        ensures
            r@.len() == 36,
    {
        uuid::Uuid::new_v4().hyphenated().to_string()
    }
}

/// A fold never touches the pending buffer.
pub proof fn lemma_fold_pending(m: BookModel, events: Seq<EventModel>)
    ensures
        fold_model(m, events).pending == m.pending,
    decreases events.len(),
{
    if events.len() > 0 {
        lemma_fold_pending(m, events.drop_last());
    }
}

} // verus!
