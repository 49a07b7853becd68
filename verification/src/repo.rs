//! The repository side: an append-only event log, a keyed snapshot store,
//! and the repository that durably commits an aggregate's pending events
//! and maintains its snapshot.
//!
//! The log and the store are capability interfaces of the domain; this
//! module gives them their reference behaviour, against which the commit
//! ordering — append the events, then write the snapshot, then clear the
//! pending buffer — is proved. The log is authoritative; the snapshot store
//! is a rebuildable materialized view.

use vstd::prelude::*;

use crate::book::{Book, BookModel, EventModel, ValidationError};
use crate::codec::{
    decode_snapshot, encode_event, encode_snapshot, encoded_event, encoded_snapshot,
    parse_snapshot,
};
use crate::label::{make_page_label, page_label};
use vstd::string::StringExecFns;

verus! {

/// Model of the append-only log: every message ever appended, in order,
/// and the consumer group's durably committed position.
#[verifier::ext_equal]
pub ghost struct LogModel {
    pub messages: Seq<Seq<char>>,
    pub committed: int,
}

/// An append-only, replayable log of encoded events under one stream name,
/// with one durable consumer position. The reference behaviour of the
/// transport the producer appends to and the consumer tails.
pub struct EventLog {
    messages: Vec<String>,
    committed: usize,
}

impl View for EventLog {
    type V = LogModel;

    closed spec fn view(&self) -> LogModel {
        LogModel { messages: self.messages.deep_view(), committed: self.committed as int }
    }
}

impl EventLog {
    /// The committed position never runs past the log's end.
    pub open spec fn wf(self) -> bool {
        0 <= self@.committed <= self@.messages.len()
    }

    /// An empty log with the consumer position at its start.
    pub fn new() -> (log: EventLog)
        ensures
            log.wf(),
            log@.messages == Seq::<Seq<char>>::empty(),
            log@.committed == 0,
    {
        let log = EventLog { messages: Vec::new(), committed: 0 };
        proof {
            assert(log@.messages =~= Seq::<Seq<char>>::empty());
        }
        log
    }

    /// Appends one message at the end; nothing already appended moves.
    pub fn append(&mut self, msg: String)
        requires
            old(self).wf(),
        ensures
            final(self).wf(),
            final(self)@.messages == old(self)@.messages.push(msg@),
            final(self)@.committed == old(self)@.committed,
    {
        let ghost mv = msg@;
        self.messages.push(msg);
        proof {
            assert(self@.messages =~= old(self)@.messages.push(mv));
        }
    }

    /// Everything appended after the committed position, in order.
    pub fn poll(&self) -> (batch: Vec<String>)
        requires
            self.wf(),
        ensures
            batch.deep_view() == self@.messages.skip(self@.committed),
    {
        let mut batch: Vec<String> = Vec::new();
        let n = self.messages.len();
        let mut i: usize = self.committed;
        proof {
            assert(batch.deep_view() =~= self@.messages.subrange(
                self@.committed,
                self@.committed,
            ));
        }
        while i < n
            invariant
                self.wf(),
                self@.committed <= i <= n,
                n == self@.messages.len(),
                batch.deep_view() == self@.messages.subrange(self@.committed, i as int),
            decreases n - i,
        {
            let m = &self.messages[i];
            let ghost bprev = batch.deep_view();
            batch.push(m.clone());
            proof {
                assert(self@.messages[i as int] == self.messages@[i as int]@);
                assert(batch.deep_view() =~= bprev.push(self@.messages[i as int]));
                assert(bprev.push(self@.messages[i as int]) =~= self@.messages.subrange(
                    self@.committed,
                    i + 1,
                ));
            }
            i = i + 1;
        }
        proof {
            assert(self@.messages.subrange(self@.committed, n as int) =~= self@.messages.skip(
                self@.committed,
            ));
        }
        batch
    }

    /// Durably advances the committed position. Positions only move
    /// forward and never past the end.
    pub fn commit(&mut self, pos: usize)
        requires
            old(self).wf(),
            old(self)@.committed <= pos <= old(self)@.messages.len(),
        ensures
            final(self).wf(),
            final(self)@.messages == old(self)@.messages,
            final(self)@.committed == pos as int,
    {
        self.committed = pos;
    }

    /// How many messages the log holds.
    pub fn len(&self) -> (n: usize)
        ensures
            n == self@.messages.len(),
    {
        self.messages.len()
    }

    /// The durably committed consumer position.
    pub fn committed_position(&self) -> (p: usize)
        ensures
            p == self@.committed,
    {
        self.committed
    }
}

/// What the store holds under key `k`: the value of the last put for it,
/// if any put for it happened at all.
pub open spec fn stored(entries: Seq<(Seq<char>, Seq<char>)>, k: Seq<char>) -> Option<Seq<char>>
    decreases entries.len(),
{
    if entries.len() == 0 {
        None
    } else if entries.last().0 == k {
        Some(entries.last().1)
    } else {
        stored(entries.drop_last(), k)
    }
}

/// A keyed snapshot store, kept as the record of its puts: the last write
/// under a key wins, as an append-structured key-value engine keeps them.
pub struct SnapshotStore {
    entries: Vec<(String, String)>,
}

impl View for SnapshotStore {
    type V = Seq<(Seq<char>, Seq<char>)>;

    closed spec fn view(&self) -> Seq<(Seq<char>, Seq<char>)> {
        self.entries.deep_view()
    }
}

impl SnapshotStore {
    /// An empty store.
    pub fn new() -> (store: SnapshotStore)
        ensures
            store@ == Seq::<(Seq<char>, Seq<char>)>::empty(),
    {
        let store = SnapshotStore { entries: Vec::new() };
        proof {
            assert(store@ =~= Seq::<(Seq<char>, Seq<char>)>::empty());
        }
        store
    }

    /// Writes, or overwrites, the value under `key`.
    pub fn put(&mut self, key: String, value: String)
        ensures
            final(self)@ == old(self)@.push((key@, value@)),
    {
        let ghost kv = key@;
        let ghost vv = value@;
        self.entries.push((key, value));
        proof {
            assert(self@ =~= old(self)@.push((kv, vv)));
        }
    }

    /// Reads the value last put under `key`, if any.
    pub fn get(&self, key: &String) -> (r: Option<String>)
        ensures
            match r {
                Some(v) => stored(self@, key@) == Some(v@),
                None => stored(self@, key@) is None,
            },
    {
        let mut j: usize = self.entries.len();
        proof {
            assert(self@.len() == self.entries@.len());
            assert(self@.take(self@.len() as int) =~= self@);
        }
        while j > 0
            invariant
                j <= self@.len(),
                self@.len() == self.entries@.len(),
                stored(self@, key@) == stored(self@.take(j as int), key@),
            decreases j,
        {
            let e = &self.entries[j - 1];
            proof {
                assert(self@.take(j as int).last() == (e.0@, e.1@));
                assert(self@.take(j as int).drop_last() =~= self@.take(j - 1));
            }
            if e.0 == *key {
                return Some(e.1.clone());
            }
            j = j - 1;
        }
        proof {
            assert(self@.take(0).len() == 0);
        }
        None
    }
}

/// Every encoded pending event of a state, in enqueue order.
pub open spec fn encoded_batch(events: Seq<EventModel>) -> Seq<Seq<char>> {
    events.map_values(|e: EventModel| encoded_event(e))
}

/// The repository: durably appends pending events to the log, then
/// mirrors the full projected state into the snapshot store, then clears
/// the pending buffer. At most one writer per aggregate id is assumed;
/// writes for one id must be serialized by the caller.
pub struct BookRepository {
    /// The authoritative append-only log.
    pub log: EventLog,
    /// The materialized view keyed by aggregate id.
    pub store: SnapshotStore,
}

impl BookRepository {
    /// The log is well formed and every stored snapshot is canonical.
    pub open spec fn wf(self) -> bool {
        &&& self.log.wf()
        &&& forall|k: Seq<char>|
            (#[trigger] stored(self.store@, k)) is Some ==> parse_snapshot(
                stored(self.store@, k)->Some_0,
            ) is Some
    }

    /// A repository over an empty log and an empty store.
    pub fn new() -> (repo: BookRepository)
        ensures
            repo.wf(),
            repo.log@.messages == Seq::<Seq<char>>::empty(),
            repo.log@.committed == 0,
            repo.store@ == Seq::<(Seq<char>, Seq<char>)>::empty(),
    {
        let repo = BookRepository { log: EventLog::new(), store: SnapshotStore::new() };
        proof {
            assert forall|k: Seq<char>| !((#[trigger] stored(repo.store@, k)) is Some) by {
                assert(repo.store@.len() == 0);
            }
        }
        repo
    }

    /// Commits `book`: appends every pending event to the log in enqueue
    /// order, then writes the snapshot of the full projected state under
    /// the book's id, and only then clears the pending buffer. The
    /// projected state itself never changes.
    pub fn save(&mut self, book: &mut Book)
        requires
            old(self).wf(),
        ensures
            final(self).wf(),
            final(self).log@.messages == old(self).log@.messages + encoded_batch(
                old(book)@.pending,
            ),
            final(self).log@.committed == old(self).log@.committed,
            final(self).store@ == old(self).store@.push(
                (
                    old(book)@.id,
                    encoded_snapshot(old(book)@.id, old(book)@.author, old(book)@.pages),
                ),
            ),
            final(book)@ == (BookModel { pending: Seq::empty(), ..old(book)@ }),
    {
        let n = book.events.len();
        let mut i: usize = 0;
        proof {
            assert(old(self).log@.messages + encoded_batch(old(book)@.pending.take(0))
                =~= old(self).log@.messages);
        }
        while i < n
            invariant
                old(self).wf(),
                self.log.wf(),
                i <= n,
                *book == *old(book),
                n == book.events@.len(),
                self.log@.messages == old(self).log@.messages + encoded_batch(
                    old(book)@.pending.take(i as int),
                ),
                self.log@.committed == old(self).log@.committed,
                self.store@ == old(self).store@,
            decreases n - i,
        {
            let ev = &book.events[i];
            let msg = encode_event(ev);
            self.log.append(msg);
            proof {
                assert(old(book)@.pending.take(i + 1) =~= old(book)@.pending.take(
                    i as int,
                ).push(ev@));
                assert(encoded_batch(old(book)@.pending.take(i + 1)) =~= encoded_batch(
                    old(book)@.pending.take(i as int),
                ).push(encoded_event(ev@)));
                assert(self.log@.messages =~= old(self).log@.messages + encoded_batch(
                    old(book)@.pending.take(i + 1),
                ));
            }
            i = i + 1;
        }
        let key = book.id.clone();
        let value = encode_snapshot(book);
        self.store.put(key, value);
        book.clear_events();
        proof {
            assert(old(book)@.pending.take(n as int) =~= old(book)@.pending);
            let ns = self.store@;
            assert(ns.last() == (
                old(book)@.id,
                encoded_snapshot(old(book)@.id, old(book)@.author, old(book)@.pages),
            ));
            assert forall|k: Seq<char>|
                (#[trigger] stored(ns, k)) is Some implies parse_snapshot(
                stored(ns, k)->Some_0,
            ) is Some by {
                assert(ns.len() > 0);
                assert(ns.drop_last() =~= old(self).store@);
                if ns.last().0 == k {
                    assert(stored(ns, k) == Some(
                        encoded_snapshot(old(book)@.id, old(book)@.author, old(book)@.pages),
                    ));
                    crate::codec::lemma_snapshot_round_trip(
                        old(book)@.id,
                        old(book)@.author,
                        old(book)@.pages,
                    );
                } else {
                    assert(stored(ns, k) == stored(old(self).store@, k));
                    assert(stored(old(self).store@, k) is Some);
                }
            }
        }
    }

    /// Answers a point lookup from the snapshot store: the last snapshot
    /// saved under `id`, decoded, with nothing pending; or an explicit
    /// absence when no save for `id` ever happened. The cache may be stale
    /// relative to the log; guaranteed-fresh state takes a replay.
    pub fn get(&self, id: &str) -> (r: Option<Book>)
        requires
            self.wf(),
        ensures
            match r {
                Some(b) => stored(self.store@, id@) is Some && parse_snapshot(
                    stored(self.store@, id@)->Some_0,
                ) == Some(b@),
                None => stored(self.store@, id@) is None,
            },
    {
        let key = String::from_str(id);
        match self.store.get(&key) {
            None => None,
            Some(v) => match decode_snapshot(v.as_str()) {
                Ok(b) => Some(b),
                Err(_) => {
                    proof {
                        assert(false);
                    }
                    None
                },
            },
        }
    }
}

/// After a save of a book in state `m`, the value stored under its id is
/// the snapshot just written, and that snapshot decodes to exactly the
/// projected state at the moment of save — same id, author and pages,
/// nothing pending. With `save`'s and `get`'s contracts this says: a get
/// right after a successful save returns the saved in-memory state.
pub proof fn lemma_get_after_save(store: Seq<(Seq<char>, Seq<char>)>, m: BookModel)
    ensures
        stored(store.push((m.id, encoded_snapshot(m.id, m.author, m.pages))), m.id) == Some(
            encoded_snapshot(m.id, m.author, m.pages),
        ),
        parse_snapshot(encoded_snapshot(m.id, m.author, m.pages)) == Some(
            BookModel { id: m.id, author: m.author, pages: m.pages, pending: Seq::empty() },
        ),
{
    let ns = store.push((m.id, encoded_snapshot(m.id, m.author, m.pages)));
    assert(ns.last() == (m.id, encoded_snapshot(m.id, m.author, m.pages)));
    crate::codec::lemma_snapshot_round_trip(m.id, m.author, m.pages);
}

/// Returns the snapshot stored under `id` if one exists, else a fresh
/// aggregate with that id and the given author; fresh construction obeys
/// the non-empty validation policy.
pub fn get_book_or_create_new(id: &str, repository: &BookRepository, author: &str) -> (r: Result<
    Book,
    ValidationError,
>)
    requires
        repository.wf(),
    ensures
        stored(repository.store@, id@) is Some ==> r is Ok && parse_snapshot(
            stored(repository.store@, id@)->Some_0,
        ) == Some(r->Ok_0@),
        stored(repository.store@, id@) is None && id@.len() > 0 && author@.len() > 0 ==> r is Ok
            && r->Ok_0@ == (BookModel {
            id: id@,
            author: author@,
            pages: Seq::empty(),
            pending: seq![EventModel::Created { id: id@, author: author@ }],
        }),
        stored(repository.store@, id@) is None && id@.len() == 0 ==> r == Result::<
            Book,
            ValidationError,
        >::Err(ValidationError::EmptyId),
        stored(repository.store@, id@) is None && id@.len() > 0 && author@.len() == 0 ==> r
            == Result::<Book, ValidationError>::Err(ValidationError::EmptyAuthor),
{
    if let Some(book) = repository.get(id) {
        Ok(book)
    } else {
        Book::new(String::from_str(id), String::from_str(author))
    }
}

/// Appends the next page, labelled with the new page count, and saves the
/// aggregate: afterwards nothing is pending, the log carries the encoded
/// batch that was pending before plus the new page's event, and the
/// snapshot mirrors the new state.
pub fn generate_new_book_page(book: &mut Book, repository: &mut BookRepository)
    requires
        old(repository).wf(),
        old(book)@.pages.len() < usize::MAX,
    ensures
        final(repository).wf(),
        final(book)@ == (BookModel {
            pages: old(book)@.pages.push(page_label(old(book)@.pages.len() + 1)),
            pending: Seq::empty(),
            ..old(book)@
        }),
        final(repository).log@.messages == old(repository).log@.messages + encoded_batch(
            old(book)@.pending.push(
                EventModel::PageAdded { content: page_label(old(book)@.pages.len() + 1) },
            ),
        ),
        final(repository).log@.committed == old(repository).log@.committed,
        final(repository).store@ == old(repository).store@.push(
            (
                old(book)@.id,
                encoded_snapshot(
                    old(book)@.id,
                    old(book)@.author,
                    old(book)@.pages.push(page_label(old(book)@.pages.len() + 1)),
                ),
            ),
        ),
{
    let next_page_number = book.pages.len() + 1;
    let label = make_page_label(next_page_number);
    book.add_page(label);
    repository.save(book);
}

} // verus!
