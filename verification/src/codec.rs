//! The wire format: a stable, order-preserving, JSON-style encoding of
//! domain events and of snapshot records, reproducible byte-for-byte across
//! processes.
//!
//! Each event is one tagged object, `{"Created":{"id":...,"author":...}}` or
//! `{"PageAdded":{"content":...}}`; a snapshot is one object holding the full
//! projected state. String contents escape `"` and `\` with a backslash and
//! carry every other character literally. Decoding accepts exactly the
//! canonical form the encoder emits and fails with a [`SerializationError`]
//! on anything else, so an unknown variant can never silently no-op.

use vstd::prelude::*;

use crate::book::{Book, BookCreated, BookEvent, BookModel, EventModel, PageAdded};
use vstd::string::StrSliceExecFns;
use vstd::string::StringExecFns;

verus! {

/// A payload did not encode or decode as a known event or state shape.
#[derive(Clone, Copy, PartialEq, Eq, Structural, Debug)]
pub struct SerializationError;

/// How one character is written inside an encoded string: `"` and `\` get a
/// leading backslash, every other character stands for itself.
pub open spec fn esc_char(c: char) -> Seq<char> {
    if c == '"' || c == '\\' {
        seq!['\\', c]
    } else {
        seq![c]
    }
}

/// The escaped form of a whole string.
pub open spec fn escape(s: Seq<char>) -> Seq<char>
    decreases s.len(),
{
    if s.len() == 0 {
        Seq::empty()
    } else {
        esc_char(s[0]) + escape(s.drop_first())
    }
}

/// Reads an escaped string body up to and including its closing quote.
/// Returns the unescaped content and what follows the quote, or nothing if
/// the input ends early or holds an unknown escape.
pub open spec fn unesc_prefix(s: Seq<char>) -> Option<(Seq<char>, Seq<char>)>
    decreases s.len(),
{
    if s.len() == 0 {
        None
    } else if s[0] == '"' {
        Some((Seq::empty(), s.drop_first()))
    } else if s[0] == '\\' {
        if s.len() >= 2 && (s[1] == '"' || s[1] == '\\') {
            match unesc_prefix(s.skip(2)) {
                Some(tr) => Some((seq![s[1]] + tr.0, tr.1)),
                None => None,
            }
        } else {
            None
        }
    } else {
        match unesc_prefix(s.drop_first()) {
            Some(tr) => Some((seq![s[0]] + tr.0, tr.1)),
            None => None,
        }
    }
}

/// Escaping one more character appends its escaped form.
pub proof fn lemma_escape_snoc(s: Seq<char>, c: char)
    ensures
        escape(s.push(c)) == escape(s) + esc_char(c),
    decreases s.len(),
{
    if s.len() == 0 {
        assert(s.push(c)[0] == c);
        assert(s.push(c).drop_first() =~= Seq::<char>::empty());
        assert(escape(Seq::<char>::empty()) == Seq::<char>::empty());
        assert(escape(s.push(c)) == esc_char(c) + escape(Seq::<char>::empty()));
        assert(escape(s.push(c)) =~= escape(s) + esc_char(c));
    } else {
        assert(s.push(c)[0] == s[0]);
        assert(s.push(c).drop_first() =~= s.drop_first().push(c));
        lemma_escape_snoc(s.drop_first(), c);
        assert(escape(s.push(c)) == esc_char(s[0]) + escape(s.drop_first().push(c)));
        assert(escape(s.push(c)) =~= escape(s) + esc_char(c));
    }
}

/// Reading back an escaped string finds exactly the original content and
/// leaves exactly what followed the closing quote.
pub proof fn lemma_unesc_escape(x: Seq<char>, rest: Seq<char>)
    ensures
        unesc_prefix(escape(x) + seq!['"'] + rest) == Some((x, rest)),
    decreases x.len(),
{
    let s = escape(x) + seq!['"'] + rest;
    if x.len() == 0 {
        assert(s =~= seq!['"'] + rest);
        assert(s[0] == '"');
        assert(s.drop_first() =~= rest);
        assert(x =~= Seq::<char>::empty());
    } else {
        let c = x[0];
        assert(escape(x) == esc_char(c) + escape(x.drop_first()));
        lemma_unesc_escape(x.drop_first(), rest);
        if c == '"' || c == '\\' {
            assert(s[0] == '\\');
            assert(s[1] == c);
            assert(s.len() >= 2);
            assert(s.skip(2) =~= escape(x.drop_first()) + seq!['"'] + rest);
            assert(seq![c] + x.drop_first() =~= x);
        } else {
            assert(s[0] == c);
            assert(s.drop_first() =~= escape(x.drop_first()) + seq!['"'] + rest);
            assert(seq![c] + x.drop_first() =~= x);
        }
    }
}

/// Whatever an escaped-string read leaves behind is strictly shorter than
/// its input.
pub proof fn lemma_unesc_shrinks(s: Seq<char>)
    ensures
        match unesc_prefix(s) {
            Some(tr) => tr.1.len() < s.len(),
            None => true,
        },
    decreases s.len(),
{
    if s.len() == 0 {
    } else if s[0] == '"' {
    } else if s[0] == '\\' {
        if s.len() >= 2 && (s[1] == '"' || s[1] == '\\') {
            lemma_unesc_shrinks(s.skip(2));
        }
    } else {
        lemma_unesc_shrinks(s.drop_first());
    }
}

/// Does `s` begin with `p`?
pub open spec fn starts_with(s: Seq<char>, p: Seq<char>) -> bool {
    s.len() >= p.len() && s.take(p.len() as int) == p
}

/// Opens the `Created` object, up to and including the quote that opens the
/// id.
pub open spec fn pre_created() -> Seq<char> {
    "{\"Created\":{\"id\":\""@
}

/// Opens the `PageAdded` object, up to and including the quote that opens
/// the content.
pub open spec fn pre_page() -> Seq<char> {
    "{\"PageAdded\":{\"content\":\""@
}

/// Stands between a closed id and the author, ending on the quote that
/// opens the author.
pub open spec fn sep_author() -> Seq<char> {
    ",\"author\":\""@
}

/// Closes a one-field or two-field event object.
pub open spec fn suf_event() -> Seq<char> {
    "}}"@
}

/// Opens a snapshot object, up to and including the quote that opens the
/// id.
pub open spec fn pre_snapshot() -> Seq<char> {
    "{\"id\":\""@
}

/// Stands between a closed author and the page array, ending on the
/// bracket that opens the array.
pub open spec fn sep_pages() -> Seq<char> {
    ",\"pages\":["@
}

/// The canonical encoding of one domain event.
pub open spec fn encoded_event(e: EventModel) -> Seq<char> {
    match e {
        EventModel::Created { id, author } => pre_created() + escape(id) + seq!['"']
            + sep_author() + escape(author) + seq!['"'] + suf_event(),
        EventModel::PageAdded { content } => pre_page() + escape(content) + seq!['"']
            + suf_event(),
    }
}

/// The canonical encoding of a page array's interior, one quoted escaped
/// string per page, comma-separated. `first` says whether a separating
/// comma is still owed before the next page.
pub open spec fn encoded_pages(ps: Seq<Seq<char>>, first: bool) -> Seq<char>
    decreases ps.len(),
{
    if ps.len() == 0 {
        Seq::empty()
    } else {
        (if first {
            Seq::empty()
        } else {
            seq![',']
        }) + seq!['"'] + escape(ps[0]) + seq!['"'] + encoded_pages(ps.drop_first(), false)
    }
}

/// The canonical encoding of a snapshot record: the full projected state,
/// not events.
pub open spec fn encoded_snapshot(id: Seq<char>, author: Seq<char>, pages: Seq<Seq<char>>) -> Seq<
    char,
> {
    pre_snapshot() + escape(id) + seq!['"'] + sep_author() + escape(author) + seq!['"']
        + sep_pages() + encoded_pages(pages, true) + seq![']'] + seq!['}']
}

/// Reads one encoded event, or nothing if the payload is not the canonical
/// encoding of one of the two known variants.
pub open spec fn parse_event(s: Seq<char>) -> Option<EventModel> {
    if starts_with(s, pre_created()) {
        match unesc_prefix(s.skip(pre_created().len() as int)) {
            Some(tr1) => if starts_with(tr1.1, sep_author()) {
                match unesc_prefix(tr1.1.skip(sep_author().len() as int)) {
                    Some(tr2) => if tr2.1 == suf_event() {
                        Some(EventModel::Created { id: tr1.0, author: tr2.0 })
                    } else {
                        None
                    },
                    None => None,
                }
            } else {
                None
            },
            None => None,
        }
    } else if starts_with(s, pre_page()) {
        match unesc_prefix(s.skip(pre_page().len() as int)) {
            Some(tr) => if tr.1 == suf_event() {
                Some(EventModel::PageAdded { content: tr.0 })
            } else {
                None
            },
            None => None,
        }
    } else {
        None
    }
}

/// Reads a page array's interior up to and past its closing bracket.
/// `first` says whether a bare `]` may still close an empty array here.
pub open spec fn parse_pages(s: Seq<char>, first: bool) -> Option<(Seq<Seq<char>>, Seq<char>)>
    decreases s.len(),
    via parse_pages_decreases
{
    if s.len() == 0 {
        None
    } else if first && s[0] == ']' {
        Some((Seq::empty(), s.drop_first()))
    } else if s[0] == '"' {
        match unesc_prefix(s.drop_first()) {
            Some(tr) => if tr.1.len() > 0 && tr.1[0] == ']' {
                Some((seq![tr.0], tr.1.drop_first()))
            } else if tr.1.len() > 0 && tr.1[0] == ',' {
                match parse_pages(tr.1.drop_first(), false) {
                    Some(tr2) => Some((seq![tr.0] + tr2.0, tr2.1)),
                    None => None,
                }
            } else {
                None
            },
            None => None,
        }
    } else {
        None
    }
}

#[via_fn]
proof fn parse_pages_decreases(s: Seq<char>, first: bool) {
    if s.len() > 0 && !(first && s[0] == ']') && s[0] == '"' {
        lemma_unesc_shrinks(s.drop_first());
    }
}

/// Round trip for events: decoding the canonical encoding of any event,
/// either variant, any contents, finds exactly that event.
pub proof fn lemma_event_round_trip(e: EventModel)
    ensures
        parse_event(encoded_event(e)) == Some(e),
{
    reveal_strlit("{\"Created\":{\"id\":\"");
    reveal_strlit("{\"PageAdded\":{\"content\":\"");
    reveal_strlit(",\"author\":\"");
    reveal_strlit("}}");
    let s = encoded_event(e);
    match e {
        EventModel::Created { id, author } => {
            let rest1 = sep_author() + escape(author) + seq!['"'] + suf_event();
            assert(s.take(pre_created().len() as int) =~= pre_created());
            assert(s.skip(pre_created().len() as int) =~= escape(id) + seq!['"'] + rest1);
            lemma_unesc_escape(id, rest1);
            assert(rest1.take(sep_author().len() as int) =~= sep_author());
            assert(rest1.skip(sep_author().len() as int) =~= escape(author) + seq!['"']
                + suf_event());
            lemma_unesc_escape(author, suf_event());
        },
        EventModel::PageAdded { content } => {
            assert(!starts_with(s, pre_created())) by {
                if starts_with(s, pre_created()) {
                    assert(s.take(pre_created().len() as int)[2] == s[2]);
                    assert(s[2] == pre_page()[2]);
                    assert(false);
                }
            }
            assert(s.take(pre_page().len() as int) =~= pre_page());
            assert(s.skip(pre_page().len() as int) =~= escape(content) + seq!['"'] + suf_event());
            lemma_unesc_escape(content, suf_event());
        },
    }
}

/// A non-empty page list, read back from its quoted first page onward,
/// yields exactly its pages and leaves exactly what followed the closing
/// bracket.
proof fn lemma_parse_body(ps: Seq<Seq<char>>, rest: Seq<char>, first: bool)
    requires
        ps.len() > 0,
    ensures
        parse_pages(
            seq!['"'] + escape(ps[0]) + seq!['"'] + encoded_pages(ps.drop_first(), false)
                + seq![']'] + rest,
            first,
        ) == Some((ps, rest)),
    decreases ps.len(),
{
    let tail = encoded_pages(ps.drop_first(), false) + seq![']'] + rest;
    let s = seq!['"'] + escape(ps[0]) + seq!['"'] + encoded_pages(ps.drop_first(), false)
        + seq![']'] + rest;
    assert(s[0] == '"');
    assert(s.drop_first() =~= escape(ps[0]) + seq!['"'] + tail);
    lemma_unesc_escape(ps[0], tail);
    if ps.len() == 1 {
        assert(encoded_pages(ps.drop_first(), false) =~= Seq::<char>::empty());
        assert(tail =~= seq![']'] + rest);
        assert(tail[0] == ']');
        assert(tail.drop_first() =~= rest);
        assert(seq![ps[0]] =~= ps);
    } else {
        let dp = ps.drop_first();
        assert(encoded_pages(dp, false) == seq![','] + seq!['"'] + escape(dp[0]) + seq!['"']
            + encoded_pages(dp.drop_first(), false));
        assert(tail[0] == ',');
        assert(tail.drop_first() =~= seq!['"'] + escape(dp[0]) + seq!['"'] + encoded_pages(
            dp.drop_first(),
            false,
        ) + seq![']'] + rest);
        lemma_parse_body(dp, rest, false);
        assert(seq![ps[0]] + dp =~= ps);
    }
}

/// Round trip for page arrays: reading back an encoded page list, empty or
/// not, yields exactly its pages and leaves exactly what followed the
/// closing bracket.
pub proof fn lemma_parse_encoded_pages(ps: Seq<Seq<char>>, rest: Seq<char>)
    ensures
        parse_pages(encoded_pages(ps, true) + seq![']'] + rest, true) == Some((ps, rest)),
{
    let s = encoded_pages(ps, true) + seq![']'] + rest;
    if ps.len() == 0 {
        assert(s =~= seq![']'] + rest);
        assert(s[0] == ']');
        assert(s.drop_first() =~= rest);
        assert(Seq::<Seq<char>>::empty() =~= ps);
    } else {
        assert(s =~= seq!['"'] + escape(ps[0]) + seq!['"'] + encoded_pages(ps.drop_first(), false)
            + seq![']'] + rest);
        lemma_parse_body(ps, rest, true);
    }
}

/// Round trip for snapshots: decoding the canonical encoding of any
/// projected state finds exactly that state, with nothing pending.
pub proof fn lemma_snapshot_round_trip(id: Seq<char>, author: Seq<char>, pages: Seq<Seq<char>>)
    ensures
        parse_snapshot(encoded_snapshot(id, author, pages)) == Some(
            BookModel { id, author, pages, pending: Seq::empty() },
        ),
{
    reveal_strlit("{\"id\":\"");
    reveal_strlit(",\"author\":\"");
    reveal_strlit(",\"pages\":[");
    let s = encoded_snapshot(id, author, pages);
    let rest1 = sep_author() + escape(author) + seq!['"'] + sep_pages() + encoded_pages(
        pages,
        true,
    ) + seq![']'] + seq!['}'];
    assert(s.take(pre_snapshot().len() as int) =~= pre_snapshot());
    assert(s.skip(pre_snapshot().len() as int) =~= escape(id) + seq!['"'] + rest1);
    lemma_unesc_escape(id, rest1);
    let rest2 = sep_pages() + encoded_pages(pages, true) + seq![']'] + seq!['}'];
    assert(rest1.take(sep_author().len() as int) =~= sep_author());
    assert(rest1.skip(sep_author().len() as int) =~= escape(author) + seq!['"'] + rest2);
    lemma_unesc_escape(author, rest2);
    assert(rest2.take(sep_pages().len() as int) =~= sep_pages());
    assert(rest2.skip(sep_pages().len() as int) =~= encoded_pages(pages, true) + seq![']']
        + seq!['}']);
    lemma_parse_encoded_pages(pages, seq!['}']);
}

/// Reads one encoded snapshot, or nothing if the payload is not canonical.
/// A decoded snapshot never carries pending events.
pub open spec fn parse_snapshot(s: Seq<char>) -> Option<BookModel> {
    if starts_with(s, pre_snapshot()) {
        match unesc_prefix(s.skip(pre_snapshot().len() as int)) {
            Some(tr1) => if starts_with(tr1.1, sep_author()) {
                match unesc_prefix(tr1.1.skip(sep_author().len() as int)) {
                    Some(tr2) => if starts_with(tr2.1, sep_pages()) {
                        match parse_pages(tr2.1.skip(sep_pages().len() as int), true) {
                            Some(tr3) => if tr3.1 == seq!['}'] {
                                Some(
                                    BookModel {
                                        id: tr1.0,
                                        author: tr2.0,
                                        pages: tr3.0,
                                        pending: Seq::empty(),
                                    },
                                )
                            } else {
                                None
                            },
                            None => None,
                        }
                    } else {
                        None
                    },
                    None => None,
                }
            } else {
                None
            },
            None => None,
        }
    } else {
        None
    }
}

/// Relies on `String::push`: appends exactly the given character.
#[verifier::external_body]
pub(crate) fn push_char(s: &mut String, c: char)
    ensures
        final(s)@ == old(s)@.push(c),
{
    s.push(c);
}

/// Appends the escaped form of `s` to `out`.
fn append_escaped(out: &mut String, s: &str)
    ensures
        final(out)@ == old(out)@ + escape(s@),
{
    let n = s.unicode_len();
    let mut i: usize = 0;
    proof {
        assert(s@.take(0) =~= Seq::<char>::empty());
        assert(out@ + escape(s@.take(0)) =~= out@);
    }
    while i < n
        invariant
            i <= n,
            n == s@.len(),
            out@ == old(out)@ + escape(s@.take(i as int)),
        decreases n - i,
    {
        let c = s.get_char(i);
        if c == '"' || c == '\\' {
            push_char(out, '\\');
            push_char(out, c);
        } else {
            push_char(out, c);
        }
        proof {
            lemma_escape_snoc(s@.take(i as int), s@[i as int]);
            assert(s@.take(i + 1) =~= s@.take(i as int).push(s@[i as int]));
            assert(out@ =~= old(out)@ + escape(s@.take(i + 1)));
        }
        i = i + 1;
    }
    proof {
        assert(s@.take(n as int) =~= s@);
    }
}

/// Encodes one domain event in its canonical form.
pub fn encode_event(ev: &BookEvent) -> (r: String)
    ensures
        r@ == encoded_event(ev@),
{
    let mut out = String::new();
    match ev {
        BookEvent::Created(e) => {
            out.append("{\"Created\":{\"id\":\"");
            append_escaped(&mut out, e.id.as_str());
            push_char(&mut out, '"');
            out.append(",\"author\":\"");
            append_escaped(&mut out, e.author.as_str());
            push_char(&mut out, '"');
            out.append("}}");
        },
        BookEvent::PageAdded(e) => {
            out.append("{\"PageAdded\":{\"content\":\"");
            append_escaped(&mut out, e.content.as_str());
            push_char(&mut out, '"');
            out.append("}}");
        },
    }
    proof {
        assert(out@ =~= encoded_event(ev@));
    }
    out
}

/// Encodes the full projected state of an aggregate as a snapshot record.
/// Pending events are no part of a snapshot.
pub fn encode_snapshot(book: &Book) -> (r: String)
    ensures
        r@ == encoded_snapshot(book@.id, book@.author, book@.pages),
{
    let mut out = String::new();
    out.append("{\"id\":\"");
    append_escaped(&mut out, book.id.as_str());
    push_char(&mut out, '"');
    out.append(",\"author\":\"");
    append_escaped(&mut out, book.author.as_str());
    push_char(&mut out, '"');
    out.append(",\"pages\":[");
    let ghost prefix = out@;
    let n = book.pages.len();
    let mut k: usize = 0;
    proof {
        assert(book@.pages.take(0) =~= Seq::<Seq<char>>::empty());
        assert(prefix + encoded_pages(book@.pages.take(0), true) =~= prefix);
    }
    while k < n
        invariant
            k <= n,
            n == book.pages.len(),
            out@ == prefix + encoded_pages(book@.pages.take(k as int), true),
        decreases n - k,
    {
        if k > 0 {
            push_char(&mut out, ',');
        }
        push_char(&mut out, '"');
        let pg = &book.pages[k];
        append_escaped(&mut out, pg.as_str());
        push_char(&mut out, '"');
        proof {
            lemma_encoded_pages_snoc(book@.pages.take(k as int), book@.pages[k as int]);
            assert(book@.pages.take(k + 1) =~= book@.pages.take(k as int).push(
                book@.pages[k as int],
            ));
            assert(out@ =~= prefix + encoded_pages(book@.pages.take(k + 1), true));
        }
        k = k + 1;
    }
    push_char(&mut out, ']');
    push_char(&mut out, '}');
    proof {
        assert(book@.pages.take(n as int) =~= book@.pages);
        assert(out@ =~= encoded_snapshot(book@.id, book@.author, book@.pages));
    }
    out
}

/// Encoding one more page appends a comma where one is owed, then the
/// quoted escaped page.
proof fn lemma_encoded_pages_snoc(ps: Seq<Seq<char>>, p: Seq<char>)
    ensures
        encoded_pages(ps.push(p), true) == encoded_pages(ps, true) + (if ps.len() == 0 {
            Seq::<char>::empty()
        } else {
            seq![',']
        }) + seq!['"'] + escape(p) + seq!['"'],
    decreases ps.len(),
{
    lemma_encoded_pages_snoc_at(ps, p, true);
}

/// As `lemma_encoded_pages_snoc`, generalized over whether a comma is owed
/// before the first page.
proof fn lemma_encoded_pages_snoc_at(ps: Seq<Seq<char>>, p: Seq<char>, first: bool)
    ensures
        encoded_pages(ps.push(p), first) == encoded_pages(ps, first) + (if ps.len() == 0 && first {
            Seq::<char>::empty()
        } else {
            seq![',']
        }) + seq!['"'] + escape(p) + seq!['"'],
    decreases ps.len(),
{
    if ps.len() == 0 {
        assert(ps.push(p)[0] == p);
        assert(ps.push(p).drop_first() =~= Seq::<Seq<char>>::empty());
        assert(encoded_pages(Seq::<Seq<char>>::empty(), false) == Seq::<char>::empty());
        assert(encoded_pages(ps.push(p), first) == (if first {
            Seq::<char>::empty()
        } else {
            seq![',']
        }) + seq!['"'] + escape(p) + seq!['"'] + Seq::<char>::empty());
        assert(encoded_pages(ps.push(p), first) =~= encoded_pages(ps, first) + (if ps.len() == 0
            && first {
            Seq::<char>::empty()
        } else {
            seq![',']
        }) + seq!['"'] + escape(p) + seq!['"']);
    } else {
        assert(ps.push(p)[0] == ps[0]);
        assert(ps.push(p).drop_first() =~= ps.drop_first().push(p));
        lemma_encoded_pages_snoc_at(ps.drop_first(), p, false);
        assert(encoded_pages(ps.push(p), first) =~= encoded_pages(ps, first) + seq![',']
            + seq!['"'] + escape(p) + seq!['"']);
    }
}

/// Does `s`, from position `pos` on, begin with `lit`?
fn match_lit(s: &str, pos: usize, lit: &str) -> (r: bool)
    requires
        pos <= s@.len(),
    ensures
        r == starts_with(s@.skip(pos as int), lit@),
{
    let n = s.unicode_len();
    let m = lit.unicode_len();
    if m > n - pos {
        return false;
    }
    let mut i: usize = 0;
    while i < m
        invariant
            i <= m,
            m == lit@.len(),
            n == s@.len(),
            pos + m <= n,
            forall|j: int| 0 <= j < i ==> s@[pos + j] == lit@[j],
        decreases m - i,
    {
        if s.get_char(pos + i) != lit.get_char(i) {
            proof {
                let sk = s@.skip(pos as int);
                if starts_with(sk, lit@) {
                    assert(sk.take(m as int)[i as int] == sk[i as int]);
                    assert(false);
                }
            }
            return false;
        }
        i = i + 1;
    }
    proof {
        let sk = s@.skip(pos as int);
        assert(sk.take(m as int) =~= lit@);
    }
    true
}

/// Reads an escaped string body from `start` up to and including its
/// closing quote, unescaping as it goes.
fn unescape_prefix(s: &str, start: usize) -> (r: Option<(String, usize)>)
    requires
        start <= s@.len(),
    ensures
        match r {
            Some(pr) => start < pr.1 <= s@.len() && unesc_prefix(s@.skip(start as int)) == Some(
                (pr.0@, s@.skip(pr.1 as int)),
            ),
            None => unesc_prefix(s@.skip(start as int)) is None,
        },
{
    let n = s.unicode_len();
    let mut acc = String::new();
    let mut i: usize = start;
    while i < n
        invariant
            start <= i <= n,
            n == s@.len(),
            (match unesc_prefix(s@.skip(i as int)) {
                Some(tr) => unesc_prefix(s@.skip(start as int)) == Some((acc@ + tr.0, tr.1)),
                None => unesc_prefix(s@.skip(start as int)) is None,
            }),
        decreases n - i,
    {
        let ghost sk = s@.skip(i as int);
        let c = s.get_char(i);
        proof {
            assert(sk[0] == c);
        }
        if c == '"' {
            proof {
                assert(sk.drop_first() =~= s@.skip(i + 1));
                assert(acc@ + Seq::<char>::empty() =~= acc@);
            }
            return Some((acc, i + 1));
        } else if c == '\\' {
            if i + 1 == n {
                proof {
                    assert(sk.len() == 1);
                    assert(unesc_prefix(sk) is None);
                }
                return None;
            }
            let c2 = s.get_char(i + 1);
            proof {
                assert(sk[1] == c2);
            }
            if c2 == '"' || c2 == '\\' {
                push_char(&mut acc, c2);
                proof {
                    assert(sk.skip(2) =~= s@.skip(i + 2));
                    if unesc_prefix(s@.skip(i + 2)) is Some {
                        let tr = unesc_prefix(s@.skip(i + 2))->Some_0;
                        assert(unesc_prefix(sk) == Some((seq![c2] + tr.0, tr.1)));
                        assert(acc@ + (seq![c2] + tr.0) =~= (acc@ + seq![c2]) + tr.0);
                        assert(acc@ + seq![c2] =~= acc@.push(c2));
                    }
                }
                i = i + 2;
            } else {
                proof {
                    assert(unesc_prefix(sk) is None);
                }
                return None;
            }
        } else {
            push_char(&mut acc, c);
            proof {
                assert(sk.drop_first() =~= s@.skip(i + 1));
                if unesc_prefix(s@.skip(i + 1)) is Some {
                    let tr = unesc_prefix(s@.skip(i + 1))->Some_0;
                    assert(unesc_prefix(sk) == Some((seq![c] + tr.0, tr.1)));
                    assert(acc@ + (seq![c] + tr.0) =~= (acc@ + seq![c]) + tr.0);
                    assert(acc@ + seq![c] =~= acc@.push(c));
                }
            }
            i = i + 1;
        }
    }
    proof {
        assert(s@.skip(i as int).len() == 0);
    }
    None
}

/// Decodes one log message into a domain event. Fails, and fails whole,
/// on any payload that is not the canonical encoding of a known variant.
pub fn decode_event(s: &str) -> (r: Result<BookEvent, SerializationError>)
    ensures
        match r {
            Ok(ev) => parse_event(s@) == Some(ev@),
            Err(_) => parse_event(s@) is None,
        },
{
    let n = s.unicode_len();
    proof {
        assert(s@.skip(0) =~= s@);
    }
    if match_lit(s, 0, "{\"Created\":{\"id\":\"") {
        let pre = "{\"Created\":{\"id\":\"";
        let pl = pre.unicode_len();
        proof {
            assert(pl <= s@.len());
        }
        match unescape_prefix(s, pl) {
            Some((id, p1)) => {
                if match_lit(s, p1, ",\"author\":\"") {
                    let sep = ",\"author\":\"";
                    let sl = sep.unicode_len();
                    proof {
                        assert(s@.skip(p1 as int).len() >= sl);
                        assert(s@.skip(p1 as int).skip(sl as int) =~= s@.skip(p1 + sl));
                    }
                    match unescape_prefix(s, p1 + sl) {
                        Some((author, p2)) => {
                            if match_lit(s, p2, "}}") && n - p2 == 2 {
                                let ev = BookEvent::Created(BookCreated { id, author });
                                proof {
                                    reveal_strlit("}}");
                                    assert(s@.skip(p2 as int) =~= suf_event());
                                }
                                Ok(ev)
                            } else {
                                proof {
                                    reveal_strlit("}}");
                                    let r2 = s@.skip(p2 as int);
                                    if r2 == suf_event() {
                                        assert(r2.take(suf_event().len() as int) =~= suf_event());
                                        assert(r2.len() == 2);
                                    }
                                }
                                Err(SerializationError)
                            }
                        },
                        None => Err(SerializationError),
                    }
                } else {
                    Err(SerializationError)
                }
            },
            None => Err(SerializationError),
        }
    } else if match_lit(s, 0, "{\"PageAdded\":{\"content\":\"") {
        let pre = "{\"PageAdded\":{\"content\":\"";
        let pl = pre.unicode_len();
        proof {
            assert(pl <= s@.len());
        }
        match unescape_prefix(s, pl) {
            Some((content, p1)) => {
                if match_lit(s, p1, "}}") && n - p1 == 2 {
                    let ev = BookEvent::PageAdded(PageAdded { content });
                    proof {
                        reveal_strlit("}}");
                        assert(s@.skip(p1 as int) =~= suf_event());
                    }
                    Ok(ev)
                } else {
                    proof {
                        reveal_strlit("}}");
                        let r1 = s@.skip(p1 as int);
                        if r1 == suf_event() {
                            assert(r1.take(suf_event().len() as int) =~= suf_event());
                            assert(r1.len() == 2);
                        }
                    }
                    Err(SerializationError)
                }
            },
            None => Err(SerializationError),
        }
    } else {
        Err(SerializationError)
    }
}

/// Reads a page array's interior from `start` (just past the opening
/// bracket) up to and past its closing bracket.
fn parse_pages_from(s: &str, start: usize) -> (r: Option<(Vec<String>, usize)>)
    requires
        start <= s@.len(),
    ensures
        match r {
            Some(pr) => pr.1 <= s@.len() && parse_pages(s@.skip(start as int), true) == Some(
                (pr.0.deep_view(), s@.skip(pr.1 as int)),
            ),
            None => parse_pages(s@.skip(start as int), true) is None,
        },
{
    let n = s.unicode_len();
    let mut acc: Vec<String> = Vec::new();
    let mut i: usize = start;
    let mut first: bool = true;
    proof {
        assert(acc.deep_view() =~= Seq::<Seq<char>>::empty());
    }
    while i < n
        invariant
            start <= i <= n,
            n == s@.len(),
            (match parse_pages(s@.skip(i as int), first) {
                Some(tr) => parse_pages(s@.skip(start as int), true) == Some(
                    (acc.deep_view() + tr.0, tr.1),
                ),
                None => parse_pages(s@.skip(start as int), true) is None,
            }),
        decreases n - i,
    {
        let ghost sk = s@.skip(i as int);
        let c = s.get_char(i);
        proof {
            assert(sk[0] == c);
        }
        if first && c == ']' {
            proof {
                assert(sk.drop_first() =~= s@.skip(i + 1));
                assert(acc.deep_view() + Seq::<Seq<char>>::empty() =~= acc.deep_view());
            }
            return Some((acc, i + 1));
        }
        if c != '"' {
            proof {
                assert(parse_pages(sk, first) is None);
            }
            return None;
        }
        match unescape_prefix(s, i + 1) {
            None => {
                proof {
                    assert(sk.drop_first() =~= s@.skip(i + 1));
                    assert(parse_pages(sk, first) is None);
                }
                return None;
            },
            Some((p, j)) => {
                proof {
                    assert(sk.drop_first() =~= s@.skip(i + 1));
                }
                let ghost accv = acc.deep_view();
                let ghost pv = p@;
                acc.push(p);
                proof {
                    assert(acc.deep_view() =~= accv.push(pv));
                }
                if j == n {
                    proof {
                        assert(s@.skip(j as int).len() == 0);
                        assert(parse_pages(sk, first) is None);
                    }
                    return None;
                }
                let c2 = s.get_char(j);
                proof {
                    assert(s@.skip(j as int)[0] == c2);
                }
                if c2 == ']' {
                    proof {
                        assert(s@.skip(j as int).drop_first() =~= s@.skip(j + 1));
                        assert(parse_pages(sk, first) == Some(
                            (seq![pv], s@.skip(j + 1)),
                        ));
                        assert(accv + seq![pv] =~= acc.deep_view());
                    }
                    return Some((acc, j + 1));
                } else if c2 == ',' {
                    proof {
                        assert(s@.skip(j as int).drop_first() =~= s@.skip(j + 1));
                        if parse_pages(s@.skip(j + 1), false) is Some {
                            let tr2 = parse_pages(s@.skip(j + 1), false)->Some_0;
                            assert(parse_pages(sk, first) == Some((seq![pv] + tr2.0, tr2.1)));
                            assert(accv + (seq![pv] + tr2.0) =~= acc.deep_view() + tr2.0);
                        } else {
                            assert(parse_pages(sk, first) is None);
                        }
                    }
                    i = j + 1;
                    first = false;
                } else {
                    proof {
                        assert(parse_pages(sk, first) is None);
                    }
                    return None;
                }
            },
        }
    }
    proof {
        assert(s@.skip(i as int).len() == 0);
    }
    None
}

/// Decodes one snapshot record into an aggregate with nothing pending.
/// Fails, and fails whole, on any payload that is not a canonical
/// snapshot.
pub fn decode_snapshot(s: &str) -> (r: Result<Book, SerializationError>)
    ensures
        match r {
            Ok(b) => parse_snapshot(s@) == Some(b@),
            Err(_) => parse_snapshot(s@) is None,
        },
{
    let n = s.unicode_len();
    proof {
        assert(s@.skip(0) =~= s@);
    }
    if !match_lit(s, 0, "{\"id\":\"") {
        return Err(SerializationError);
    }
    let pre = "{\"id\":\"";
    let pl = pre.unicode_len();
    proof {
        assert(pl <= s@.len());
    }
    match unescape_prefix(s, pl) {
        None => Err(SerializationError),
        Some((id, p1)) => {
            if !match_lit(s, p1, ",\"author\":\"") {
                return Err(SerializationError);
            }
            let sep = ",\"author\":\"";
            let sl = sep.unicode_len();
            proof {
                assert(s@.skip(p1 as int).len() >= sl);
                assert(s@.skip(p1 as int).skip(sl as int) =~= s@.skip(p1 + sl));
            }
            match unescape_prefix(s, p1 + sl) {
                None => Err(SerializationError),
                Some((author, p2)) => {
                    if !match_lit(s, p2, ",\"pages\":[") {
                        return Err(SerializationError);
                    }
                    let sepp = ",\"pages\":[";
                    let spl = sepp.unicode_len();
                    proof {
                        assert(s@.skip(p2 as int).len() >= spl);
                        assert(s@.skip(p2 as int).skip(spl as int) =~= s@.skip(p2 + spl));
                    }
                    match parse_pages_from(s, p2 + spl) {
                        None => Err(SerializationError),
                        Some((pages, p3)) => {
                            let close = "}";
                            if match_lit(s, p3, close) && n - p3 == 1 {
                                let book = Book {
                                    id,
                                    author,
                                    pages,
                                    events: Vec::new(),
                                };
                                proof {
                                    reveal_strlit("}");
                                    let r3 = s@.skip(p3 as int);
                                    assert(r3.len() == 1);
                                    assert(r3.take(1)[0] == r3[0]);
                                    assert(r3[0] == '}');
                                    assert(s@.skip(p3 as int) =~= seq!['}']);
                                    assert(book@.pending =~= Seq::<crate::book::EventModel>::empty());
                                }
                                Ok(book)
                            } else {
                                proof {
                                    reveal_strlit("}");
                                    let r3 = s@.skip(p3 as int);
                                    if r3 == seq!['}'] {
                                        assert(r3.take(close@.len() as int) =~= close@);
                                        assert(r3.len() == 1);
                                    }
                                }
                                Err(SerializationError)
                            }
                        },
                    }
                },
            }
        },
    }
}

} // verus!
