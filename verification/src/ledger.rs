//! The event ledger: a date-indexed record store.
//!
//! One table of calendar events, each with a store-assigned integer id, a
//! title, a description and a date key. Rows are immutable once inserted and
//! leave only through [`Ledger::delete_event`]; ids are unique and stable.
//! Opening the store is idempotent: an existing ledger is kept as it is, an
//! absent one starts empty.

use vstd::prelude::*;

use crate::errors::WsError;

verus! {

/// One calendar entry.
pub struct Event {
    pub id: i64,
    pub title: String,
    pub description: String,
    pub date: String,
}

/// The abstract value of one event.
pub struct EventV {
    pub id: int,
    pub title: Seq<char>,
    pub description: Seq<char>,
    pub date: Seq<char>,
}

impl View for Event {
    type V = EventV;

    open spec fn view(&self) -> EventV {
        EventV {
            id: self.id as int,
            title: self.title@,
            description: self.description@,
            date: self.date@,
        }
    }
}

impl DeepView for Event {
    type V = EventV;

    open spec fn deep_view(&self) -> EventV {
        self@
    }
}

fn clone_event(e: &Event) -> (r: Event)
    ensures
        r@ == e@,
{
    Event {
        id: e.id,
        title: e.title.clone(),
        description: e.description.clone(),
        date: e.date.clone(),
    }
}

/// The ledger: its abstract value is the sequence of rows, in insertion
/// order (no order is promised to callers beyond that).
pub struct Ledger {
    events: Vec<Event>,
    next_id: i64,
}

impl View for Ledger {
    type V = Seq<EventV>;

    closed spec fn view(&self) -> Seq<EventV> {
        self.events.deep_view()
    }
}

impl Ledger {
    /// The id the store will assign to the next inserted row.
    pub closed spec fn next_id(&self) -> int {
        self.next_id as int
    }

    /// The representation invariant: every id was assigned below the next
    /// one, and ids are unique.
    pub closed spec fn inv(&self) -> bool {
        &&& self.next_id() >= 1
        &&& forall|i: int| 0 <= i < self@.len() ==> 0 <= (#[trigger] self@[i]).id < self.next_id()
        &&& forall|i: int, j: int| 0 <= i < j < self@.len() ==> self@[i].id != self@[j].id
    }

    /// Open the store: an existing ledger is kept exactly as it is (the
    /// schema step changes nothing), an absent one starts empty.
    pub fn open(prior: Option<Ledger>) -> (r: Ledger)
        requires
            prior matches Some(l) ==> l.inv(),
        ensures
            r.inv(),
            prior matches Some(l) ==> r == l,
            prior is None ==> r@ == Seq::<EventV>::empty() && r.next_id() == 1,
    {
        match prior {
            Some(l) => l,
            None => {
                let r = Ledger { events: Vec::new(), next_id: 1 };
                proof {
                    assert(r@ =~= Seq::<EventV>::empty());
                }
                r
            },
        }
    }

    /// Insert one row with a fresh store-assigned id. Fails (leaving the
    /// store unchanged) only when the id space is exhausted.
    pub fn add_event(&mut self, title: String, description: String, date: String) -> (r: Result<
        (),
        WsError,
    >)
        requires
            old(self).inv(),
        ensures
            final(self).inv(),
            r is Ok <==> old(self).next_id() < i64::MAX,
            r is Ok ==> final(self)@ == old(self)@.push(
                EventV { id: old(self).next_id(), title: title@, description: description@, date: date@ },
            ) && final(self).next_id() == old(self).next_id() + 1,
            r is Err ==> final(self)@ == old(self)@ && final(self).next_id() == old(
                self,
            ).next_id() && r->Err_0 is StoreError,
    {
        if self.next_id == i64::MAX {
            return Err(WsError::StoreError(String::from_str("id space exhausted")));
        }
        let e = Event { id: self.next_id, title, description, date };
        let ghost ev = e@;
        self.events.push(e);
        self.next_id = self.next_id + 1;
        proof {
            let od = old(self)@;
            assert forall|q: int| 0 <= q < od.len() implies self@[q] == od[q] by {
                assert(self.events@[q] == old(self).events@[q]);
            }
            assert(self@[od.len() as int] == ev);
            assert(self@ =~= od.push(ev));
            assert forall|q: int| 0 <= q < self@.len() implies 0 <= (#[trigger] self@[q]).id
                < self.next_id() by {
                if q < od.len() {
                    assert(self@[q] == od[q]);
                }
            }
            assert forall|q1: int, q2: int| 0 <= q1 < q2 < self@.len() implies self@[q1].id
                != self@[q2].id by {
                if q2 < od.len() {
                } else {
                    assert(self@[q2] == ev);
                    assert(self@[q1] == od[q1]);
                }
            }
        }
        Ok(())
    }

    /// All rows with exactly this date key, in store order; empty when there
    /// are none.
    pub fn get_events(&self, date: &String) -> (r: Vec<Event>)
        requires
            self.inv(),
        ensures
            r.deep_view() == self@.filter(|e: EventV| e.date == date@),
    {
        let ghost dv = date@;
        let ghost pred = |e: EventV| e.date == dv;
        let ghost s = self@;
        let mut out: Vec<Event> = Vec::new();
        let mut i: usize = 0;
        while i < self.events.len()
            invariant
                0 <= i <= self.events@.len(),
                s == self@,
                dv == date@,
                pred == (|e: EventV| e.date == dv),
                out.deep_view() == s.take(i as int).filter(pred),
            decreases self.events@.len() - i,
        {
            let ghost out0 = out.deep_view();
            let ghost outv0 = out@;
            proof {
                reveal(Seq::filter);
                assert(s.take(i + 1 as int).drop_last() =~= s.take(i as int));
                assert(s.take(i + 1 as int).last() == s[i as int]);
            }
            if self.events[i].date == *date {
                assert(pred(s[i as int]));
                let c = clone_event(&self.events[i]);
                out.push(c);
                proof {
                    assert forall|q: int| 0 <= q < out0.len() implies out.deep_view()[q] == out0[
                        q
                    ] by {
                        assert(out@[q] == outv0[q]);
                    }
                    assert(out.deep_view() =~= out0.push(s[i as int]));
                }
            } else {
                assert(!pred(s[i as int]));
            }
            i += 1;
        }
        proof {
            assert(s.take(s.len() as int) =~= s);
        }
        out
    }

    /// Delete the row with this id, if any; deleting an absent id succeeds
    /// and changes nothing, so the call always succeeds.
    pub fn delete_event(&mut self, id: i64) -> (r: Result<(), WsError>)
        requires
            old(self).inv(),
        ensures
            final(self).inv(),
            r is Ok,
            final(self)@ == old(self)@.filter(|e: EventV| e.id != id as int),
            final(self).next_id() == old(self).next_id(),
    {
        let ghost idv = id as int;
        let ghost pred = |e: EventV| e.id != idv;
        let ghost s = self@;
        let mut out: Vec<Event> = Vec::new();
        let mut i: usize = 0;
        while i < self.events.len()
            invariant
                0 <= i <= self.events@.len(),
                s == self@,
                idv == id as int,
                pred == (|e: EventV| e.id != idv),
                out.deep_view() == s.take(i as int).filter(pred),
            decreases self.events@.len() - i,
        {
            let ghost out0 = out.deep_view();
            let ghost outv0 = out@;
            proof {
                reveal(Seq::filter);
                assert(s.take(i + 1 as int).drop_last() =~= s.take(i as int));
                assert(s.take(i + 1 as int).last() == s[i as int]);
            }
            if self.events[i].id != id {
                assert(pred(s[i as int]));
                let c = clone_event(&self.events[i]);
                out.push(c);
                proof {
                    assert forall|q: int| 0 <= q < out0.len() implies out.deep_view()[q] == out0[
                        q
                    ] by {
                        assert(out@[q] == outv0[q]);
                    }
                    assert(out.deep_view() =~= out0.push(s[i as int]));
                }
            } else {
                assert(!pred(s[i as int]));
            }
            i += 1;
        }
        proof {
            assert(s.take(s.len() as int) =~= s);
            lemma_filter_events(s, pred);
            lemma_filter_events_distinct(s, pred);
            let f = s.filter(pred);
            assert forall|q: int| 0 <= q < f.len() implies 0 <= (#[trigger] f[q]).id
                < self.next_id() by {
                assert(s.contains(f[q]));
                let w = choose|w: int| 0 <= w < s.len() && s[w] == f[q];
            }
        }
        self.events = out;
        Ok(())
    }
}

/// Every element of a filtered event sequence comes from the unfiltered one and
/// satisfies the predicate.
proof fn lemma_filter_events(s: Seq<EventV>, pred: spec_fn(EventV) -> bool)
    ensures
        forall|j: int|
            0 <= j < s.filter(pred).len() ==> s.contains(#[trigger] s.filter(pred)[j]) && pred(
                s.filter(pred)[j],
            ),
    decreases s.len(),
{
    reveal(Seq::filter);
    if s.len() == 0 {
    } else {
        let dl = s.drop_last();
        lemma_filter_events(dl, pred);
        let f = s.filter(pred);
        let fdl = dl.filter(pred);
        assert(forall|j: int| 0 <= j < dl.len() && dl.contains(dl[j]) ==> s.contains(#[trigger] s[j]));
        assert forall|j: int| 0 <= j < f.len() implies s.contains(#[trigger] f[j]) && pred(f[j]) by {
            if j < fdl.len() {
                assert(f[j] == fdl[j]);
                assert(dl.contains(fdl[j]));
                let w = choose|w: int| 0 <= w < dl.len() && dl[w] == fdl[j];
                assert(s[w] == fdl[j]);
            } else {
                assert(pred(s.last()));
                assert(f[j] == s.last());
            }
        }
    }
}

/// A filter of rows with pairwise-distinct ids has pairwise-distinct ids.
proof fn lemma_filter_events_distinct(s: Seq<EventV>, pred: spec_fn(EventV) -> bool)
    requires
        forall|i: int, j: int| 0 <= i < j < s.len() ==> s[i].id != s[j].id,
    ensures
        forall|i: int, j: int|
            0 <= i < j < s.filter(pred).len() ==> s.filter(pred)[i].id != s.filter(pred)[j].id,
    decreases s.len(),
{
    reveal(Seq::filter);
    if s.len() == 0 {
    } else {
        let dl = s.drop_last();
        assert(forall|i: int| 0 <= i < dl.len() ==> dl[i] == s[i]);
        lemma_filter_events_distinct(dl, pred);
        lemma_filter_events(dl, pred);
        let f = s.filter(pred);
        let fdl = dl.filter(pred);
        assert forall|i: int, j: int| 0 <= i < j < f.len() implies f[i].id != f[j].id by {
            if j < fdl.len() {
                assert(f[i] == fdl[i] && f[j] == fdl[j]);
            } else {
                assert(pred(s.last()));
                assert(f[j] == s.last());
                assert(f[i] == fdl[i]);
                assert(dl.contains(fdl[i]));
                let w = choose|w: int| 0 <= w < dl.len() && dl[w] == fdl[i];
                assert(s[w] == fdl[i]);
                assert(s[w].id != s[s.len() - 1].id);
            }
        }
    }
}

/// After deleting an id, no query — whatever the date — returns a row with
/// that id: `remaining` is what a query for `date` returns once the id is
/// deleted from `events`.
pub proof fn lemma_delete_event_gone(
    events: Seq<EventV>,
    id: int,
    date: Seq<char>,
    remaining: Seq<EventV>,
)
    requires
        remaining == events.filter(|e: EventV| e.id != id).filter(|e: EventV| e.date == date),
    ensures
        forall|i: int| 0 <= i < remaining.len() ==> (#[trigger] remaining[i]).id != id,
{
    let p1 = |e: EventV| e.id != id;
    let p2 = |e: EventV| e.date == date;
    let f1 = events.filter(p1);
    let f2 = f1.filter(p2);
    lemma_filter_events(events, p1);
    lemma_filter_events(f1, p2);
    assert forall|i: int| 0 <= i < f2.len() implies (#[trigger] f2[i]).id != id by {
        assert(f1.contains(f2[i]));
        let w = choose|w: int| 0 <= w < f1.len() && f1[w] == f2[i];
        assert(p1(f1[w]));
    }
}

/// Deleting an id that no row carries changes nothing.
pub proof fn lemma_delete_event_noop(events: Seq<EventV>, id: int)
    requires
        forall|i: int| 0 <= i < events.len() ==> (#[trigger] events[i]).id != id,
    ensures
        events.filter(|e: EventV| e.id != id) == events,
    decreases events.len(),
{
    reveal(Seq::filter);
    let pred = |e: EventV| e.id != id;
    if events.len() == 0 {
        assert(events.filter(pred) =~= events);
    } else {
        let dl = events.drop_last();
        assert(forall|i: int| 0 <= i < dl.len() ==> (#[trigger] dl[i]).id != id);
        lemma_delete_event_noop(dl, id);
        assert(pred(events.last()));
        assert(events.filter(pred) =~= dl.filter(pred).push(events.last()));
        assert(dl.push(events.last()) =~= events);
    }
}

} // verus!
