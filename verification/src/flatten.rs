//! From the tracker's forest of tickets to a flat list with one entry per key.
//!
//! The forest is walked parents first. A key that comes up again overwrites
//! the entry it already has, so the last ticket with a key wins and the entry
//! keeps the place of the first.

use vstd::prelude::*;
use crate::models::{ticket_views, JiraTicket, TicketView};

verus! {

// ---------------------------------------------------------------------------
// The mathematics
// ---------------------------------------------------------------------------

/// Whether one of the entries has `key`.
pub open spec fn has_entry(entries: Seq<TicketView>, key: Seq<char>) -> bool {
    exists|i: int| 0 <= i < entries.len() && (#[trigger] entries[i]).key == key
}

/// Where the entry for `key` stands, if there is one.
pub open spec fn entry_index(entries: Seq<TicketView>, key: Seq<char>) -> int {
    choose|i: int| 0 <= i < entries.len() && (#[trigger] entries[i]).key == key
}

/// No two entries share a key.
pub open spec fn distinct_keys(entries: Seq<TicketView>) -> bool {
    forall|i: int, j: int|
        0 <= i < j < entries.len() ==> (#[trigger] entries[i]).key != (#[trigger] entries[j]).key
}

/// The keys of the entries.
pub open spec fn key_set(entries: Seq<TicketView>) -> Set<Seq<char>> {
    Set::new(|k: Seq<char>| has_entry(entries, k))
}

/// The entries as a mapping from key to ticket.
pub open spec fn as_map(entries: Seq<TicketView>) -> Map<Seq<char>, TicketView> {
    Map::new(|k: Seq<char>| has_entry(entries, k), |k: Seq<char>| entries[entry_index(entries, k)])
}

/// The entries after `t` was written into them.
pub open spec fn absorb_one(entries: Seq<TicketView>, t: TicketView) -> Seq<TicketView> {
    if has_entry(entries, t.key) {
        entries.update(entry_index(entries, t.key), t)
    } else {
        entries.push(t)
    }
}

/// The entries after `records` were written into them, first to last.
pub open spec fn absorb(entries: Seq<TicketView>, records: Seq<TicketView>) -> Seq<TicketView>
    decreases records.len(),
{
    if records.len() == 0 {
        entries
    } else {
        absorb_one(absorb(entries, records.drop_last()), records.last())
    }
}

/// The first `n` trees of the forest, each ticket followed by all that is
/// nested under it.
pub open spec fn preorder_upto(forest: Seq<JiraTicket>, n: int) -> Seq<TicketView>
    decreases forest, n,
{
    if n <= 0 || n > forest.len() {
        Seq::empty()
    } else {
        preorder_upto(forest, n - 1) + seq![forest[n - 1]@] + preorder_upto(
            forest[n - 1].subtasks@,
            forest[n - 1].subtasks@.len() as int,
        )
    }
}

/// Every ticket of the forest, parents before what is nested under them.
pub open spec fn preorder(forest: Seq<JiraTicket>) -> Seq<TicketView> {
    preorder_upto(forest, forest.len() as int)
}

/// The forest as a flat list with one entry per key.
pub open spec fn flattened(forest: Seq<JiraTicket>) -> Seq<TicketView> {
    absorb(Seq::empty(), preorder(forest))
}

// ---------------------------------------------------------------------------
// Lemmas
// ---------------------------------------------------------------------------

/// Among entries with distinct keys, the entry at `i` is the one its key
/// leads to.
pub proof fn lemma_entry_index(entries: Seq<TicketView>, i: int)
    requires
        distinct_keys(entries),
        0 <= i < entries.len(),
    ensures
        has_entry(entries, entries[i].key),
        entry_index(entries, entries[i].key) == i,
{
    let j = entry_index(entries, entries[i].key);
    assert(0 <= j < entries.len() && entries[j].key == entries[i].key);
    if j < i {
        assert(entries[j].key != entries[i].key);
    } else if i < j {
        assert(entries[i].key != entries[j].key);
    }
}

/// Writing one ticket keeps keys distinct, keeps every key that was there,
/// and adds the ticket's own.
pub proof fn lemma_absorb_one(entries: Seq<TicketView>, t: TicketView)
    requires
        distinct_keys(entries),
    ensures
        distinct_keys(absorb_one(entries, t)),
        key_set(absorb_one(entries, t)) == key_set(entries).insert(t.key),
        as_map(absorb_one(entries, t)) == as_map(entries).insert(t.key, t),
{
    let r = absorb_one(entries, t);
    if has_entry(entries, t.key) {
        let i = entry_index(entries, t.key);
        assert forall|a: int, b: int| 0 <= a < b < r.len() implies (#[trigger] r[a]).key != (
        #[trigger] r[b]).key by {
            assert(entries[a].key != entries[b].key);
        }
        assert forall|k: Seq<char>| has_entry(r, k) <==> has_entry(entries, k) by {
            if has_entry(r, k) {
                let a = entry_index(r, k);
                assert(entries[a].key == k);
            }
            if has_entry(entries, k) {
                let a = entry_index(entries, k);
                assert(r[a].key == k);
            }
        }
        assert forall|k: Seq<char>| has_entry(r, k) implies #[trigger] as_map(r)[k] == as_map(
            entries,
        ).insert(t.key, t)[k] by {
            let a = entry_index(r, k);
            assert(entries[a].key == k);
            lemma_entry_index(entries, a);
        }
    } else {
        let n = entries.len() as int;
        assert forall|a: int, b: int| 0 <= a < b < r.len() implies (#[trigger] r[a]).key != (
        #[trigger] r[b]).key by {
            assert(r[a] == entries[a]);
            if b < n {
                assert(r[b] == entries[b]);
            }
        }
        assert(r[n].key == t.key);
        assert forall|k: Seq<char>| has_entry(r, k) <==> (has_entry(entries, k) || k == t.key) by {
            if has_entry(r, k) {
                let a = entry_index(r, k);
                if a < n {
                    assert(entries[a].key == k);
                }
            }
            if has_entry(entries, k) {
                let a = entry_index(entries, k);
                assert(r[a].key == k);
            }
        }
        assert forall|k: Seq<char>| has_entry(r, k) implies #[trigger] as_map(r)[k] == as_map(
            entries,
        ).insert(t.key, t)[k] by {
            let a = entry_index(r, k);
            lemma_entry_index(r, a);
            if a < n {
                assert(entries[a].key == k);
                lemma_entry_index(entries, a);
            }
        }
    }
    assert(key_set(r) =~= key_set(entries).insert(t.key));
    assert(as_map(r) =~= as_map(entries).insert(t.key, t));
}

/// Writing tickets keeps keys distinct, and the keys afterwards are those
/// that were there and those of the tickets.
pub proof fn lemma_absorb(entries: Seq<TicketView>, records: Seq<TicketView>)
    requires
        distinct_keys(entries),
    ensures
        distinct_keys(absorb(entries, records)),
        key_set(absorb(entries, records)) == key_set(entries).union(key_set(records)),
    decreases records.len(),
{
    if records.len() == 0 {
        assert(key_set(records) =~= Set::empty());
        assert(key_set(entries).union(key_set(records)) =~= key_set(entries));
    } else {
        let front = records.drop_last();
        let last = records.last();
        lemma_absorb(entries, front);
        lemma_absorb_one(absorb(entries, front), last);
        assert forall|k: Seq<char>| has_entry(records, k) <==> (has_entry(front, k) || k
            == last.key) by {
            if has_entry(records, k) {
                let a = entry_index(records, k);
                if a < front.len() {
                    assert(front[a].key == k);
                }
            }
            if has_entry(front, k) {
                let a = entry_index(front, k);
                assert(records[a].key == k);
            }
            assert(records[records.len() - 1] == last);
        }
        assert(key_set(absorb(entries, records)) =~= key_set(entries).union(key_set(records)));
    }
}

/// Writing two runs of tickets one after the other is writing them both.
pub proof fn lemma_absorb_concat(entries: Seq<TicketView>, a: Seq<TicketView>, b: Seq<TicketView>)
    ensures
        absorb(entries, a + b) == absorb(absorb(entries, a), b),
    decreases b.len(),
{
    if b.len() == 0 {
        assert(a + b =~= a);
    } else {
        lemma_absorb_concat(entries, a, b.drop_last());
        assert((a + b).drop_last() =~= a + b.drop_last());
        assert((a + b).last() == b.last());
    }
}

/// Tickets that already have distinct keys come out of the writing as they
/// went in.
pub proof fn lemma_absorb_distinct(records: Seq<TicketView>)
    requires
        distinct_keys(records),
    ensures
        absorb(Seq::empty(), records) == records,
    decreases records.len(),
{
    if records.len() > 0 {
        let front = records.drop_last();
        let last = records.last();
        assert forall|i: int, j: int| 0 <= i < j < front.len() implies (#[trigger] front[i]).key
            != (#[trigger] front[j]).key by {
            assert(records[i].key != records[j].key);
        }
        lemma_absorb_distinct(front);
        if has_entry(front, last.key) {
            let a = entry_index(front, last.key);
            assert(records[a].key != records[records.len() - 1].key);
        }
        assert(front.push(last) =~= records);
    }
}

/// The mapping in which each key has the last of the tickets that carry it.
pub open spec fn last_wins(records: Seq<TicketView>) -> Map<Seq<char>, TicketView>
    decreases records.len(),
{
    if records.len() == 0 {
        Map::empty()
    } else {
        last_wins(records.drop_last()).insert(records.last().key, records.last())
    }
}

proof fn lemma_absorb_last_wins(records: Seq<TicketView>)
    ensures
        distinct_keys(absorb(Seq::empty(), records)),
        as_map(absorb(Seq::empty(), records)) == last_wins(records),
    decreases records.len(),
{
    let none = Seq::<TicketView>::empty();
    if records.len() == 0 {
        assert(as_map(none) =~= Map::empty());
    } else {
        lemma_absorb_last_wins(records.drop_last());
        lemma_absorb_one(absorb(none, records.drop_last()), records.last());
    }
}

/// The flat list is the forest read as a mapping in which the last ticket
/// with a key wins: it holds one entry for each key that occurs in the
/// forest, at whatever depth, and none else.
pub proof fn law_flatten_is_a_mapping(forest: Seq<JiraTicket>)
    ensures
        distinct_keys(flattened(forest)),
        key_set(flattened(forest)) == key_set(preorder(forest)),
        as_map(flattened(forest)) == last_wins(preorder(forest)),
{
    let none = Seq::<TicketView>::empty();
    lemma_absorb_last_wins(preorder(forest));
    lemma_absorb(none, preorder(forest));
    assert(key_set(none) =~= Set::empty());
    assert(key_set(none).union(key_set(preorder(forest))) =~= key_set(preorder(forest)));
}

/// A forest in which no key occurs twice is flattened to its tickets as
/// they stand, parents before what is nested under them.
pub proof fn law_flatten_of_distinct_keys(forest: Seq<JiraTicket>)
    requires
        distinct_keys(preorder(forest)),
    ensures
        flattened(forest) == preorder(forest),
{
    lemma_absorb_distinct(preorder(forest));
}

// ---------------------------------------------------------------------------
// The flat list
// ---------------------------------------------------------------------------

/// Tickets by key: one entry per key, none with anything nested under it.
pub struct TicketMap {
    entries: Vec<JiraTicket>,
}

impl View for TicketMap {
    type V = Seq<TicketView>;

    closed spec fn view(&self) -> Seq<TicketView> {
        ticket_views(self.entries@)
    }
}

impl TicketMap {
    /// No entry has anything nested under it.
    pub closed spec fn bare(&self) -> bool {
        forall|i: int| 0 <= i < self.entries@.len() ==> (#[trigger] self.entries@[i]).subtasks@.len() == 0
    }

    /// No two entries share a key, and no entry has anything nested under
    /// it. This holds of every map that `new` or `flatten` made and `insert`
    /// has changed.
    pub open spec fn wf(&self) -> bool {
        distinct_keys(self@) && self.bare()
    }

    /// A map without entries.
    pub fn new() -> (r: TicketMap)
        ensures
            r.wf(),
            r@ == Seq::<TicketView>::empty(),
    {
        let r = TicketMap { entries: Vec::new() };
        assert(r@ =~= Seq::empty());
        r
    }

    /// How many entries the map holds.
    pub fn len(&self) -> (r: usize)
        ensures
            r == self@.len(),
    {
        self.entries.len()
    }

    /// The entry at place `i`: a ticket with nothing nested under it.
    pub fn entry(&self, i: usize) -> (r: &JiraTicket)
        requires
            self.wf(),
            i < self@.len(),
        ensures
            r@ == self@[i as int],
            r.subtasks@.len() == 0,
    {
        &self.entries[i]
    }

    /// Where the entry for `key` stands.
    pub fn position(&self, key: &String) -> (r: Option<usize>)
        requires
            self.wf(),
        ensures
            r is Some <==> has_entry(self@, key@),
            r matches Some(i) ==> i < self@.len() && i == entry_index(self@, key@) && self@[i as int].key
                == key@,
    {
        let mut i: usize = 0;
        while i < self.entries.len()
            invariant
                i <= self.entries@.len(),
                self.wf(),
                forall|j: int| 0 <= j < i ==> (#[trigger] self@[j]).key != key@,
            decreases self.entries@.len() - i,
        {
            if self.entries[i].key == *key {
                proof {
                    assert(self@[i as int].key == key@);
                    lemma_entry_index(self@, i as int);
                }
                return Some(i);
            }
            i += 1;
        }
        None
    }

    /// The ticket with `key`, if the map has one, with nothing nested under
    /// it.
    pub fn get(&self, key: &String) -> (r: Option<&JiraTicket>)
        requires
            self.wf(),
        ensures
            r is Some <==> has_entry(self@, key@),
            r matches Some(t) ==> t@ == as_map(self@)[key@] && t.subtasks@.len() == 0,
    {
        match self.position(key) {
            Some(i) => Some(&self.entries[i]),
            None => None,
        }
    }

    /// Writes `ticket` under its key, over the entry that key has if it has
    /// one. What is nested under `ticket` is left out.
    pub fn insert(&mut self, ticket: &JiraTicket)
        requires
            old(self).wf(),
        ensures
            final(self).wf(),
            final(self)@ == absorb_one(old(self)@, ticket@),
    {
        let entry = ticket.payload();
        proof {
            lemma_absorb_one(self@, ticket@);
        }
        match self.position(&ticket.key) {
            Some(i) => {
                self.entries[i] = entry;
                assert(final(self)@ =~= absorb_one(old(self)@, ticket@));
            },
            None => {
                self.entries.push(entry);
                assert(final(self)@ =~= absorb_one(old(self)@, ticket@));
            },
        }
    }
}

/// Writes every ticket of the forest into `map`, parents before what is
/// nested under them.
pub fn flatten_into(tickets: &Vec<JiraTicket>, map: &mut TicketMap)
    requires
        old(map).wf(),
    ensures
        final(map).wf(),
        final(map)@ == absorb(old(map)@, preorder(tickets@)),
    decreases tickets,
{
    let mut i: usize = 0;
    while i < tickets.len()
        invariant
            i <= tickets@.len(),
            map.wf(),
            map@ == absorb(old(map)@, preorder_upto(tickets@, i as int)),
        decreases tickets@.len() - i,
    {
        let ghost before = map@;
        let ghost done = preorder_upto(tickets@, i as int);
        let t = &tickets[i];
        map.insert(t);
        flatten_into(&t.subtasks, map);
        proof {
            let nested = preorder(t.subtasks@);
            assert(absorb(old(map)@, done + seq![t@]) == absorb_one(before, t@)) by {
                assert((done + seq![t@]).drop_last() =~= done);
                assert((done + seq![t@]).last() == t@);
            }
            lemma_absorb_concat(old(map)@, done + seq![t@], nested);
            assert(preorder_upto(tickets@, i + 1) == done + seq![t@] + nested);
        }
        i += 1;
    }
}

/// The forest as a flat list with one entry per key: every ticket of every
/// depth is in it, and of two tickets with one key the later one.
pub fn flatten(tickets: &Vec<JiraTicket>) -> (r: TicketMap)
    ensures
        r.wf(),
        r@ == flattened(tickets@),
{
    let mut map = TicketMap::new();
    flatten_into(tickets, &mut map);
    map
}

} // verus!
