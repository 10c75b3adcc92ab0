//! What a full sync does to the table, proved of the functions in `table`
//! and `reconcile`.

use vstd::prelude::*;
use crate::flatten::{
    distinct_keys, entry_index, flattened, has_entry, key_set, law_flatten_is_a_mapping, preorder,
};
use crate::table::{
    lemma_index_of_key, lemma_swept_wf, lemma_upserted_wf, swept_row, vanished, StoreView,
};
use crate::models::{JiraTicket, TaskView, TicketView};
use crate::reconcile::{sync_records, synced, SyncView};

verus! {

// ---------------------------------------------------------------------------
// Notions
// ---------------------------------------------------------------------------

/// `row` shows what the tracker says in `ticket`, and counts as present.
pub open spec fn carries(row: TaskView, ticket: TicketView) -> bool {
    &&& row.jira_ticket_key == Some(ticket.key)
    &&& row.title == ticket.title
    &&& row.description == ticket.description
    &&& row.assignee == ticket.assignee
    &&& row.start_date == ticket.start_date
    &&& row.due_date == ticket.due_date
    &&& row.jira_url == ticket.jira_url
    &&& !row.is_deleted
}

/// `b` is the task `a` as far as the board owns it: the same id, tracker
/// key, project, parent and creation stamp, the same status, stage, alias,
/// tags and keywords, and no earlier a stamp of its last change.
pub open spec fn same_own(a: TaskView, b: TaskView) -> bool {
    &&& b.id == a.id
    &&& b.jira_ticket_key == a.jira_ticket_key
    &&& b.project_key == a.project_key
    &&& b.parent_task_id == a.parent_task_id
    &&& b.created_at == a.created_at
    &&& b.status == a.status
    &&& b.stage == a.stage
    &&& b.alias == a.alias
    &&& b.tags == a.tags
    &&& b.keywords == a.keywords
    &&& b.updated_at >= a.updated_at
}

/// Whether the tracker's key of `t` is among `keys`.
pub open spec fn keyed_in(t: TaskView, keys: Set<Seq<char>>) -> bool {
    t.jira_ticket_key is Some && keys.contains(t.jira_ticket_key->0)
}

/// The table has taken `ticket` in as far as it can: the task with its key
/// carries it, or there is no such task and no id is left to make one.
pub open spec fn settled(s: StoreView, ticket: TicketView) -> bool {
    if s.has_key(ticket.key) {
        carries(s.tasks[s.index_of_key(ticket.key)], ticket)
    } else {
        s.next_task_id == i64::MAX
    }
}

/// How the table `b` that a sync has written `done` into relates to the
/// table `a` it started from.
pub open spec fn written(a: StoreView, b: StoreView, done: Seq<TicketView>) -> bool {
    &&& b.wf()
    &&& a.tasks.len() <= b.tasks.len()
    &&& b.comments == a.comments
    &&& b.next_comment_id == a.next_comment_id
    &&& forall|j: int| 0 <= j < a.tasks.len() ==> same_own(a.tasks[j], #[trigger] b.tasks[j])
    &&& forall|j: int|
        0 <= j < a.tasks.len() && !keyed_in(a.tasks[j], key_set(done)) ==> #[trigger] b.tasks[j]
            == a.tasks[j]
    &&& forall|j: int|
        a.tasks.len() <= j < b.tasks.len() ==> keyed_in(#[trigger] b.tasks[j], key_set(done))
    &&& forall|j: int|
        0 <= j < b.tasks.len() && keyed_in(#[trigger] b.tasks[j], key_set(done))
            ==> !b.tasks[j].is_deleted
    &&& forall|m: int| 0 <= m < done.len() ==> settled(b, #[trigger] done[m])
}

/// The two tables hold the same rows but for the stamps of their last
/// change, the same comments, and hand out the same ids next.
pub open spec fn same_rows(a: StoreView, b: StoreView) -> bool {
    &&& a.tasks.len() == b.tasks.len()
    &&& forall|j: int|
        0 <= j < a.tasks.len() ==> (TaskView { updated_at: 0, ..a.tasks[j] }) == (TaskView {
            updated_at: 0,
            ..#[trigger] b.tasks[j]
        })
    &&& a.comments == b.comments
    &&& a.next_task_id == b.next_task_id
    &&& a.next_comment_id == b.next_comment_id
}

/// A sync that starts from `store` and has noted nothing yet.
pub open spec fn fresh(store: StoreView) -> SyncView {
    SyncView { store: store, failed: Seq::empty() }
}

// ---------------------------------------------------------------------------
// Steps
// ---------------------------------------------------------------------------

proof fn lemma_key_set_push(done: Seq<TicketView>, t: TicketView)
    ensures
        key_set(done.push(t)) == key_set(done).insert(t.key),
{
    let more = done.push(t);
    assert forall|k: Seq<char>| has_entry(more, k) <==> (has_entry(done, k) || k == t.key) by {
        if has_entry(more, k) {
            let a = entry_index(more, k);
            if a < done.len() {
                assert(done[a].key == k);
            }
        }
        if has_entry(done, k) {
            let a = entry_index(done, k);
            assert(more[a].key == k);
        }
        assert(more[done.len() as int] == t);
    }
    assert(key_set(more) =~= key_set(done).insert(t.key));
}

proof fn lemma_written_step(a: StoreView, b: StoreView, done: Seq<TicketView>, t: TicketView, now: i64)
    requires
        a.wf(),
        written(a, b, done),
        distinct_keys(done.push(t)),
    ensures
        written(a, b.upserted(t, now), done.push(t)),
{
    let c = b.upserted(t, now);
    let more = done.push(t);
    let keys = key_set(done);
    let keys2 = key_set(more);
    lemma_key_set_push(done, t);
    lemma_upserted_wf(b, t, now);
    assert(!keys.contains(t.key)) by {
        if has_entry(done, t.key) {
            let m = entry_index(done, t.key);
            assert(more[m].key != more[done.len() as int].key);
        }
    }
    if b.has_key(t.key) {
        let i = b.index_of_key(t.key);
        assert(0 <= i < b.tasks.len() && b.tasks[i].jira_ticket_key == Some(t.key));
        assert(b.task_ok(b.tasks[i]));
        assert forall|j: int| 0 <= j < a.tasks.len() implies same_own(
            a.tasks[j],
            #[trigger] c.tasks[j],
        ) by {
            assert(same_own(a.tasks[j], b.tasks[j]));
        }
        assert forall|j: int|
            0 <= j < a.tasks.len() && !keyed_in(a.tasks[j], keys2) implies #[trigger] c.tasks[j]
            == a.tasks[j] by {
            assert(same_own(a.tasks[j], b.tasks[j]));
            assert(b.tasks[j] == a.tasks[j]);
        }
        assert forall|j: int| a.tasks.len() <= j < c.tasks.len() implies keyed_in(
            #[trigger] c.tasks[j],
            keys2,
        ) by {
            assert(keyed_in(b.tasks[j], keys));
        }
        assert forall|j: int|
            0 <= j < c.tasks.len() && keyed_in(#[trigger] c.tasks[j], keys2) implies !c.tasks[j].is_deleted by {
            if j != i {
                assert(c.tasks[j] == b.tasks[j]);
                if b.tasks[j].jira_ticket_key == Some(t.key) {
                    lemma_index_of_key(b, j);
                }
                assert(keyed_in(b.tasks[j], keys));
            }
        }
        assert forall|m: int| 0 <= m < more.len() implies settled(c, #[trigger] more[m]) by {
            if m < done.len() {
                let e = done[m];
                assert(more[m] == e);
                assert(e.key != t.key) by {
                    assert(more[m].key != more[done.len() as int].key);
                }
                assert(settled(b, e));
                if b.has_key(e.key) {
                    let x = b.index_of_key(e.key);
                    assert(x != i);
                    assert(c.tasks[x] == b.tasks[x]);
                    lemma_index_of_key(c, x);
                } else {
                    if c.has_key(e.key) {
                        let x = c.index_of_key(e.key);
                        assert(b.tasks[x].jira_ticket_key == Some(e.key));
                    }
                }
            } else {
                assert(more[m] == t);
                assert(c.tasks[i].jira_ticket_key == Some(t.key));
                lemma_index_of_key(c, i);
            }
        }
    } else if b.next_task_id < i64::MAX {
        let n = b.tasks.len() as int;
        assert(c.tasks[n].jira_ticket_key == Some(t.key));
        assert forall|j: int| 0 <= j < a.tasks.len() implies same_own(
            a.tasks[j],
            #[trigger] c.tasks[j],
        ) by {
            assert(c.tasks[j] == b.tasks[j]);
            assert(same_own(a.tasks[j], b.tasks[j]));
        }
        assert forall|j: int|
            0 <= j < a.tasks.len() && !keyed_in(a.tasks[j], keys2) implies #[trigger] c.tasks[j]
            == a.tasks[j] by {
            assert(c.tasks[j] == b.tasks[j]);
        }
        assert forall|j: int| a.tasks.len() <= j < c.tasks.len() implies keyed_in(
            #[trigger] c.tasks[j],
            keys2,
        ) by {
            if j < n {
                assert(c.tasks[j] == b.tasks[j]);
                assert(keyed_in(b.tasks[j], keys));
            }
        }
        assert forall|j: int|
            0 <= j < c.tasks.len() && keyed_in(#[trigger] c.tasks[j], keys2) implies !c.tasks[j].is_deleted by {
            if j < n {
                assert(c.tasks[j] == b.tasks[j]);
                assert(b.tasks[j].jira_ticket_key != Some(t.key));
                assert(keyed_in(b.tasks[j], keys));
            }
        }
        assert forall|m: int| 0 <= m < more.len() implies settled(c, #[trigger] more[m]) by {
            if m < done.len() {
                let e = done[m];
                assert(more[m] == e);
                assert(e.key != t.key) by {
                    assert(more[m].key != more[done.len() as int].key);
                }
                assert(settled(b, e));
                if b.has_key(e.key) {
                    let x = b.index_of_key(e.key);
                    assert(c.tasks[x] == b.tasks[x]);
                    lemma_index_of_key(c, x);
                } else {
                    if c.has_key(e.key) {
                        let x = c.index_of_key(e.key);
                        if x < n {
                            assert(b.tasks[x].jira_ticket_key == Some(e.key));
                        }
                    }
                }
            } else {
                assert(more[m] == t);
                lemma_index_of_key(c, n);
            }
        }
    } else {
        assert(c == b);
        assert forall|j: int|
            0 <= j < a.tasks.len() && !keyed_in(a.tasks[j], keys2) implies #[trigger] c.tasks[j]
            == a.tasks[j] by {}
        assert forall|j: int| a.tasks.len() <= j < c.tasks.len() implies keyed_in(
            #[trigger] c.tasks[j],
            keys2,
        ) by {
            assert(keyed_in(b.tasks[j], keys));
        }
        assert forall|j: int|
            0 <= j < c.tasks.len() && keyed_in(#[trigger] c.tasks[j], keys2) implies !c.tasks[j].is_deleted by {
            assert(b.tasks[j].jira_ticket_key != Some(t.key));
            assert(keyed_in(b.tasks[j], keys));
        }
        assert forall|m: int| 0 <= m < more.len() implies settled(c, #[trigger] more[m]) by {
            if m < done.len() {
                assert(more[m] == done[m]);
            } else {
                assert(more[m] == t);
            }
        }
    }
}

/// Writing entries with distinct keys into a table that is in order leaves
/// it as `written` says.
pub proof fn lemma_written(a: StoreView, entries: Seq<TicketView>, now: i64)
    requires
        a.wf(),
        distinct_keys(entries),
    ensures
        written(a, sync_records(fresh(a), entries, now).store, entries),
    decreases entries.len(),
{
    if entries.len() == 0 {
        assert(key_set(entries) =~= Set::empty());
    } else {
        let front = entries.drop_last();
        assert(front.push(entries.last()) =~= entries);
        assert forall|i: int, j: int| 0 <= i < j < front.len() implies (#[trigger] front[i]).key
            != (#[trigger] front[j]).key by {
            assert(entries[i].key != entries[j].key);
        }
        lemma_written(a, front, now);
        lemma_written_step(
            a,
            sync_records(fresh(a), front, now).store,
            front,
            entries.last(),
            now,
        );
    }
}

// ---------------------------------------------------------------------------
// Laws
// ---------------------------------------------------------------------------

/// Writing a ticket over the task that has its key changes what the tracker
/// owns and nothing else: the task takes title, description, assignee, dates
/// and address from the ticket, counts as present, and is stamped no earlier
/// than before; its id, creation stamp, status, stage, alias, tags, keywords,
/// project and parent stay, and so does every other task.
pub proof fn law_upsert_keeps_what_the_board_owns(s: StoreView, ticket: TicketView, now: i64)
    requires
        s.wf(),
        s.has_key(ticket.key),
    ensures
        ({
            let i = s.index_of_key(ticket.key);
            let r = s.upserted(ticket, now);
            &&& r.wf()
            &&& r.tasks.len() == s.tasks.len()
            &&& r.has_key(ticket.key) && r.index_of_key(ticket.key) == i
            &&& carries(r.tasks[i], ticket)
            &&& same_own(s.tasks[i], r.tasks[i])
            &&& r.tasks[i].updated_at == s.stamp(now)
            &&& forall|j: int| 0 <= j < s.tasks.len() && j != i ==> r.tasks[j] == s.tasks[j]
            &&& r.comments == s.comments
        }),
{
    let i = s.index_of_key(ticket.key);
    let r = s.upserted(ticket, now);
    lemma_upserted_wf(s, ticket, now);
    assert(s.task_ok(s.tasks[i]));
    lemma_index_of_key(r, i);
}

/// After a sync the table is in order and has taken every entry in as far
/// as it can.
proof fn lemma_synced_settles(
    store: StoreView,
    entries: Seq<TicketView>,
    project: Option<Seq<char>>,
    now: i64,
)
    requires
        store.wf(),
        distinct_keys(entries),
    ensures
        synced(store, entries, project, now).store.wf(),
        forall|m: int|
            0 <= m < entries.len() ==> settled(
                synced(store, entries, project, now).store,
                #[trigger] entries[m],
            ),
{
    let keys = key_set(entries);
    let w1 = sync_records(fresh(store), entries, now).store;
    let s1 = synced(store, entries, project, now).store;
    lemma_written(store, entries, now);
    if let Some(p) = project {
        lemma_swept_wf(w1, p, keys, now);
    }
    assert forall|m: int| 0 <= m < entries.len() implies settled(s1, #[trigger] entries[m]) by {
        let e = entries[m];
        assert(settled(w1, e));
        if let Some(p) = project {
            if w1.has_key(e.key) {
                let i = w1.index_of_key(e.key);
                assert(keys.contains(e.key));
                assert(keyed_in(w1.tasks[i], keys));
                assert(s1.tasks[i] == w1.tasks[i]);
                lemma_index_of_key(s1, i);
            } else {
                if s1.has_key(e.key) {
                    let i = s1.index_of_key(e.key);
                    assert(w1.tasks[i].jira_ticket_key == Some(e.key));
                }
            }
        }
    }
}

/// After a sync every ticket of the fetch is on the board as the tracker
/// reports it: the task with its key carries its title, description,
/// assignee, dates and address and counts as present. The one exception is a
/// ticket that has no task when no id is left. A key is reported only when
/// no id is left.
pub proof fn law_sync_takes_every_ticket_in(
    store: StoreView,
    entries: Seq<TicketView>,
    project: Option<Seq<char>>,
    now: i64,
)
    requires
        store.wf(),
        distinct_keys(entries),
    ensures
        forall|m: int|
            0 <= m < entries.len() ==> settled(
                synced(store, entries, project, now).store,
                #[trigger] entries[m],
            ),
        synced(store, entries, project, now).failed.len() > 0 ==> synced(
            store,
            entries,
            project,
            now,
        ).store.next_task_id == i64::MAX,
{
    lemma_synced_settles(store, entries, project, now);
    lemma_failed_without_ids(store, entries, now);
}

/// While entries are written, a key is noted only when no id is left, and
/// then none is left for the rest.
proof fn lemma_failed_without_ids(store: StoreView, entries: Seq<TicketView>, now: i64)
    requires
        store.wf(),
    ensures
        sync_records(fresh(store), entries, now).store.wf(),
        sync_records(fresh(store), entries, now).failed.len() > 0 ==> sync_records(
            fresh(store),
            entries,
            now,
        ).store.next_task_id == i64::MAX,
    decreases entries.len(),
{
    if entries.len() > 0 {
        lemma_failed_without_ids(store, entries.drop_last(), now);
        let before = sync_records(fresh(store), entries.drop_last(), now);
        lemma_upserted_wf(before.store, entries.last(), now);
        if before.store.has_key(entries.last().key) {
            let i = before.store.index_of_key(entries.last().key);
            assert(before.store.task_ok(before.store.tasks[i]));
        }
    }
}

/// After a sync of `project`, every task whose key the fetch holds counts as
/// present, whether it was flagged before or not; every task of the project
/// that came from the tracker and whose key the fetch does not hold is
/// flagged; and a task that was made by hand, or whose key the fetch does
/// not hold and that belongs to another project, is what it was before.
/// Every task that was there is still there, with what the board owns of it.
pub proof fn law_sync_flags_what_vanished(
    store: StoreView,
    entries: Seq<TicketView>,
    project: Seq<char>,
    now: i64,
)
    requires
        store.wf(),
        distinct_keys(entries),
    ensures
        ({
            let r = synced(store, entries, Some(project), now).store;
            let keys = key_set(entries);
            &&& r.wf()
            &&& store.tasks.len() <= r.tasks.len()
            &&& forall|j: int|
                0 <= j < r.tasks.len() && keyed_in(#[trigger] r.tasks[j], keys)
                    ==> !r.tasks[j].is_deleted
            &&& forall|j: int|
                0 <= j < r.tasks.len() && (#[trigger] r.tasks[j]).jira_ticket_key is Some
                    && !keyed_in(r.tasks[j], keys) && r.tasks[j].project_key == Some(project)
                    ==> r.tasks[j].is_deleted
            &&& forall|j: int|
                0 <= j < store.tasks.len() ==> same_own(store.tasks[j], #[trigger] r.tasks[j])
            &&& forall|j: int|
                0 <= j < store.tasks.len() && (store.tasks[j].jira_ticket_key is None || (!keyed_in(
                    store.tasks[j],
                    keys,
                ) && store.tasks[j].project_key != Some(project))) ==> #[trigger] r.tasks[j]
                    == store.tasks[j]
        }),
{
    lemma_synced_settles(store, entries, Some(project), now);
    let w = sync_records(fresh(store), entries, now).store;
    let r = synced(store, entries, Some(project), now).store;
    let keys = key_set(entries);
    lemma_written(store, entries, now);
    lemma_swept_wf(w, project, keys, now);
    assert(r == w.swept(project, keys, now));
    assert forall|j: int|
        0 <= j < r.tasks.len() && keyed_in(#[trigger] r.tasks[j], keys) implies !r.tasks[j].is_deleted by {
        assert(keyed_in(w.tasks[j], keys));
    }
    assert forall|j: int| 0 <= j < store.tasks.len() implies same_own(
        store.tasks[j],
        #[trigger] r.tasks[j],
    ) by {
        assert(same_own(store.tasks[j], w.tasks[j]));
        assert(w.task_ok(w.tasks[j]));
    }
    assert forall|j: int|
        0 <= j < store.tasks.len() && (store.tasks[j].jira_ticket_key is None || (!keyed_in(
            store.tasks[j],
            keys,
        ) && store.tasks[j].project_key != Some(project))) implies #[trigger] r.tasks[j]
        == store.tasks[j] by {
        assert(w.tasks[j] == store.tasks[j]);
    }
}

/// A fetch for no project in particular flags nothing: a task whose key the
/// fetch does not hold is what it was before.
pub proof fn law_sync_without_project_flags_nothing(
    store: StoreView,
    entries: Seq<TicketView>,
    now: i64,
)
    requires
        store.wf(),
        distinct_keys(entries),
    ensures
        ({
            let r = synced(store, entries, None, now).store;
            &&& r.wf()
            &&& forall|j: int|
                0 <= j < store.tasks.len() && !keyed_in(store.tasks[j], key_set(entries))
                    ==> #[trigger] r.tasks[j] == store.tasks[j]
        }),
{
    lemma_written(store, entries, now);
}

/// What a table that has taken the entries in makes of another round of
/// them: the same rows.
proof fn lemma_settled_round(x: StoreView, entries: Seq<TicketView>, n: int, now: i64)
    requires
        x.wf(),
        0 <= n <= entries.len(),
        forall|m: int| 0 <= m < entries.len() ==> settled(x, #[trigger] entries[m]),
    ensures
        same_rows(x, sync_records(fresh(x), entries.take(n), now).store),
        sync_records(fresh(x), entries.take(n), now).store.wf(),
    decreases n,
{
    if n > 0 {
        let t = entries[n - 1];
        let front = entries.take(n - 1);
        assert(entries.take(n).drop_last() =~= front);
        assert(entries.take(n).last() == t);
        lemma_settled_round(x, entries, n - 1, now);
        let y = sync_records(fresh(x), front, now).store;
        let z = y.upserted(t, now);
        lemma_upserted_wf(y, t, now);
        assert(settled(x, t));
        if x.has_key(t.key) {
            let i = x.index_of_key(t.key);
            assert(y.tasks[i].jira_ticket_key == Some(t.key));
            lemma_index_of_key(y, i);
            assert forall|j: int| 0 <= j < x.tasks.len() implies (TaskView {
                updated_at: 0,
                ..x.tasks[j]
            }) == (TaskView { updated_at: 0, ..#[trigger] z.tasks[j] }) by {
                assert((TaskView { updated_at: 0, ..x.tasks[j] }) == (TaskView {
                    updated_at: 0,
                    ..y.tasks[j]
                }));
            }
        } else {
            if y.has_key(t.key) {
                let i = y.index_of_key(t.key);
                assert((TaskView { updated_at: 0, ..x.tasks[i] }) == (TaskView {
                    updated_at: 0,
                    ..y.tasks[i]
                }));
                assert(x.tasks[i].jira_ticket_key == Some(t.key));
            }
            assert(z == y);
        }
    }
}

/// A second sync with the same fetch leaves the table as the first one left
/// it: the same rows with the same content and the same flags, none added
/// and none lost. Only the stamps of the last change may move on.
pub proof fn law_sync_is_idempotent(
    store: StoreView,
    entries: Seq<TicketView>,
    project: Option<Seq<char>>,
    first: i64,
    second: i64,
)
    requires
        store.wf(),
        distinct_keys(entries),
    ensures
        same_rows(
            synced(store, entries, project, first).store,
            synced(synced(store, entries, project, first).store, entries, project, second).store,
        ),
{
    let keys = key_set(entries);
    let w1 = sync_records(fresh(store), entries, first).store;
    let s1 = synced(store, entries, project, first).store;
    // The first round has settled every entry, and the sweep has not undone it.
    lemma_synced_settles(store, entries, project, first);
    lemma_settled_round(s1, entries, entries.len() as int, second);
    assert(entries.take(entries.len() as int) =~= entries);
    let w2 = sync_records(fresh(s1), entries, second).store;
    let s2 = synced(s1, entries, project, second).store;
    if let Some(p) = project {
        assert forall|j: int| 0 <= j < s1.tasks.len() implies (TaskView {
            updated_at: 0,
            ..s1.tasks[j]
        }) == (TaskView { updated_at: 0, ..#[trigger] s2.tasks[j] }) by {
            assert((TaskView { updated_at: 0, ..s1.tasks[j] }) == (TaskView {
                updated_at: 0,
                ..w2.tasks[j]
            }));
            assert(s1.tasks[j] == swept_row(w1.tasks[j], p, keys, w1.stamp(first)));
            assert(!vanished(w2.tasks[j], p, keys));
        }
    }
}

/// Writing entries uses up at most one id for each of them.
proof fn lemma_ids_used(store: StoreView, entries: Seq<TicketView>, now: i64)
    requires
        store.wf(),
    ensures
        sync_records(fresh(store), entries, now).store.next_task_id <= store.next_task_id
            + entries.len(),
    decreases entries.len(),
{
    if entries.len() > 0 {
        lemma_ids_used(store, entries.drop_last(), now);
    }
}

// ---------------------------------------------------------------------------
// The laws, of a fetch as the tracker hands it over
// ---------------------------------------------------------------------------

/// While ids are left for every ticket of the fetch, a full sync leaves
/// exactly one task for each key that occurs in the fetch, at whatever
/// depth, and reports nothing; and a second run with the same fetch adds no
/// task, removes none and keeps every id where it was.
pub proof fn law_full_sync_one_row_per_key(
    store: StoreView,
    fetched: Seq<JiraTicket>,
    project: Option<Seq<char>>,
    first: i64,
    second: i64,
)
    requires
        store.wf(),
        store.next_task_id + flattened(fetched).len() < i64::MAX,
    ensures
        ({
            let entries = flattened(fetched);
            let once = synced(store, entries, project, first);
            let twice = synced(once.store, entries, project, second);
            &&& once.failed.len() == 0
            &&& twice.failed.len() == 0
            &&& twice.store.tasks.len() == once.store.tasks.len()
            &&& forall|j: int|
                0 <= j < once.store.tasks.len() ==> (#[trigger] twice.store.tasks[j]).id
                    == once.store.tasks[j].id
            &&& forall|k: Seq<char>|
                key_set(preorder(fetched)).contains(k) ==> #[trigger] once.store.has_key(k)
                    && twice.store.has_key(k)
            &&& forall|i: int, j: int|
                0 <= i < twice.store.tasks.len() && 0 <= j < twice.store.tasks.len() && (
                #[trigger] twice.store.tasks[i]).jira_ticket_key is Some
                    && twice.store.tasks[i].jira_ticket_key == (
                #[trigger] twice.store.tasks[j]).jira_ticket_key ==> i == j
        }),
{
    let entries = flattened(fetched);
    let once = synced(store, entries, project, first);
    let twice = synced(once.store, entries, project, second);
    law_flatten_is_a_mapping(fetched);
    lemma_ids_used(store, entries, first);
    law_sync_takes_every_ticket_in(store, entries, project, first);
    lemma_synced_settles(store, entries, project, first);
    law_sync_is_idempotent(store, entries, project, first, second);
    law_sync_takes_every_ticket_in(once.store, entries, project, second);
    lemma_synced_settles(once.store, entries, project, second);
    assert forall|k: Seq<char>| key_set(preorder(fetched)).contains(k) implies #[trigger] once.store.has_key(
        k,
    ) && twice.store.has_key(k) by {
        assert(key_set(entries).contains(k));
        let m = entry_index(entries, k);
        assert(settled(once.store, entries[m]));
        let x = once.store.index_of_key(k);
        assert((TaskView { updated_at: 0, ..once.store.tasks[x] }) == (TaskView {
            updated_at: 0,
            ..twice.store.tasks[x]
        }));
        assert(twice.store.tasks[x].jira_ticket_key == Some(k));
    }
    assert forall|j: int| 0 <= j < once.store.tasks.len() implies (
    #[trigger] twice.store.tasks[j]).id == once.store.tasks[j].id by {
        assert((TaskView { updated_at: 0, ..once.store.tasks[j] }) == (TaskView {
            updated_at: 0,
            ..twice.store.tasks[j]
        }));
    }
}


/// Running a full sync twice with the same fetch leaves the table as the
/// first run left it, but for the stamps of the last change.
pub proof fn law_full_sync_is_idempotent(
    store: StoreView,
    fetched: Seq<JiraTicket>,
    project: Option<Seq<char>>,
    first: i64,
    second: i64,
)
    requires
        store.wf(),
    ensures
        same_rows(
            synced(store, flattened(fetched), project, first).store,
            synced(
                synced(store, flattened(fetched), project, first).store,
                flattened(fetched),
                project,
                second,
            ).store,
        ),
{
    law_flatten_is_a_mapping(fetched);
    law_sync_is_idempotent(store, flattened(fetched), project, first, second);
}

/// After a full sync of `project`, a task whose key the fetch holds counts
/// as present; a task of the project that came from the tracker and whose
/// key the fetch does not hold is flagged; and a task made by hand, or a task
/// of another project whose key the fetch does not hold, is what it was.
pub proof fn law_full_sync_flags_what_vanished(
    store: StoreView,
    fetched: Seq<JiraTicket>,
    project: Seq<char>,
    now: i64,
)
    requires
        store.wf(),
    ensures
        ({
            let r = synced(store, flattened(fetched), Some(project), now).store;
            let keys = key_set(flattened(fetched));
            &&& r.wf()
            &&& forall|j: int|
                0 <= j < r.tasks.len() && keyed_in(#[trigger] r.tasks[j], keys)
                    ==> !r.tasks[j].is_deleted
            &&& forall|j: int|
                0 <= j < r.tasks.len() && (#[trigger] r.tasks[j]).jira_ticket_key is Some
                    && !keyed_in(r.tasks[j], keys) && r.tasks[j].project_key == Some(project)
                    ==> r.tasks[j].is_deleted
            &&& forall|j: int|
                0 <= j < store.tasks.len() && (store.tasks[j].jira_ticket_key is None || (!keyed_in(
                    store.tasks[j],
                    keys,
                ) && store.tasks[j].project_key != Some(project))) ==> #[trigger] r.tasks[j]
                    == store.tasks[j]
        }),
{
    law_flatten_is_a_mapping(fetched);
    law_sync_flags_what_vanished(store, flattened(fetched), project, now);
}

} // verus!
