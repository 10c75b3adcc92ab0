//! What an import does to the table, proved of the functions in `table` and
//! `reconcile`.

use vstd::prelude::*;
use crate::flatten::{
    distinct_keys, entry_index, flattened, has_entry, law_flatten_is_a_mapping, lemma_entry_index,
};
use crate::table::{lemma_index_of_key, lemma_with_created_wf, ticket_as_new, StoreView};
use crate::models::{JiraTicket, TaskView, TicketView};
use crate::reconcile::{
    import_children, import_key, import_keys, import_record, imported, ImportView,
};
use crate::status::pending;

verus! {

// ---------------------------------------------------------------------------
// Notions
// ---------------------------------------------------------------------------

/// No id is left to hand out.
pub open spec fn exhausted(s: StoreView) -> bool {
    s.next_task_id == i64::MAX
}

/// The ticket `key` is on the board, or it cannot be put there for want of
/// an id.
pub open spec fn landed(s: StoreView, key: Seq<char>) -> bool {
    s.has_key(key) || exhausted(s)
}

/// `b` is `a` with tasks added behind: what was there is unchanged.
pub open spec fn grown(a: StoreView, b: StoreView) -> bool {
    &&& b.wf()
    &&& a.tasks.len() <= b.tasks.len()
    &&& forall|j: int| 0 <= j < a.tasks.len() ==> #[trigger] b.tasks[j] == a.tasks[j]
    &&& b.comments == a.comments
    &&& b.next_comment_id == a.next_comment_id
    &&& a.next_task_id <= b.next_task_id
    &&& exhausted(a) ==> b == a
}

/// The created task `c` is a fresh copy of the entry with its key, and
/// stands under the right parent: under none, or under the task that stands
/// for the ticket that the entry names as its parent.
pub open spec fn linked(s: StoreView, entries: Seq<TicketView>, c: TaskView) -> bool {
    &&& c.jira_ticket_key is Some
    &&& has_entry(entries, c.jira_ticket_key->0)
    &&& c.status == pending()
    &&& c.stage is None
    &&& !c.is_deleted
    &&& ({
        let e = entries[entry_index(entries, c.jira_ticket_key->0)];
        &&& c.title == e.title
        &&& c.description == e.description
        &&& c.assignee == e.assignee
        &&& c.project_key == Some(e.project_key)
        &&& c.start_date == e.start_date
        &&& c.due_date == e.due_date
        &&& c.jira_url == e.jira_url
        &&& (c.parent_task_id matches Some(p) ==> {
            &&& e.parent_key is Some
            &&& s.has_key(e.parent_key->0)
            &&& s.tasks[s.index_of_key(e.parent_key->0)].id == p
        })
    })
}

/// How an import under way relates to the table `start` it began with: the
/// table is in order, the created tasks are exactly what was added behind,
/// each is linked, comments are untouched, and a key was noted only when no
/// id was left.
pub open spec fn importing(start: StoreView, st: ImportView, entries: Seq<TicketView>) -> bool {
    &&& grown(start, st.store)
    &&& st.store.tasks == start.tasks + st.created
    &&& st.failed.len() > 0 ==> exhausted(st.store)
    &&& forall|c: int| 0 <= c < st.created.len() ==> linked(st.store, entries, #[trigger] st.created[c])
}

/// Whether the parent an entry is brought in under is the right one: none,
/// or the task that stands for the ticket the entry names as its parent.
pub open spec fn right_parent(s: StoreView, ticket: TicketView, parent: Option<i64>) -> bool {
    parent matches Some(p) ==> {
        &&& ticket.parent_key is Some
        &&& s.has_key(ticket.parent_key->0)
        &&& s.tasks[s.index_of_key(ticket.parent_key->0)].id == p
    }
}

/// The import of `key` has come as far as it can in `s`: the ticket has
/// landed, and with `include_subtasks`, if it is on the board, so has every
/// entry that names it as parent.
pub open spec fn covered(s: StoreView, entries: Seq<TicketView>, key: Seq<char>, include_subtasks: bool)
    -> bool {
    has_entry(entries, key) ==> {
        &&& landed(s, key)
        &&& include_subtasks && s.has_key(key) ==> forall|m: int|
            0 <= m < entries.len() && (#[trigger] entries[m]).parent_key == Some(key) ==> landed(
                s,
                entries[m].key,
            )
    }
}

// ---------------------------------------------------------------------------
// Growth
// ---------------------------------------------------------------------------

proof fn lemma_grown_keeps(a: StoreView, b: StoreView)
    requires
        a.wf(),
        grown(a, b),
    ensures
        forall|k: Seq<char>| a.has_key(k) ==> b.has_key(k) && b.index_of_key(k) == a.index_of_key(k),
        forall|k: Seq<char>| landed(a, k) ==> landed(b, k),
        forall|id: i64| a.has_id(id) ==> b.has_id(id),
{
    assert forall|k: Seq<char>| a.has_key(k) implies b.has_key(k) && b.index_of_key(k)
        == a.index_of_key(k) by {
        let i = a.index_of_key(k);
        assert(b.tasks[i] == a.tasks[i]);
        lemma_index_of_key(b, i);
    }
    assert forall|id: i64| a.has_id(id) implies b.has_id(id) by {
        let i = a.index_of_id(id);
        assert(b.tasks[i] == a.tasks[i]);
    }
}

proof fn lemma_grown_trans(a: StoreView, b: StoreView, c: StoreView)
    requires
        grown(a, b),
        grown(b, c),
    ensures
        grown(a, c),
{
    assert forall|j: int| 0 <= j < a.tasks.len() implies #[trigger] c.tasks[j] == a.tasks[j] by {
        assert(b.tasks[j] == a.tasks[j]);
    }
}

proof fn lemma_linked_grown(a: StoreView, b: StoreView, entries: Seq<TicketView>, c: TaskView)
    requires
        a.wf(),
        grown(a, b),
        linked(a, entries, c),
    ensures
        linked(b, entries, c),
{
    lemma_grown_keeps(a, b);
}

proof fn lemma_covered_grown(
    a: StoreView,
    b: StoreView,
    entries: Seq<TicketView>,
    key: Seq<char>,
    include_subtasks: bool,
)
    requires
        a.wf(),
        grown(a, b),
        covered(a, entries, key, include_subtasks),
    ensures
        covered(b, entries, key, include_subtasks),
{
    lemma_grown_keeps(a, b);
}

// ---------------------------------------------------------------------------
// The first run
// ---------------------------------------------------------------------------

proof fn lemma_import_record(
    start: StoreView,
    st: ImportView,
    entries: Seq<TicketView>,
    m: int,
    parent: Option<i64>,
    now: i64,
)
    requires
        start.wf(),
        st.store.wf(),
        importing(start, st, entries),
        distinct_keys(entries),
        0 <= m < entries.len(),
        right_parent(st.store, entries[m], parent),
    ensures
        importing(start, import_record(st, entries[m], parent, now), entries),
        grown(st.store, import_record(st, entries[m], parent, now).store),
        landed(import_record(st, entries[m], parent, now).store, entries[m].key),
{
    let t = entries[m];
    let r = import_record(st, t, parent, now);
    let new = ticket_as_new(t, parent);
    if st.store.has_key(t.key) {
    } else {
        if let Some(p) = parent {
            let x = st.store.index_of_key(t.parent_key->0);
            assert(st.store.tasks[x].id == p);
        }
        if st.store.can_create(new) {
            let row = st.store.created_row(new, now);
            let n = st.store.tasks.len() as int;
            lemma_with_created_wf(st.store, new, now);
            assert(r.store.tasks =~= start.tasks + r.created);
            assert(r.store.tasks[n] == row);
            lemma_index_of_key(r.store, n);
            lemma_grown_trans(start, st.store, r.store);
            lemma_grown_keeps(st.store, r.store);
            lemma_entry_index(entries, m);
            assert forall|c: int| 0 <= c < r.created.len() implies linked(
                r.store,
                entries,
                #[trigger] r.created[c],
            ) by {
                if c < st.created.len() {
                    assert(r.created[c] == st.created[c]);
                    lemma_linked_grown(st.store, r.store, entries, st.created[c]);
                } else {
                    assert(r.created[c] == row);
                }
            }
        } else {
            assert(exhausted(st.store));
        }
    }
}

proof fn lemma_import_children(
    start: StoreView,
    st: ImportView,
    entries: Seq<TicketView>,
    n: int,
    key: Seq<char>,
    parent: i64,
    now: i64,
)
    requires
        start.wf(),
        st.store.wf(),
        importing(start, st, entries),
        distinct_keys(entries),
        0 <= n <= entries.len(),
        st.store.has_key(key),
        st.store.tasks[st.store.index_of_key(key)].id == parent,
    ensures
        importing(start, import_children(st, entries.take(n), key, parent, now), entries),
        grown(st.store, import_children(st, entries.take(n), key, parent, now).store),
        forall|m: int|
            0 <= m < n && (#[trigger] entries[m]).parent_key == Some(key) ==> landed(
                import_children(st, entries.take(n), key, parent, now).store,
                entries[m].key,
            ),
    decreases n,
{
    if n > 0 {
        let front = entries.take(n - 1);
        let t = entries[n - 1];
        assert(entries.take(n).drop_last() =~= front);
        assert(entries.take(n).last() == t);
        lemma_import_children(start, st, entries, n - 1, key, parent, now);
        let before = import_children(st, front, key, parent, now);
        let r = import_children(st, entries.take(n), key, parent, now);
        lemma_grown_keeps(st.store, before.store);
        if t.parent_key == Some(key) {
            lemma_import_record(start, before, entries, n - 1, Some(parent), now);
            lemma_grown_trans(st.store, before.store, r.store);
            lemma_grown_keeps(before.store, r.store);
        }
    }
}

proof fn lemma_import_key(
    start: StoreView,
    st: ImportView,
    entries: Seq<TicketView>,
    key: Seq<char>,
    include_subtasks: bool,
    now: i64,
)
    requires
        start.wf(),
        st.store.wf(),
        importing(start, st, entries),
        distinct_keys(entries),
    ensures
        importing(start, import_key(st, entries, key, include_subtasks, now), entries),
        grown(st.store, import_key(st, entries, key, include_subtasks, now).store),
        covered(import_key(st, entries, key, include_subtasks, now).store, entries, key, include_subtasks),
{
    if has_entry(entries, key) {
        let m = entry_index(entries, key);
        lemma_import_record(start, st, entries, m, None, now);
        let own = import_record(st, entries[m], None, now);
        if include_subtasks && own.store.has_key(key) {
            let parent = own.store.tasks[own.store.index_of_key(key)].id;
            lemma_import_children(start, own, entries, entries.len() as int, key, parent, now);
            assert(entries.take(entries.len() as int) =~= entries);
            let r = import_children(own, entries, key, parent, now);
            lemma_grown_trans(st.store, own.store, r.store);
            lemma_grown_keeps(own.store, r.store);
        }
    }
}

proof fn lemma_import_keys(
    start: StoreView,
    st: ImportView,
    entries: Seq<TicketView>,
    keys: Seq<Seq<char>>,
    include_subtasks: bool,
    now: i64,
)
    requires
        start.wf(),
        st.store.wf(),
        importing(start, st, entries),
        distinct_keys(entries),
    ensures
        importing(start, import_keys(st, entries, keys, include_subtasks, now), entries),
        grown(st.store, import_keys(st, entries, keys, include_subtasks, now).store),
        forall|i: int|
            0 <= i < keys.len() ==> covered(
                import_keys(st, entries, keys, include_subtasks, now).store,
                entries,
                #[trigger] keys[i],
                include_subtasks,
            ),
    decreases keys.len(),
{
    if keys.len() > 0 {
        let front = keys.drop_last();
        lemma_import_keys(start, st, entries, front, include_subtasks, now);
        let before = import_keys(st, entries, front, include_subtasks, now);
        let r = import_keys(st, entries, keys, include_subtasks, now);
        lemma_import_key(start, before, entries, keys.last(), include_subtasks, now);
        lemma_grown_trans(st.store, before.store, r.store);
        assert forall|i: int| 0 <= i < keys.len() implies covered(
            r.store,
            entries,
            #[trigger] keys[i],
            include_subtasks,
        ) by {
            if i < front.len() {
                assert(keys[i] == front[i]);
                lemma_covered_grown(before.store, r.store, entries, front[i], include_subtasks);
            }
        }
    }
}

// ---------------------------------------------------------------------------
// Another run
// ---------------------------------------------------------------------------

proof fn lemma_again_children(
    st: ImportView,
    entries: Seq<TicketView>,
    n: int,
    key: Seq<char>,
    parent: i64,
    now: i64,
)
    requires
        0 <= n <= entries.len(),
        forall|m: int|
            0 <= m < entries.len() && (#[trigger] entries[m]).parent_key == Some(key) ==> landed(
                st.store,
                entries[m].key,
            ),
    ensures
        import_children(st, entries.take(n), key, parent, now).store == st.store,
        import_children(st, entries.take(n), key, parent, now).created == st.created,
    decreases n,
{
    if n > 0 {
        assert(entries.take(n).drop_last() =~= entries.take(n - 1));
        assert(entries.take(n).last() == entries[n - 1]);
        lemma_again_children(st, entries, n - 1, key, parent, now);
    }
}

proof fn lemma_again_keys(
    st: ImportView,
    entries: Seq<TicketView>,
    keys: Seq<Seq<char>>,
    include_subtasks: bool,
    now: i64,
)
    requires
        forall|i: int|
            0 <= i < keys.len() ==> covered(st.store, entries, #[trigger] keys[i], include_subtasks),
    ensures
        import_keys(st, entries, keys, include_subtasks, now).store == st.store,
        import_keys(st, entries, keys, include_subtasks, now).created == st.created,
    decreases keys.len(),
{
    if keys.len() > 0 {
        let front = keys.drop_last();
        let key = keys.last();
        assert forall|i: int| 0 <= i < front.len() implies covered(
            st.store,
            entries,
            #[trigger] front[i],
            include_subtasks,
        ) by {
            assert(keys[i] == front[i]);
        }
        lemma_again_keys(st, entries, front, include_subtasks, now);
        let before = import_keys(st, entries, front, include_subtasks, now);
        assert(covered(st.store, entries, keys[keys.len() - 1], include_subtasks));
        if has_entry(entries, key) {
            let own = import_record(before, entries[entry_index(entries, key)], None, now);
            assert(own.store == st.store && own.created == st.created);
            if include_subtasks && own.store.has_key(key) {
                let parent = own.store.tasks[own.store.index_of_key(key)].id;
                lemma_again_children(own, entries, entries.len() as int, key, parent, now);
                assert(entries.take(entries.len() as int) =~= entries);
            }
        }
    }
}

// ---------------------------------------------------------------------------
// Laws
// ---------------------------------------------------------------------------

/// An import only adds: the tasks it reports as created are exactly the
/// tasks it has put behind those that were there, which stay as they were,
/// and comments are untouched. Each created task is a fresh copy of the
/// entry with its key, and if it has a parent, that parent is the task that
/// stands for the ticket which the entry names as its parent. Afterwards
/// every ticket that was asked for and that the fetch holds is on the board,
/// and with `include_subtasks` so is every entry that names it as parent,
/// unless no id is left; and a key is reported only when no id is left.
pub proof fn law_import_creates_linked_tasks(
    store: StoreView,
    entries: Seq<TicketView>,
    keys: Seq<Seq<char>>,
    include_subtasks: bool,
    now: i64,
)
    requires
        store.wf(),
        distinct_keys(entries),
    ensures
        ({
            let out = imported(store, entries, keys, include_subtasks, now);
            &&& out.store.wf()
            &&& out.store.tasks == store.tasks + out.created
            &&& out.store.comments == store.comments
            &&& forall|c: int|
                0 <= c < out.created.len() ==> linked(out.store, entries, #[trigger] out.created[c])
            &&& forall|i: int|
                0 <= i < keys.len() ==> covered(out.store, entries, #[trigger] keys[i], include_subtasks)
            &&& out.failed.len() > 0 ==> exhausted(out.store)
        }),
{
    let st = ImportView { store: store, created: Seq::empty(), failed: Seq::empty() };
    assert(store.tasks =~= store.tasks + st.created);
    lemma_import_keys(store, st, entries, keys, include_subtasks, now);
}

/// An import that is run again creates nothing and leaves the table as the
/// first run left it.
pub proof fn law_import_again_creates_nothing(
    store: StoreView,
    entries: Seq<TicketView>,
    keys: Seq<Seq<char>>,
    include_subtasks: bool,
    first: i64,
    second: i64,
)
    requires
        store.wf(),
        distinct_keys(entries),
    ensures
        ({
            let once = imported(store, entries, keys, include_subtasks, first);
            let twice = imported(once.store, entries, keys, include_subtasks, second);
            &&& twice.created.len() == 0
            &&& twice.store == once.store
        }),
{
    let st = ImportView { store: store, created: Seq::empty(), failed: Seq::empty() };
    assert(store.tasks =~= store.tasks + st.created);
    lemma_import_keys(store, st, entries, keys, include_subtasks, first);
    let once = imported(store, entries, keys, include_subtasks, first);
    let again = ImportView { store: once.store, created: Seq::empty(), failed: Seq::empty() };
    lemma_again_keys(again, entries, keys, include_subtasks, second);
}

/// The import of one ticket that the fetch holds and the board does not,
/// while an id is left, creates exactly one task; the import of a ticket
/// that is on the board creates none.
pub proof fn law_import_of_one_ticket(
    store: StoreView,
    entries: Seq<TicketView>,
    key: Seq<char>,
    now: i64,
)
    requires
        store.wf(),
        has_entry(entries, key),
    ensures
        !store.has_key(key) && !exhausted(store) ==> imported(
            store,
            entries,
            seq![key],
            false,
            now,
        ).created.len() == 1,
        store.has_key(key) ==> imported(store, entries, seq![key], false, now).created.len() == 0,
{
    let st = ImportView { store: store, created: Seq::empty(), failed: Seq::empty() };
    assert(seq![key].drop_last() =~= Seq::<Seq<char>>::empty());
    assert(seq![key].last() == key);
    assert(import_keys(st, entries, seq![key].drop_last(), false, now) == st);
    let m = entry_index(entries, key);
    assert(entries[m].key == key);
}

// ---------------------------------------------------------------------------
// Children get their parent
// ---------------------------------------------------------------------------

/// Every created task whose ticket was not asked for by its own key has a
/// parent.
pub open spec fn hung(created: Seq<TaskView>, asked: Set<Seq<char>>) -> bool {
    forall|c: int|
        0 <= c < created.len() && (#[trigger] created[c]).jira_ticket_key is Some
            && !asked.contains(created[c].jira_ticket_key->0) ==> created[c].parent_task_id
            is Some
}

proof fn lemma_hung_record(
    st: ImportView,
    ticket: TicketView,
    parent: Option<i64>,
    now: i64,
    asked: Set<Seq<char>>,
)
    requires
        hung(st.created, asked),
        parent is None ==> asked.contains(ticket.key),
    ensures
        hung(import_record(st, ticket, parent, now).created, asked),
{
    let r = import_record(st, ticket, parent, now);
    assert forall|c: int|
        0 <= c < r.created.len() && (#[trigger] r.created[c]).jira_ticket_key is Some
            && !asked.contains(r.created[c].jira_ticket_key->0) implies r.created[c].parent_task_id
        is Some by {
        if c < st.created.len() {
            assert(r.created[c] == st.created[c]);
        }
    }
}

proof fn lemma_hung_children(
    st: ImportView,
    entries: Seq<TicketView>,
    key: Seq<char>,
    parent: i64,
    now: i64,
    asked: Set<Seq<char>>,
)
    requires
        hung(st.created, asked),
    ensures
        hung(import_children(st, entries, key, parent, now).created, asked),
    decreases entries.len(),
{
    if entries.len() > 0 {
        lemma_hung_children(st, entries.drop_last(), key, parent, now, asked);
        if entries.last().parent_key == Some(key) {
            lemma_hung_record(
                import_children(st, entries.drop_last(), key, parent, now),
                entries.last(),
                Some(parent),
                now,
                asked,
            );
        }
    }
}

proof fn lemma_hung_keys(
    st: ImportView,
    entries: Seq<TicketView>,
    keys: Seq<Seq<char>>,
    include_subtasks: bool,
    now: i64,
    asked: Set<Seq<char>>,
)
    requires
        hung(st.created, asked),
        forall|i: int| 0 <= i < keys.len() ==> asked.contains(#[trigger] keys[i]),
    ensures
        hung(import_keys(st, entries, keys, include_subtasks, now).created, asked),
    decreases keys.len(),
{
    if keys.len() > 0 {
        let front = keys.drop_last();
        let key = keys.last();
        assert forall|i: int| 0 <= i < front.len() implies asked.contains(#[trigger] front[i]) by {
            assert(keys[i] == front[i]);
        }
        assert(asked.contains(keys[keys.len() - 1]));
        lemma_hung_keys(st, entries, front, include_subtasks, now, asked);
        let before = import_keys(st, entries, front, include_subtasks, now);
        if has_entry(entries, key) {
            let e = entries[entry_index(entries, key)];
            lemma_hung_record(before, e, None, now, asked);
            let own = import_record(before, e, None, now);
            if include_subtasks && own.store.has_key(key) {
                let parent = own.store.tasks[own.store.index_of_key(key)].id;
                lemma_hung_children(own, entries, key, parent, now, asked);
            }
        }
    }
}

/// An import with sub-tasks puts every entry that names an imported ticket
/// as its parent under the task that stands for that ticket: if the entry
/// was not on the board and was not asked for by its own key, and an id is
/// left when the import is done, then the import has created exactly one
/// task for it, and that task's parent is the task of the ticket asked for.
pub proof fn law_import_hangs_children_under_their_parent(
    store: StoreView,
    entries: Seq<TicketView>,
    keys: Seq<Seq<char>>,
    now: i64,
    key: Seq<char>,
    m: int,
)
    requires
        store.wf(),
        distinct_keys(entries),
        keys.contains(key),
        has_entry(entries, key),
        0 <= m < entries.len(),
        entries[m].parent_key == Some(key),
        !keys.contains(entries[m].key),
        !store.has_key(entries[m].key),
        !exhausted(imported(store, entries, keys, true, now).store),
    ensures
        ({
            let out = imported(store, entries, keys, true, now);
            let child = entries[m].key;
            &&& out.store.has_key(key)
            &&& out.store.has_key(child)
            &&& out.store.tasks[out.store.index_of_key(child)].parent_task_id == Some(
                out.store.tasks[out.store.index_of_key(key)].id,
            )
            &&& exists|c: int|
                0 <= c < out.created.len() && #[trigger] out.created[c]
                    == out.store.tasks[out.store.index_of_key(child)]
            &&& forall|a: int, b: int|
                0 <= a < out.created.len() && 0 <= b < out.created.len() && (
                #[trigger] out.created[a]).jira_ticket_key == Some(child) && (
                #[trigger] out.created[b]).jira_ticket_key == Some(child) ==> a == b
        }),
{
    let st = ImportView { store: store, created: Seq::empty(), failed: Seq::empty() };
    let asked = Set::new(|k: Seq<char>| keys.contains(k));
    let out = imported(store, entries, keys, true, now);
    let child = entries[m].key;
    let n = store.tasks.len() as int;
    assert(store.tasks =~= store.tasks + st.created);
    lemma_import_keys(store, st, entries, keys, true, now);
    lemma_hung_keys(st, entries, keys, true, now, asked);
    let i = choose|i: int| 0 <= i < keys.len() && keys[i] == key;
    assert(covered(out.store, entries, keys[i], true));
    assert(out.store.has_key(key));
    assert(landed(out.store, entries[m].key));
    let x = out.store.index_of_key(child);
    assert(0 <= x < out.store.tasks.len() && out.store.tasks[x].jira_ticket_key == Some(child));
    if x < n {
        assert(out.store.tasks[x] == store.tasks[x]);
    }
    let c = x - n;
    assert(out.created[c] == out.store.tasks[x]);
    assert(linked(out.store, entries, out.created[c]));
    lemma_entry_index(entries, m);
    assert(!asked.contains(child));
    assert forall|a: int, b: int|
        0 <= a < out.created.len() && 0 <= b < out.created.len() && (
        #[trigger] out.created[a]).jira_ticket_key == Some(child) && (
        #[trigger] out.created[b]).jira_ticket_key == Some(child) implies a == b by {
        assert(out.store.tasks[n + a] == out.created[a]);
        assert(out.store.tasks[n + b] == out.created[b]);
    }
}

// ---------------------------------------------------------------------------
// The laws, of a fetch as the tracker hands it over
// ---------------------------------------------------------------------------

/// Importing from the same fetch twice never creates a task twice: the
/// second import creates nothing and leaves the table as the first left it.
pub proof fn law_import_twice_from_a_fetch(
    store: StoreView,
    fetched: Seq<JiraTicket>,
    keys: Seq<Seq<char>>,
    include_subtasks: bool,
    first: i64,
    second: i64,
)
    requires
        store.wf(),
    ensures
        ({
            let once = imported(store, flattened(fetched), keys, include_subtasks, first);
            let twice = imported(once.store, flattened(fetched), keys, include_subtasks, second);
            &&& twice.created.len() == 0
            &&& twice.store == once.store
        }),
{
    law_flatten_is_a_mapping(fetched);
    law_import_again_creates_nothing(
        store,
        flattened(fetched),
        keys,
        include_subtasks,
        first,
        second,
    );
}

/// Every task that an import from a fetch creates with a parent has as its
/// parent the task that stands for the ticket which its own ticket names as
/// parent; and what was on the board before is untouched.
pub proof fn law_import_links_children(
    store: StoreView,
    fetched: Seq<JiraTicket>,
    keys: Seq<Seq<char>>,
    include_subtasks: bool,
    now: i64,
)
    requires
        store.wf(),
    ensures
        ({
            let out = imported(store, flattened(fetched), keys, include_subtasks, now);
            &&& out.store.wf()
            &&& out.store.tasks == store.tasks + out.created
            &&& forall|c: int|
                0 <= c < out.created.len() ==> linked(
                    out.store,
                    flattened(fetched),
                    #[trigger] out.created[c],
                )
        }),
{
    law_flatten_is_a_mapping(fetched);
    law_import_creates_linked_tasks(store, flattened(fetched), keys, include_subtasks, now);
}

/// An import with sub-tasks from a fetch puts every ticket of the fetch
/// that names an imported ticket as its parent under the task that stands
/// for that ticket: if the ticket was not on the board and was not asked for
/// by its own key, and an id is left when the import is done, then its task
/// is there and has the task of the ticket asked for as its parent.
pub proof fn law_import_from_a_fetch_hangs_children(
    store: StoreView,
    fetched: Seq<JiraTicket>,
    keys: Seq<Seq<char>>,
    now: i64,
    key: Seq<char>,
    m: int,
)
    requires
        store.wf(),
        keys.contains(key),
        has_entry(flattened(fetched), key),
        0 <= m < flattened(fetched).len(),
        flattened(fetched)[m].parent_key == Some(key),
        !keys.contains(flattened(fetched)[m].key),
        !store.has_key(flattened(fetched)[m].key),
        !exhausted(imported(store, flattened(fetched), keys, true, now).store),
    ensures
        ({
            let out = imported(store, flattened(fetched), keys, true, now);
            let child = flattened(fetched)[m].key;
            &&& out.store.has_key(key)
            &&& out.store.has_key(child)
            &&& out.store.tasks[out.store.index_of_key(child)].parent_task_id == Some(
                out.store.tasks[out.store.index_of_key(key)].id,
            )
        }),
{
    law_flatten_is_a_mapping(fetched);
    law_import_hangs_children_under_their_parent(store, flattened(fetched), keys, now, key, m);
}

} // verus!
