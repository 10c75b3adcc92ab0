//! Bringing the tracker's tickets onto the board.
//!
//! `import_tickets` puts chosen tickets on the board, with the tickets that
//! name them as parent if asked. `full_sync` writes every ticket of a fetch
//! over the board and flags what the fetch no longer holds.

use vstd::prelude::*;
use crate::flatten::{entry_index, flatten, flattened, has_entry, key_set, TicketMap};
use crate::table::{ticket_as_new, StoreView};
use crate::models::{
    task_views, text_views, AddToKanbanRequest, JiraTicket, Task, TaskView, TicketView,
};
use crate::store::TaskStore;
use crate::text::{opt_is, opt_text};

verus! {

// ---------------------------------------------------------------------------
// Import: the mathematics
// ---------------------------------------------------------------------------

/// An import under way: the table, the tasks created so far, and the keys of
/// the tickets that could not be written.
pub struct ImportView {
    pub store: StoreView,
    pub created: Seq<TaskView>,
    pub failed: Seq<Seq<char>>,
}

/// The import after one ticket was brought in under `parent`. A ticket whose
/// key is on the board already changes nothing.
pub open spec fn import_record(st: ImportView, ticket: TicketView, parent: Option<i64>, now: i64)
    -> ImportView {
    let new = ticket_as_new(ticket, parent);
    if st.store.has_key(ticket.key) {
        st
    } else if st.store.can_create(new) {
        ImportView {
            store: st.store.with_created(new, now),
            created: st.created.push(st.store.created_row(new, now)),
            failed: st.failed,
        }
    } else {
        ImportView { failed: st.failed.push(ticket.key), ..st }
    }
}

/// The import after every entry that names `key` as its parent was brought
/// in under the task `parent`.
pub open spec fn import_children(
    st: ImportView,
    entries: Seq<TicketView>,
    key: Seq<char>,
    parent: i64,
    now: i64,
) -> ImportView
    decreases entries.len(),
{
    if entries.len() == 0 {
        st
    } else {
        let before = import_children(st, entries.drop_last(), key, parent, now);
        if entries.last().parent_key == Some(key) {
            import_record(before, entries.last(), Some(parent), now)
        } else {
            before
        }
    }
}

/// The import after the ticket `key` was asked for: nothing if the fetch
/// holds no such ticket; else the ticket itself, and with `include_subtasks`
/// the entries that name it as parent, under the task that stands for it.
pub open spec fn import_key(
    st: ImportView,
    entries: Seq<TicketView>,
    key: Seq<char>,
    include_subtasks: bool,
    now: i64,
) -> ImportView {
    if !has_entry(entries, key) {
        st
    } else {
        let own = import_record(st, entries[entry_index(entries, key)], None, now);
        if include_subtasks && own.store.has_key(key) {
            import_children(
                own,
                entries,
                key,
                own.store.tasks[own.store.index_of_key(key)].id,
                now,
            )
        } else {
            own
        }
    }
}

/// The import after each of `keys` was asked for, first to last.
pub open spec fn import_keys(
    st: ImportView,
    entries: Seq<TicketView>,
    keys: Seq<Seq<char>>,
    include_subtasks: bool,
    now: i64,
) -> ImportView
    decreases keys.len(),
{
    if keys.len() == 0 {
        st
    } else {
        import_key(
            import_keys(st, entries, keys.drop_last(), include_subtasks, now),
            entries,
            keys.last(),
            include_subtasks,
            now,
        )
    }
}

/// What an import of `keys` from `entries` at `now` makes of `store`.
pub open spec fn imported(
    store: StoreView,
    entries: Seq<TicketView>,
    keys: Seq<Seq<char>>,
    include_subtasks: bool,
    now: i64,
) -> ImportView {
    import_keys(
        ImportView { store: store, created: Seq::empty(), failed: Seq::empty() },
        entries,
        keys,
        include_subtasks,
        now,
    )
}

// ---------------------------------------------------------------------------
// Import: the code
// ---------------------------------------------------------------------------

/// What an import did: the tasks it created, in the order of their creation,
/// and the keys of the tickets it could not write. A ticket that was on the
/// board already is in neither.
#[derive(Debug)]
pub struct ImportReport {
    pub created: Vec<Task>,
    pub failed: Vec<String>,
}

impl ImportReport {
    /// The import that has led to `store` and this report.
    pub open spec fn with(&self, store: StoreView) -> ImportView {
        ImportView {
            store: store,
            created: task_views(self.created@),
            failed: text_views(self.failed@),
        }
    }
}

fn bring_in(
    store: &mut TaskStore,
    report: &mut ImportReport,
    ticket: &JiraTicket,
    parent: Option<i64>,
    now: i64,
)
    requires
        old(store).wf(),
    ensures
        final(store).wf(),
        final(report).with(final(store)@) == import_record(
            old(report).with(old(store)@),
            ticket@,
            parent,
            now,
        ),
{
    if store.id_of_ticket_key(&ticket.key).is_some() {
        return ;
    }
    match store.create_from_ticket(ticket, parent, now) {
        Some(task) => {
            report.created.push(task);
            assert(task_views(final(report).created@) =~= task_views(old(report).created@).push(
                task@,
            ));
        },
        None => {
            report.failed.push(ticket.key.clone());
            assert(text_views(final(report).failed@) =~= text_views(old(report).failed@).push(
                ticket.key@,
            ));
        },
    }
}

fn bring_in_children(
    store: &mut TaskStore,
    report: &mut ImportReport,
    map: &TicketMap,
    key: &String,
    parent: i64,
    now: i64,
)
    requires
        old(store).wf(),
        map.wf(),
    ensures
        final(store).wf(),
        final(report).with(final(store)@) == import_children(
            old(report).with(old(store)@),
            map@,
            key@,
            parent,
            now,
        ),
{
    let mut i: usize = 0;
    assert(map@.take(0) =~= Seq::empty());
    while i < map.len()
        invariant
            i <= map@.len(),
            map.wf(),
            store.wf(),
            report.with(store@) == import_children(
                old(report).with(old(store)@),
                map@.take(i as int),
                key@,
                parent,
                now,
            ),
        decreases map@.len() - i,
    {
        let t = map.entry(i);
        proof {
            assert(map@.take(i + 1).drop_last() =~= map@.take(i as int));
            assert(map@.take(i + 1).last() == map@[i as int]);
        }
        if opt_is(&t.parent_key, key) {
            bring_in(store, report, t, Some(parent), now);
        }
        i += 1;
    }
    assert(map@.take(map@.len() as int) =~= map@);
}

fn bring_in_key(
    store: &mut TaskStore,
    report: &mut ImportReport,
    map: &TicketMap,
    key: &String,
    include_subtasks: bool,
    now: i64,
)
    requires
        old(store).wf(),
        map.wf(),
    ensures
        final(store).wf(),
        final(report).with(final(store)@) == import_key(
            old(report).with(old(store)@),
            map@,
            key@,
            include_subtasks,
            now,
        ),
{
    match map.position(key) {
        None => {},
        Some(i) => {
            bring_in(store, report, map.entry(i), None, now);
            if include_subtasks {
                match store.id_of_ticket_key(key) {
                    Some(parent) => {
                        bring_in_children(store, report, map, key, parent, now);
                    },
                    None => {},
                }
            }
        },
    }
}

/// Puts the tickets that `req` names on the board, as far as `fetched` holds
/// them, and with `include_subtasks` also the tickets that name one of them
/// as parent, each under the task that stands for its parent.
///
/// A ticket that is on the board already is left alone and creates nothing,
/// so an import can be repeated. The report lists the tasks that were
/// created and the keys that could not be written.
pub fn import_tickets(
    store: &mut TaskStore,
    fetched: &Vec<JiraTicket>,
    req: &AddToKanbanRequest,
    now: i64,
) -> (r: ImportReport)
    requires
        old(store).wf(),
    ensures
        final(store).wf(),
        r.with(final(store)@) == imported(
            old(store)@,
            flattened(fetched@),
            text_views(req.ticket_keys@),
            req.include_subtasks,
            now,
        ),
{
    let map = flatten(fetched);
    let mut report = ImportReport { created: Vec::new(), failed: Vec::new() };
    assert(task_views(report.created@) =~= Seq::empty());
    assert(text_views(report.failed@) =~= Seq::empty());
    let ghost keys = text_views(req.ticket_keys@);
    let mut i: usize = 0;
    assert(keys.take(0) =~= Seq::empty());
    while i < req.ticket_keys.len()
        invariant
            i <= req.ticket_keys@.len(),
            keys == text_views(req.ticket_keys@),
            map.wf(),
            map@ == flattened(fetched@),
            store.wf(),
            report.with(store@) == imported(
                old(store)@,
                map@,
                keys.take(i as int),
                req.include_subtasks,
                now,
            ),
        decreases req.ticket_keys@.len() - i,
    {
        proof {
            assert(keys.take(i + 1).drop_last() =~= keys.take(i as int));
            assert(keys.take(i + 1).last() == req.ticket_keys@[i as int]@);
        }
        bring_in_key(store, &mut report, &map, &req.ticket_keys[i], req.include_subtasks, now);
        i += 1;
    }
    assert(keys.take(keys.len() as int) =~= keys);
    report
}

// ---------------------------------------------------------------------------
// Full sync: the mathematics
// ---------------------------------------------------------------------------

/// A sync under way: the table, and the keys of the tickets that could not
/// be written.
pub struct SyncView {
    pub store: StoreView,
    pub failed: Seq<Seq<char>>,
}

/// Whether `ticket` can be written into `store`: over the task that has its
/// key, or as a new task while an id is left.
pub open spec fn writable(store: StoreView, ticket: TicketView) -> bool {
    store.has_key(ticket.key) || store.next_task_id < i64::MAX
}

/// The sync after one ticket was written. A ticket that cannot be written is
/// noted and does not stop the sync.
pub open spec fn sync_record(st: SyncView, ticket: TicketView, now: i64) -> SyncView {
    SyncView {
        store: st.store.upserted(ticket, now),
        failed: if writable(st.store, ticket) {
            st.failed
        } else {
            st.failed.push(ticket.key)
        },
    }
}

/// The sync after every entry was written, first to last.
pub open spec fn sync_records(st: SyncView, entries: Seq<TicketView>, now: i64) -> SyncView
    decreases entries.len(),
{
    if entries.len() == 0 {
        st
    } else {
        sync_record(sync_records(st, entries.drop_last(), now), entries.last(), now)
    }
}

/// What a sync with `entries` at `now` makes of `store`: first every entry is
/// written; then, if the fetch was for one project, the tasks of that project
/// whose keys are not among the entries are flagged. A fetch for no project
/// in particular flags nothing.
pub open spec fn synced(
    store: StoreView,
    entries: Seq<TicketView>,
    project: Option<Seq<char>>,
    now: i64,
) -> SyncView {
    let written = sync_records(SyncView { store: store, failed: Seq::empty() }, entries, now);
    match project {
        Some(p) => SyncView { store: written.store.swept(p, key_set(entries), now), ..written },
        None => written,
    }
}

// ---------------------------------------------------------------------------
// Full sync: the code
// ---------------------------------------------------------------------------

/// What a sync could not do: the keys of the tickets it could not write.
#[derive(Debug)]
pub struct SyncReport {
    pub failed: Vec<String>,
}

impl SyncReport {
    /// The sync that has led to `store` and this report.
    pub open spec fn with(&self, store: StoreView) -> SyncView {
        SyncView { store: store, failed: text_views(self.failed@) }
    }
}

/// Brings the board up to date with a fetch from the tracker.
///
/// Every ticket of `fetched`, nested or not, is written into the table: over
/// the task that has its key, or as a new task. Only when all are written,
/// and only if `project` names one, the tasks of that project that came from
/// the tracker and are no longer in the fetch are flagged as deleted. Tasks
/// of other projects and tasks made by hand are never flagged.
pub fn full_sync(
    store: &mut TaskStore,
    fetched: &Vec<JiraTicket>,
    project: &Option<String>,
    now: i64,
) -> (r: SyncReport)
    requires
        old(store).wf(),
    ensures
        final(store).wf(),
        r.with(final(store)@) == synced(
            old(store)@,
            flattened(fetched@),
            opt_text(*project),
            now,
        ),
{
    let map = flatten(fetched);
    let mut report = SyncReport { failed: Vec::new() };
    assert(text_views(report.failed@) =~= Seq::empty());
    let ghost start = SyncView { store: old(store)@, failed: Seq::empty() };
    let mut i: usize = 0;
    assert(map@.take(0) =~= Seq::empty());
    while i < map.len()
        invariant
            i <= map@.len(),
            map.wf(),
            map@ == flattened(fetched@),
            start == (SyncView { store: old(store)@, failed: Seq::empty() }),
            store.wf(),
            report.with(store@) == sync_records(start, map@.take(i as int), now),
        decreases map@.len() - i,
    {
        let t = map.entry(i);
        proof {
            assert(map@.take(i + 1).drop_last() =~= map@.take(i as int));
            assert(map@.take(i + 1).last() == t@);
        }
        let ghost noted = text_views(report.failed@);
        if !store.upsert_ticket(t, now) {
            report.failed.push(t.key.clone());
            assert(text_views(report.failed@) =~= noted.push(t@.key));
        }
        i += 1;
    }
    assert(map@.take(map@.len() as int) =~= map@);
    match project {
        Some(p) => {
            store.mark_missing(p, &map, now);
        },
        None => {},
    }
    report
}

} // verus!
