//! The two operations that ask the tracker and bring its answer onto the
//! board in one go. The caller says what time it is; the tracker's answer
//! and everything written are stamped with that time.

use vstd::prelude::*;
use crate::flatten::{absorb, flattened};
use crate::jira::{lemma_flat_preorder, mock_tickets, JiraClient};
use crate::models::{text_views, AddToKanbanRequest, JiraQuery, QueryView, TicketView};
use crate::reconcile::{full_sync, import_tickets, imported, synced, ImportReport, SyncReport};
use crate::store::TaskStore;

verus! {

/// The query that asks the tracker for everything.
pub open spec fn whole_backlog() -> QueryView {
    QueryView { project: None, user: None, start_date: None, end_date: None, query_string: None }
}

/// The flat list of what the tracker answers to `query` at `now`.
pub open spec fn fetched_entries(query: QueryView, now: i64) -> Seq<TicketView> {
    absorb(Seq::empty(), mock_tickets(query, now))
}

/// Puts the tickets that `req` names on the board, out of everything the
/// tracker holds at `now`.
pub fn add_tasks_from_backlog(
    store: &mut TaskStore,
    jira: &JiraClient,
    req: &AddToKanbanRequest,
    now: i64,
) -> (r: ImportReport)
    requires
        old(store).wf(),
    ensures
        final(store).wf(),
        r.with(final(store)@) == imported(
            old(store)@,
            fetched_entries(whole_backlog(), now),
            text_views(req.ticket_keys@),
            req.include_subtasks,
            now,
        ),
{
    let everything = JiraQuery {
        project: None,
        user: None,
        start_date: None,
        end_date: None,
        query_string: None,
    };
    let fetched = jira.query_tickets(&everything, now);
    proof {
        lemma_flat_preorder(fetched@);
        assert(everything@ == whole_backlog());
        assert(flattened(fetched@) == fetched_entries(whole_backlog(), now));
    }
    import_tickets(store, &fetched, req, now)
}

/// Asks the tracker with `query` at `now` and brings the board up to date
/// with the answer. Tasks are flagged as deleted only in the project that
/// `query` names.
pub fn sync_backlog(store: &mut TaskStore, jira: &JiraClient, query: &JiraQuery, now: i64) -> (r:
    SyncReport)
    requires
        old(store).wf(),
    ensures
        final(store).wf(),
        r.with(final(store)@) == synced(
            old(store)@,
            fetched_entries(query@, now),
            query@.project,
            now,
        ),
{
    let fetched = jira.query_tickets(query, now);
    proof {
        lemma_flat_preorder(fetched@);
        assert(flattened(fetched@) == fetched_entries(query@, now));
    }
    full_sync(store, &fetched, &query.project, now)
}

} // verus!
