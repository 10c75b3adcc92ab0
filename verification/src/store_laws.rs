//! What holds of the table whatever was done to it, proved of the functions
//! in `table`.

use vstd::prelude::*;
use crate::table::{
    lemma_index_of_id, lemma_listing_len, lemma_listing_place, lemma_select_comments, lemma_with_comment_wf, lemma_with_patch_wf,
    lemma_with_status_wf, lemma_without_task_wf, listing, listing_place, lists_before,
    patched_opt, select_comments, StoreView,
};
use crate::models::{
    CommentRequestView, CommentView, TaskView, UpdateStatusView, UpdateTaskView,
};
use crate::status::{clears_stage, done, pending};

verus! {

// ---------------------------------------------------------------------------
// Status and stage
// ---------------------------------------------------------------------------

/// A task that is moved to `Done` has no stage afterwards, whatever stage it
/// had and whatever stage the move asked for. The same holds of a move back
/// to `Pending`.
pub proof fn law_done_clears_stage(s: StoreView, id: i64, change: UpdateStatusView, now: i64)
    requires
        s.wf(),
        s.has_id(id),
        change.status == done() || change.status == pending(),
    ensures
        ({
            let r = s.with_status(id, change, now);
            &&& r.has_id(id)
            &&& r.tasks[r.index_of_id(id)].status == change.status
            &&& r.tasks[r.index_of_id(id)].stage is None
        }),
{
    let r = s.with_status(id, change, now);
    let i = s.index_of_id(id);
    lemma_with_status_wf(s, id, change, now);
    assert(r.tasks[i].id == id);
    lemma_index_of_id(r, i);
}

/// A move to another status changes the status, the stage and the stamp of
/// the last change of one task, and nothing else; the stamp does not go
/// back.
pub proof fn law_status_move_touches_one_task(
    s: StoreView,
    id: i64,
    change: UpdateStatusView,
    now: i64,
)
    requires
        s.wf(),
        s.has_id(id),
    ensures
        ({
            let r = s.with_status(id, change, now);
            let i = s.index_of_id(id);
            &&& r.tasks.len() == s.tasks.len()
            &&& forall|j: int| 0 <= j < s.tasks.len() && j != i ==> r.tasks[j] == s.tasks[j]
            &&& r.tasks[i] == (TaskView {
                status: r.tasks[i].status,
                stage: r.tasks[i].stage,
                updated_at: r.tasks[i].updated_at,
                ..s.tasks[i]
            })
            &&& r.tasks[i].updated_at >= s.tasks[i].updated_at
            &&& r.comments == s.comments
        }),
{
    let i = s.index_of_id(id);
    assert(s.task_ok(s.tasks[i]));
}

/// A patch changes one task and nothing else. Of that task it keeps the id,
/// the tracker key, the project, the parent, the creation stamp and the flag,
/// and the stamp of the last change does not go back. A patch that names no
/// status leaves the status as it is and writes the stage it names, or keeps
/// the stage if it names none; a patch that moves the task to `Done` or
/// `Pending` leaves it without a stage.
pub proof fn law_patch_touches_one_task(s: StoreView, id: i64, patch: UpdateTaskView, now: i64)
    requires
        s.wf(),
        s.has_id(id),
    ensures
        ({
            let r = s.with_patch(id, patch, now);
            let i = s.index_of_id(id);
            &&& r.wf()
            &&& r.tasks.len() == s.tasks.len()
            &&& forall|j: int| 0 <= j < s.tasks.len() && j != i ==> r.tasks[j] == s.tasks[j]
            &&& r.tasks[i].id == s.tasks[i].id
            &&& r.tasks[i].jira_ticket_key == s.tasks[i].jira_ticket_key
            &&& r.tasks[i].project_key == s.tasks[i].project_key
            &&& r.tasks[i].parent_task_id == s.tasks[i].parent_task_id
            &&& r.tasks[i].created_at == s.tasks[i].created_at
            &&& r.tasks[i].is_deleted == s.tasks[i].is_deleted
            &&& r.tasks[i].updated_at >= s.tasks[i].updated_at
            &&& patch.status is None ==> r.tasks[i].status == s.tasks[i].status
                && r.tasks[i].stage == patched_opt(patch.stage, s.tasks[i].stage)
            &&& patch.status is Some && clears_stage(patch.status->0) ==> r.tasks[i].stage is None
            &&& r.comments == s.comments
        }),
{
    let i = s.index_of_id(id);
    lemma_with_patch_wf(s, id, patch, now);
    assert(s.task_ok(s.tasks[i]));
}

// ---------------------------------------------------------------------------
// Listing
// ---------------------------------------------------------------------------

/// Each task of the list stands before every task behind it.
pub open spec fn in_listing_order(list: Seq<TaskView>) -> bool {
    forall|i: int, j: int|
        0 <= i < j < list.len() ==> lists_before(#[trigger] list[i], #[trigger] list[j])
}

/// No two tasks of the list have the same id.
pub open spec fn distinct_ids(list: Seq<TaskView>) -> bool {
    forall|i: int, j: int|
        0 <= i < j < list.len() ==> (#[trigger] list[i]).id != (#[trigger] list[j]).id
}

proof fn lemma_listing(tasks: Seq<TaskView>)
    requires
        distinct_ids(tasks),
    ensures
        listing(tasks).len() == tasks.len(),
        in_listing_order(listing(tasks)),
        forall|i: int| 0 <= i < tasks.len() ==> listing(tasks).contains(#[trigger] tasks[i]),
        forall|j: int| 0 <= j < tasks.len() ==> tasks.contains(#[trigger] listing(tasks)[j]),
    decreases tasks.len(),
{
    lemma_listing_len(tasks);
    if tasks.len() > 0 {
        let front_in = tasks.drop_last();
        let t = tasks.last();
        let n = tasks.len() - 1;
        assert forall|i: int, j: int| 0 <= i < j < front_in.len() implies (
        #[trigger] front_in[i]).id != (#[trigger] front_in[j]).id by {
            assert(tasks[i].id != tasks[j].id);
        }
        lemma_listing(front_in);
        let front = listing(front_in);
        let p = listing_place(front, t);
        let out = listing(tasks);
        lemma_listing_place(front, t);
        assert(out == front.insert(p, t));
        // Every task of the front list is a task of the table other than `t`.
        assert forall|k: int| 0 <= k < front.len() implies (#[trigger] front[k]).id != t.id by {
            assert(front_in.contains(front[k]));
            let x = choose|x: int| 0 <= x < front_in.len() && front_in[x] == front[k];
            assert(tasks[x].id != tasks[n].id);
        }
        assert forall|i: int, j: int| 0 <= i < j < out.len() implies lists_before(
            #[trigger] out[i],
            #[trigger] out[j],
        ) by {
            if j < p {
                assert(out[i] == front[i] && out[j] == front[j]);
            } else if j == p {
                assert(out[i] == front[i]);
                if i < p - 1 {
                    assert(lists_before(front[i], front[p - 1]));
                }
            } else if i < p {
                assert(out[i] == front[i] && out[j] == front[j - 1]);
            } else if i == p {
                assert(out[j] == front[j - 1]);
                assert(!lists_before(front[j - 1], t));
                assert(front[j - 1].id != t.id);
            } else {
                assert(out[i] == front[i - 1] && out[j] == front[j - 1]);
            }
        }
        assert forall|i: int| 0 <= i < tasks.len() implies out.contains(#[trigger] tasks[i]) by {
            if i < n {
                assert(front.contains(front_in[i]));
                let x = choose|x: int| 0 <= x < front.len() && front[x] == front_in[i];
                if x < p {
                    assert(out[x] == tasks[i]);
                } else {
                    assert(out[x + 1] == tasks[i]);
                }
            } else {
                assert(out[p] == tasks[i]);
            }
        }
        assert forall|j: int| 0 <= j < tasks.len() implies tasks.contains(#[trigger] out[j]) by {
            if j == p {
                assert(tasks[n] == out[j]);
            } else {
                let k = if j < p { j } else { j - 1 };
                assert(out[j] == front[k]);
                assert(front_in.contains(front[k]));
                let x = choose|x: int| 0 <= x < front_in.len() && front_in[x] == front[k];
                assert(tasks[x] == out[j]);
            }
        }
    }
}

/// A listing holds every task of the table once and nothing else, tasks
/// without a parent first, then by parent, and by id among the tasks of one
/// parent; and every task that has a parent stands behind it.
pub proof fn law_listing_order(s: StoreView)
    requires
        s.wf(),
    ensures
        listing(s.tasks).len() == s.tasks.len(),
        in_listing_order(listing(s.tasks)),
        forall|i: int| 0 <= i < s.tasks.len() ==> listing(s.tasks).contains(#[trigger] s.tasks[i]),
        forall|j: int| 0 <= j < s.tasks.len() ==> s.tasks.contains(#[trigger] listing(s.tasks)[j]),
        forall|a: int, b: int|
            0 <= a < s.tasks.len() && 0 <= b < s.tasks.len() && (#[trigger] listing(
                s.tasks,
            )[b]).parent_task_id == Some((#[trigger] listing(s.tasks)[a]).id) ==> a < b,
{
    let list = listing(s.tasks);
    assert(distinct_ids(s.tasks)) by {
        assert forall|i: int, j: int| 0 <= i < j < s.tasks.len() implies (#[trigger] s.tasks[i]).id
            != (#[trigger] s.tasks[j]).id by {
            assert(s.tasks[i].id < s.tasks[j].id);
        }
    }
    lemma_listing(s.tasks);
    assert forall|a: int, b: int|
        0 <= a < s.tasks.len() && 0 <= b < s.tasks.len() && (#[trigger] list[b]).parent_task_id
            == Some((#[trigger] list[a]).id) implies a < b by {
        assert(s.tasks.contains(list[a]));
        assert(s.tasks.contains(list[b]));
        let x = choose|x: int| 0 <= x < s.tasks.len() && s.tasks[x] == list[a];
        let y = choose|y: int| 0 <= y < s.tasks.len() && s.tasks[y] == list[b];
        assert(s.task_ok(s.tasks[x]));
        assert(s.task_ok(s.tasks[y]));
        assert(lists_before(list[a], list[b]));
        if b < a {
            assert(lists_before(list[b], list[a]));
        }
    }
}

// ---------------------------------------------------------------------------
// Removing and commenting
// ---------------------------------------------------------------------------

/// When a task is removed its comments go with it, and the comments on
/// every other task stay as they were.
pub proof fn law_delete_takes_comments_along(s: StoreView, id: i64, other: i64)
    requires
        s.wf(),
        s.can_delete(id),
        other != id,
    ensures
        s.without_task(id).wf(),
        !s.without_task(id).has_id(id),
        s.without_task(id).comments_of(id).len() == 0,
        s.without_task(id).comments_of(other) == s.comments_of(other),
{
    lemma_without_task_wf(s, id);
    lemma_twice_selected(s.comments, id, id);
    lemma_twice_selected(s.comments, id, other);
}

/// Selecting the comments on `wanted` from those off `gone` gives none if
/// the two are one task, and the comments on `wanted` else.
proof fn lemma_twice_selected(comments: Seq<CommentView>, gone: i64, wanted: i64)
    ensures
        wanted == gone ==> select_comments(select_comments(comments, gone, false), wanted, true).len()
            == 0,
        wanted != gone ==> select_comments(select_comments(comments, gone, false), wanted, true)
            == select_comments(comments, wanted, true),
    decreases comments.len(),
{
    if comments.len() > 0 {
        lemma_twice_selected(comments.drop_last(), gone, wanted);
        let kept = select_comments(comments.drop_last(), gone, false);
        if comments.last().task_id != gone {
            assert(kept.push(comments.last()).drop_last() =~= kept);
        }
    }
}

/// The comments on a task are listed oldest first, each later one with a
/// higher id, and none of them is on another task.
pub proof fn law_comments_oldest_first(s: StoreView, task_id: i64)
    requires
        s.wf(),
    ensures
        forall|k: int|
            0 <= k < s.comments_of(task_id).len() ==> (#[trigger] s.comments_of(task_id)[k]).task_id
                == task_id,
        forall|a: int, b: int|
            0 <= a < b < s.comments_of(task_id).len() ==> (#[trigger] s.comments_of(task_id)[a]).id
                < (#[trigger] s.comments_of(task_id)[b]).id && s.comments_of(
                task_id,
            )[a].created_at <= s.comments_of(task_id)[b].created_at,
{
    lemma_select_comments(s.comments, task_id, true);
}

/// A comment that is left on a task comes last among the comments on it,
/// behind those that were there.
pub proof fn law_comment_is_appended(s: StoreView, task_id: i64, req: CommentRequestView, now: i64)
    requires
        s.wf(),
        s.can_comment(task_id),
    ensures
        s.with_comment(task_id, req, now).wf(),
        s.with_comment(task_id, req, now).comments_of(task_id) == s.comments_of(task_id).push(
            s.comment_row(task_id, req, now),
        ),
        s.with_comment(task_id, req, now).tasks == s.tasks,
{
    lemma_with_comment_wf(s, task_id, req, now);
    let more = s.comments.push(s.comment_row(task_id, req, now));
    assert(more.drop_last() =~= s.comments);
}

} // verus!
