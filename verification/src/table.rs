//! The board's table as a mathematical value, and every change to it as a
//! function from one such value to the next.
//!
//! The executable store in `store` is held to these functions; what holds
//! of them is proved in `store_laws`, `sync_laws` and `import_laws`.

use vstd::prelude::*;
use crate::models::{
    CommentRequestView, CommentView, CreateTaskView, TaskView, TicketView, UpdateStatusView,
    UpdateTaskView,
};
use crate::status::{pending, resolved_stage};

verus! {

/// The author of a comment that names none.
pub open spec fn anonymous() -> Seq<char> {
    "익명"@
}

/// The value a patch leaves in a field: its own where it has one.
pub open spec fn patched<A>(patch: Option<A>, old: A) -> A {
    match patch {
        Some(a) => a,
        None => old,
    }
}

/// The value a patch leaves in a field that may be empty.
pub open spec fn patched_opt<A>(patch: Option<A>, old: Option<A>) -> Option<A> {
    match patch {
        Some(a) => Some(a),
        None => old,
    }
}

/// The task after a patch written at `stamp`: every field the patch names
/// is written, every other field stays. The one exception is a patch that
/// itself moves the task to `Done` or `Pending`: the task then has no stage.
pub open spec fn patched_row(old: TaskView, patch: UpdateTaskView, stamp: i64) -> TaskView {
    TaskView {
        title: patched(patch.title, old.title),
        description: patched_opt(patch.description, old.description),
        status: patched(patch.status, old.status),
        stage: match patch.status {
            Some(status) => resolved_stage(status, patched_opt(patch.stage, old.stage)),
            None => patched_opt(patch.stage, old.stage),
        },
        assignee: patched_opt(patch.assignee, old.assignee),
        alias: patched_opt(patch.alias, old.alias),
        tags: patched_opt(patch.tags, old.tags),
        keywords: patched_opt(patch.keywords, old.keywords),
        start_date: patched_opt(patch.start_date, old.start_date),
        due_date: patched_opt(patch.due_date, old.due_date),
        updated_at: stamp,
        ..old
    }
}

/// The task after a move to another status, written at `stamp`.
pub open spec fn moved_row(old: TaskView, change: UpdateStatusView, stamp: i64) -> TaskView {
    TaskView {
        status: change.status,
        stage: resolved_stage(change.status, change.stage),
        updated_at: stamp,
        ..old
    }
}

/// The task after the tracker's ticket was written over it at `stamp`: what
/// the tracker owns is taken from the ticket, the task counts as present
/// again, and what the board owns stays.
pub open spec fn refreshed_row(old: TaskView, ticket: TicketView, stamp: i64) -> TaskView {
    TaskView {
        title: ticket.title,
        description: ticket.description,
        assignee: ticket.assignee,
        start_date: ticket.start_date,
        due_date: ticket.due_date,
        jira_url: ticket.jira_url,
        is_deleted: false,
        updated_at: stamp,
        ..old
    }
}

/// The request that puts `ticket` on the board under `parent`.
pub open spec fn ticket_as_new(ticket: TicketView, parent: Option<i64>) -> CreateTaskView {
    CreateTaskView {
        title: ticket.title,
        description: ticket.description,
        jira_ticket_key: Some(ticket.key),
        assignee: ticket.assignee,
        project_key: Some(ticket.project_key),
        parent_task_id: parent,
        alias: None,
        start_date: ticket.start_date,
        due_date: ticket.due_date,
        jira_url: ticket.jira_url,
    }
}

/// Whether a sweep of `project` flags `t`: it came from the tracker, belongs
/// to the project, its key is not among `keys`, and it is not flagged yet.
pub open spec fn vanished(t: TaskView, project: Seq<char>, keys: Set<Seq<char>>) -> bool {
    &&& t.project_key == Some(project)
    &&& t.jira_ticket_key is Some
    &&& !keys.contains(t.jira_ticket_key->0)
    &&& !t.is_deleted
}

/// The task after a sweep of `project` written at `stamp`.
pub open spec fn swept_row(t: TaskView, project: Seq<char>, keys: Set<Seq<char>>, stamp: i64)
    -> TaskView {
    if vanished(t, project, keys) {
        TaskView { is_deleted: true, updated_at: stamp, ..t }
    } else {
        t
    }
}

/// The comments that are on `task_id` (with `on`) or on any other task
/// (without), in the order they stand in.
pub open spec fn select_comments(comments: Seq<CommentView>, task_id: i64, on: bool) -> Seq<
    CommentView,
>
    decreases comments.len(),
{
    if comments.len() == 0 {
        Seq::empty()
    } else {
        let front = select_comments(comments.drop_last(), task_id, on);
        if (comments.last().task_id == task_id) == on {
            front.push(comments.last())
        } else {
            front
        }
    }
}

/// Whether `a` stands before `b` in a listing of the board: tasks without a
/// parent first, then by parent, and by id among tasks with the same parent.
pub open spec fn lists_before(a: TaskView, b: TaskView) -> bool {
    match (a.parent_task_id, b.parent_task_id) {
        (None, None) => a.id < b.id,
        (None, Some(_)) => true,
        (Some(_), None) => false,
        (Some(p), Some(q)) => p < q || (p == q && a.id < b.id),
    }
}

/// The place in `list` where `t` goes: behind the last task that stands
/// before it.
pub open spec fn listing_place(list: Seq<TaskView>, t: TaskView) -> int
    decreases list.len(),
{
    if list.len() == 0 {
        0
    } else if lists_before(list.last(), t) {
        list.len() as int
    } else {
        listing_place(list.drop_last(), t)
    }
}

/// The tasks in the order of a listing.
pub open spec fn listing(tasks: Seq<TaskView>) -> Seq<TaskView>
    decreases tasks.len(),
{
    if tasks.len() == 0 {
        Seq::empty()
    } else {
        let front = listing(tasks.drop_last());
        front.insert(listing_place(front, tasks.last()), tasks.last())
    }
}

/// The latest stamp of a change among `tasks`, or the earliest point in time
/// if there are none.
pub open spec fn latest_update(tasks: Seq<TaskView>) -> i64
    decreases tasks.len(),
{
    if tasks.len() == 0 {
        i64::MIN
    } else {
        let before = latest_update(tasks.drop_last());
        if tasks.last().updated_at > before {
            tasks.last().updated_at
        } else {
            before
        }
    }
}

/// The latest stamp among `comments`, or the earliest point in time if there
/// are none.
pub open spec fn latest_comment(comments: Seq<CommentView>) -> i64
    decreases comments.len(),
{
    if comments.len() == 0 {
        i64::MIN
    } else {
        let before = latest_comment(comments.drop_last());
        if comments.last().created_at > before {
            comments.last().created_at
        } else {
            before
        }
    }
}

/// The higher of two ids.
pub open spec fn higher(a: i64, b: i64) -> i64 {
    if a > b {
        a
    } else {
        b
    }
}

/// The id of the last of `tasks`, or 0 if there are none.
pub open spec fn last_task_id(tasks: Seq<TaskView>) -> i64 {
    if tasks.len() == 0 {
        0
    } else {
        tasks.last().id
    }
}

/// The id of the last of `comments`, or 0 if there are none.
pub open spec fn last_comment_id(comments: Seq<CommentView>) -> i64 {
    if comments.len() == 0 {
        0
    } else {
        comments.last().id
    }
}

/// The table that holds the saved rows `tasks` and `comments`, when
/// `issued_tasks` and `issued_comments` are the highest ids that were ever
/// handed out (0 if that is not known): it hands out the ids behind those
/// and behind the last rows, so that no id comes twice, and its clock stands
/// at the latest stamp.
pub open spec fn restored(
    tasks: Seq<TaskView>,
    comments: Seq<CommentView>,
    issued_tasks: i64,
    issued_comments: i64,
) -> StoreView {
    StoreView {
        tasks: tasks,
        comments: comments,
        next_task_id: (higher(last_task_id(tasks), issued_tasks) + 1) as i64,
        next_comment_id: (higher(last_comment_id(comments), issued_comments) + 1) as i64,
        clock: if latest_update(tasks) > latest_comment(comments) {
            latest_update(tasks)
        } else {
            latest_comment(comments)
        },
    }
}

/// Whether saved rows make a table that is in order and can hand out an id.
pub open spec fn restorable(
    tasks: Seq<TaskView>,
    comments: Seq<CommentView>,
    issued_tasks: i64,
    issued_comments: i64,
) -> bool {
    &&& higher(last_task_id(tasks), issued_tasks) < i64::MAX
    &&& higher(last_comment_id(comments), issued_comments) < i64::MAX
    &&& restored(tasks, comments, issued_tasks, issued_comments).wf()
}

/// The board's table: tasks in the order of their creation, comments in the
/// order they were written, the ids to hand out next, and the latest point in
/// time the table has seen.
pub struct StoreView {
    pub tasks: Seq<TaskView>,
    pub comments: Seq<CommentView>,
    pub next_task_id: i64,
    pub next_comment_id: i64,
    pub clock: i64,
}

impl StoreView {
    /// The table before anything was written.
    pub open spec fn empty() -> StoreView {
        StoreView {
            tasks: Seq::empty(),
            comments: Seq::empty(),
            next_task_id: 1,
            next_comment_id: 1,
            clock: i64::MIN,
        }
    }

    /// The time a write at `now` is stamped with: never earlier than any
    /// stamp already in the table.
    pub open spec fn stamp(self, now: i64) -> i64 {
        if now > self.clock {
            now
        } else {
            self.clock
        }
    }

    /// Whether the table holds a task with `id`.
    pub open spec fn has_id(self, id: i64) -> bool {
        exists|i: int| 0 <= i < self.tasks.len() && (#[trigger] self.tasks[i]).id == id
    }

    /// Where the task with `id` stands, if there is one.
    pub open spec fn index_of_id(self, id: i64) -> int {
        choose|i: int| 0 <= i < self.tasks.len() && (#[trigger] self.tasks[i]).id == id
    }

    /// Whether the table holds a task that stands for the tracker's ticket
    /// `key`.
    pub open spec fn has_key(self, key: Seq<char>) -> bool {
        exists|i: int|
            0 <= i < self.tasks.len() && (#[trigger] self.tasks[i]).jira_ticket_key == Some(key)
    }

    /// Where the task with the tracker's `key` stands, if there is one.
    pub open spec fn index_of_key(self, key: Seq<char>) -> int {
        choose|i: int|
            0 <= i < self.tasks.len() && (#[trigger] self.tasks[i]).jira_ticket_key == Some(key)
    }

    /// Whether some task names `id` as its parent.
    pub open spec fn has_child(self, id: i64) -> bool {
        exists|i: int|
            0 <= i < self.tasks.len() && (#[trigger] self.tasks[i]).parent_task_id == Some(id)
    }

    /// What holds of every task of a table that is in order.
    pub open spec fn task_ok(self, t: TaskView) -> bool {
        &&& 1 <= t.id < self.next_task_id
        &&& (t.parent_task_id matches Some(p) ==> p < t.id && self.has_id(p))
        &&& t.created_at <= t.updated_at <= self.clock
    }

    /// What holds of every comment of a table that is in order.
    pub open spec fn comment_ok(self, c: CommentView) -> bool {
        &&& 1 <= c.id < self.next_comment_id
        &&& self.has_id(c.task_id)
        &&& c.created_at <= self.clock
    }

    /// The table is in order: ids rise along the table and were all handed
    /// out by it, no two tasks share a tracker key, every parent is there and
    /// older than its child, no stamp is later than the clock, and comments
    /// stand in the order of their stamps, each on a task that is there.
    pub open spec fn wf(self) -> bool {
        &&& 1 <= self.next_task_id
        &&& 1 <= self.next_comment_id
        &&& forall|i: int| 0 <= i < self.tasks.len() ==> self.task_ok(#[trigger] self.tasks[i])
        &&& forall|i: int, j: int|
            0 <= i < j < self.tasks.len() ==> (#[trigger] self.tasks[i]).id < (
            #[trigger] self.tasks[j]).id
        &&& forall|i: int, j: int|
            0 <= i < self.tasks.len() && 0 <= j < self.tasks.len() && i != j && (
            #[trigger] self.tasks[i]).jira_ticket_key is Some ==> self.tasks[i].jira_ticket_key != (
            #[trigger] self.tasks[j]).jira_ticket_key
        &&& forall|i: int|
            0 <= i < self.comments.len() ==> self.comment_ok(#[trigger] self.comments[i])
        &&& forall|i: int, j: int|
            0 <= i < j < self.comments.len() ==> {
                &&& (#[trigger] self.comments[i]).id < (#[trigger] self.comments[j]).id
                &&& self.comments[i].created_at <= self.comments[j].created_at
            }
    }

    // -- creating ----------------------------------------------------------

    /// Whether `new` can be put on the board: an id is left to give, the
    /// parent it names is there, and the tracker key it names is not.
    pub open spec fn can_create(self, new: CreateTaskView) -> bool {
        &&& self.next_task_id < i64::MAX
        &&& (new.parent_task_id matches Some(p) ==> self.has_id(p))
        &&& (new.jira_ticket_key matches Some(k) ==> !self.has_key(k))
    }

    /// The task that `new` becomes when it is created at `now`.
    pub open spec fn created_row(self, new: CreateTaskView, now: i64) -> TaskView {
        TaskView {
            id: self.next_task_id,
            jira_ticket_key: new.jira_ticket_key,
            title: new.title,
            description: new.description,
            status: pending(),
            stage: None,
            assignee: new.assignee,
            project_key: new.project_key,
            parent_task_id: new.parent_task_id,
            alias: new.alias,
            tags: None,
            keywords: None,
            start_date: new.start_date,
            due_date: new.due_date,
            jira_url: new.jira_url,
            created_at: self.stamp(now),
            updated_at: self.stamp(now),
            is_deleted: false,
        }
    }

    /// The table after `new` was asked for at `now`.
    pub open spec fn with_created(self, new: CreateTaskView, now: i64) -> StoreView {
        if self.can_create(new) {
            StoreView {
                tasks: self.tasks.push(self.created_row(new, now)),
                next_task_id: (self.next_task_id + 1) as i64,
                clock: self.stamp(now),
                ..self
            }
        } else {
            self
        }
    }

    // -- changing ----------------------------------------------------------

    /// The table after the task with `id`, if there is one, was patched at
    /// `now`.
    pub open spec fn with_patch(self, id: i64, patch: UpdateTaskView, now: i64) -> StoreView {
        if self.has_id(id) {
            let i = self.index_of_id(id);
            StoreView {
                tasks: self.tasks.update(i, patched_row(self.tasks[i], patch, self.stamp(now))),
                clock: self.stamp(now),
                ..self
            }
        } else {
            self
        }
    }

    /// The table after the task with `id`, if there is one, was moved to
    /// another status at `now`.
    pub open spec fn with_status(self, id: i64, change: UpdateStatusView, now: i64) -> StoreView {
        if self.has_id(id) {
            let i = self.index_of_id(id);
            StoreView {
                tasks: self.tasks.update(i, moved_row(self.tasks[i], change, self.stamp(now))),
                clock: self.stamp(now),
                ..self
            }
        } else {
            self
        }
    }

    // -- removing ----------------------------------------------------------

    /// Whether the task with `id` can be removed: it is there and no task
    /// names it as its parent.
    pub open spec fn can_delete(self, id: i64) -> bool {
        self.has_id(id) && !self.has_child(id)
    }

    /// The table after the removal of the task with `id` was asked for. Its
    /// comments go with it.
    pub open spec fn without_task(self, id: i64) -> StoreView {
        if self.can_delete(id) {
            StoreView {
                tasks: self.tasks.remove(self.index_of_id(id)),
                comments: select_comments(self.comments, id, false),
                ..self
            }
        } else {
            self
        }
    }

    // -- comments ----------------------------------------------------------

    /// Whether a comment can be left on the task with `task_id`.
    pub open spec fn can_comment(self, task_id: i64) -> bool {
        self.next_comment_id < i64::MAX && self.has_id(task_id)
    }

    /// The comment that `req` becomes when it is left on `task_id` at `now`:
    /// a missing author is anonymous, a missing content is empty.
    pub open spec fn comment_row(self, task_id: i64, req: CommentRequestView, now: i64)
        -> CommentView {
        CommentView {
            id: self.next_comment_id,
            task_id: task_id,
            author: patched(req.author, anonymous()),
            content: patched(req.content, Seq::empty()),
            attachments: req.attachments,
            created_at: self.stamp(now),
        }
    }

    /// The table after a comment on `task_id` was asked for at `now`.
    pub open spec fn with_comment(self, task_id: i64, req: CommentRequestView, now: i64)
        -> StoreView {
        if self.can_comment(task_id) {
            StoreView {
                comments: self.comments.push(self.comment_row(task_id, req, now)),
                next_comment_id: (self.next_comment_id + 1) as i64,
                clock: self.stamp(now),
                ..self
            }
        } else {
            self
        }
    }

    /// The comments on `task_id`, oldest first.
    pub open spec fn comments_of(self, task_id: i64) -> Seq<CommentView> {
        select_comments(self.comments, task_id, true)
    }

    // -- reconciling -------------------------------------------------------

    /// The id of the task that stands for the ticket's parent, if the ticket
    /// names a parent and that parent is on the board.
    pub open spec fn parent_of(self, ticket: TicketView) -> Option<i64> {
        match ticket.parent_key {
            Some(pk) => if self.has_key(pk) {
                Some(self.tasks[self.index_of_key(pk)].id)
            } else {
                None
            },
            None => None,
        }
    }

    /// The table after `ticket` was written into it at `now`: over the task
    /// that has its key, or else as a new task under its parent.
    pub open spec fn upserted(self, ticket: TicketView, now: i64) -> StoreView {
        if self.has_key(ticket.key) {
            let i = self.index_of_key(ticket.key);
            StoreView {
                tasks: self.tasks.update(i, refreshed_row(self.tasks[i], ticket, self.stamp(now))),
                clock: self.stamp(now),
                ..self
            }
        } else {
            self.with_created(ticket_as_new(ticket, self.parent_of(ticket)), now)
        }
    }

    /// The table after a sweep of `project` at `now`, when `keys` are the
    /// keys the tracker still reports.
    pub open spec fn swept(self, project: Seq<char>, keys: Set<Seq<char>>, now: i64) -> StoreView {
        StoreView {
            tasks: Seq::new(
                self.tasks.len(),
                |i: int| swept_row(self.tasks[i], project, keys, self.stamp(now)),
            ),
            clock: self.stamp(now),
            ..self
        }
    }
}

} // verus!

verus! {

// ---------------------------------------------------------------------------
// Where tasks stand
// ---------------------------------------------------------------------------

/// In a table that is in order, the task at `i` is the one its id leads to.
pub proof fn lemma_index_of_id(s: StoreView, i: int)
    requires
        s.wf(),
        0 <= i < s.tasks.len(),
    ensures
        s.has_id(s.tasks[i].id),
        s.index_of_id(s.tasks[i].id) == i,
{
    let id = s.tasks[i].id;
    let j = s.index_of_id(id);
    assert(0 <= j < s.tasks.len() && s.tasks[j].id == id);
    if j < i {
        assert(s.tasks[j].id < s.tasks[i].id);
    } else if i < j {
        assert(s.tasks[i].id < s.tasks[j].id);
    }
}

/// In a table that is in order, the task at `i` is the one its tracker key
/// leads to, if it has one.
pub proof fn lemma_index_of_key(s: StoreView, i: int)
    requires
        s.wf(),
        0 <= i < s.tasks.len(),
        s.tasks[i].jira_ticket_key is Some,
    ensures
        s.has_key(s.tasks[i].jira_ticket_key->0),
        s.index_of_key(s.tasks[i].jira_ticket_key->0) == i,
{
    let k = s.tasks[i].jira_ticket_key->0;
    let j = s.index_of_key(k);
    assert(0 <= j < s.tasks.len() && s.tasks[j].jira_ticket_key == Some(k));
}

/// Two tables whose tasks carry the same ids, place by place, know the same
/// ids.
pub proof fn lemma_same_ids(a: StoreView, b: StoreView)
    requires
        a.tasks.len() <= b.tasks.len(),
        forall|i: int| 0 <= i < a.tasks.len() ==> (#[trigger] a.tasks[i]).id == b.tasks[i].id,
    ensures
        forall|id: i64| a.has_id(id) ==> b.has_id(id),
{
    assert forall|id: i64| a.has_id(id) implies b.has_id(id) by {
        let i = a.index_of_id(id);
        assert(b.tasks[i].id == id);
    }
}

// ---------------------------------------------------------------------------
// Every change keeps the table in order
// ---------------------------------------------------------------------------

/// Creating a task keeps the table in order.
pub proof fn lemma_with_created_wf(s: StoreView, new: CreateTaskView, now: i64)
    requires
        s.wf(),
    ensures
        s.with_created(new, now).wf(),
{
    if s.can_create(new) {
        let r = s.with_created(new, now);
        let n = s.tasks.len() as int;
        lemma_same_ids(s, r);
        assert(r.tasks[n].id == s.next_task_id);
        assert forall|i: int| 0 <= i < r.tasks.len() implies r.task_ok(#[trigger] r.tasks[i]) by {
            if i < n {
                assert(r.tasks[i] == s.tasks[i]);
                assert(s.task_ok(s.tasks[i]));
            }
        }
        assert forall|i: int, j: int| 0 <= i < j < r.tasks.len() implies (#[trigger] r.tasks[i]).id
            < (#[trigger] r.tasks[j]).id by {
            assert(r.tasks[i] == s.tasks[i]);
            assert(s.task_ok(s.tasks[i]));
            if j < n {
                assert(r.tasks[j] == s.tasks[j]);
            }
        }
        assert forall|i: int, j: int|
            0 <= i < r.tasks.len() && 0 <= j < r.tasks.len() && i != j && (
            #[trigger] r.tasks[i]).jira_ticket_key is Some implies r.tasks[i].jira_ticket_key != (
            #[trigger] r.tasks[j]).jira_ticket_key by {
            if i < n && j < n {
                assert(r.tasks[i] == s.tasks[i]);
                assert(r.tasks[j] == s.tasks[j]);
            } else if i < n {
                assert(r.tasks[i] == s.tasks[i]);
            } else {
                assert(r.tasks[j] == s.tasks[j]);
            }
        }
        assert forall|i: int| 0 <= i < r.comments.len() implies r.comment_ok(
            #[trigger] r.comments[i],
        ) by {
            assert(s.comment_ok(s.comments[i]));
        }
    }
}

/// A table stays in order when one task is replaced by a task with the same
/// id, tracker key and parent, whose stamps are in order.
pub proof fn lemma_replaced_wf(s: StoreView, i: int, t: TaskView, now: i64)
    requires
        s.wf(),
        0 <= i < s.tasks.len(),
        t.id == s.tasks[i].id,
        t.jira_ticket_key == s.tasks[i].jira_ticket_key,
        t.parent_task_id == s.tasks[i].parent_task_id,
        t.created_at <= t.updated_at <= s.stamp(now),
    ensures
        (StoreView { tasks: s.tasks.update(i, t), clock: s.stamp(now), ..s }).wf(),
{
    let r = StoreView { tasks: s.tasks.update(i, t), clock: s.stamp(now), ..s };
    lemma_same_ids(s, r);
    assert forall|j: int| 0 <= j < r.tasks.len() implies r.task_ok(#[trigger] r.tasks[j]) by {
        assert(s.task_ok(s.tasks[j]));
    }
    assert forall|j: int, k: int| 0 <= j < k < r.tasks.len() implies (#[trigger] r.tasks[j]).id < (
    #[trigger] r.tasks[k]).id by {
        assert(s.tasks[j].id < s.tasks[k].id);
    }
    assert forall|j: int, k: int|
        0 <= j < r.tasks.len() && 0 <= k < r.tasks.len() && j != k && (
        #[trigger] r.tasks[j]).jira_ticket_key is Some implies r.tasks[j].jira_ticket_key != (
        #[trigger] r.tasks[k]).jira_ticket_key by {
        assert(s.tasks[j].jira_ticket_key is Some);
        assert(s.tasks[j].jira_ticket_key != s.tasks[k].jira_ticket_key);
    }
    assert forall|j: int| 0 <= j < r.comments.len() implies r.comment_ok(
        #[trigger] r.comments[j],
    ) by {
        assert(s.comment_ok(s.comments[j]));
    }
}

/// A patch keeps the table in order.
pub proof fn lemma_with_patch_wf(s: StoreView, id: i64, patch: UpdateTaskView, now: i64)
    requires
        s.wf(),
    ensures
        s.with_patch(id, patch, now).wf(),
{
    if s.has_id(id) {
        let i = s.index_of_id(id);
        assert(s.task_ok(s.tasks[i]));
        lemma_replaced_wf(s, i, patched_row(s.tasks[i], patch, s.stamp(now)), now);
    }
}

/// A move to another status keeps the table in order.
pub proof fn lemma_with_status_wf(s: StoreView, id: i64, change: UpdateStatusView, now: i64)
    requires
        s.wf(),
    ensures
        s.with_status(id, change, now).wf(),
{
    if s.has_id(id) {
        let i = s.index_of_id(id);
        assert(s.task_ok(s.tasks[i]));
        lemma_replaced_wf(s, i, moved_row(s.tasks[i], change, s.stamp(now)), now);
    }
}

/// Writing a ticket into the table keeps it in order.
pub proof fn lemma_upserted_wf(s: StoreView, ticket: TicketView, now: i64)
    requires
        s.wf(),
    ensures
        s.upserted(ticket, now).wf(),
{
    if s.has_key(ticket.key) {
        let i = s.index_of_key(ticket.key);
        assert(s.task_ok(s.tasks[i]));
        lemma_replaced_wf(s, i, refreshed_row(s.tasks[i], ticket, s.stamp(now)), now);
    } else {
        lemma_with_created_wf(s, ticket_as_new(ticket, s.parent_of(ticket)), now);
    }
}

/// A sweep keeps the table in order.
pub proof fn lemma_swept_wf(s: StoreView, project: Seq<char>, keys: Set<Seq<char>>, now: i64)
    requires
        s.wf(),
    ensures
        s.swept(project, keys, now).wf(),
{
    let r = s.swept(project, keys, now);
    lemma_same_ids(s, r);
    assert forall|j: int| 0 <= j < r.tasks.len() implies r.task_ok(#[trigger] r.tasks[j]) by {
        assert(s.task_ok(s.tasks[j]));
    }
    assert forall|j: int, k: int| 0 <= j < k < r.tasks.len() implies (#[trigger] r.tasks[j]).id < (
    #[trigger] r.tasks[k]).id by {
        assert(s.tasks[j].id < s.tasks[k].id);
    }
    assert forall|j: int, k: int|
        0 <= j < r.tasks.len() && 0 <= k < r.tasks.len() && j != k && (
        #[trigger] r.tasks[j]).jira_ticket_key is Some implies r.tasks[j].jira_ticket_key != (
        #[trigger] r.tasks[k]).jira_ticket_key by {
        assert(s.tasks[j].jira_ticket_key is Some);
        assert(s.tasks[j].jira_ticket_key != s.tasks[k].jira_ticket_key);
    }
    assert forall|j: int| 0 <= j < r.comments.len() implies r.comment_ok(
        #[trigger] r.comments[j],
    ) by {
        assert(s.comment_ok(s.comments[j]));
    }
}

/// Leaving a comment keeps the table in order.
pub proof fn lemma_with_comment_wf(s: StoreView, task_id: i64, req: CommentRequestView, now: i64)
    requires
        s.wf(),
    ensures
        s.with_comment(task_id, req, now).wf(),
{
    if s.can_comment(task_id) {
        let r = s.with_comment(task_id, req, now);
        let n = s.comments.len() as int;
        lemma_same_ids(s, r);
        assert forall|j: int| 0 <= j < r.tasks.len() implies r.task_ok(#[trigger] r.tasks[j]) by {
            assert(s.task_ok(s.tasks[j]));
        }
        assert forall|j: int| 0 <= j < r.comments.len() implies r.comment_ok(
            #[trigger] r.comments[j],
        ) by {
            if j < n {
                assert(s.comment_ok(s.comments[j]));
            }
        }
        assert forall|j: int, k: int| 0 <= j < k < r.comments.len() implies {
            &&& (#[trigger] r.comments[j]).id < (#[trigger] r.comments[k]).id
            &&& r.comments[j].created_at <= r.comments[k].created_at
        } by {
            assert(s.comment_ok(s.comments[j]));
            if k < n {
                assert(r.comments[k] == s.comments[k]);
            }
        }
    }
}

/// The place where a task goes in a listing is a place of the listing,
/// right behind a task that stands before it, and no task behind that place
/// stands before it.
pub proof fn lemma_listing_place(list: Seq<TaskView>, t: TaskView)
    ensures
        0 <= listing_place(list, t) <= list.len(),
        listing_place(list, t) > 0 ==> lists_before(list[listing_place(list, t) - 1], t),
        forall|k: int|
            listing_place(list, t) <= k < list.len() ==> !lists_before(#[trigger] list[k], t),
    decreases list.len(),
{
    if list.len() > 0 && !lists_before(list.last(), t) {
        lemma_listing_place(list.drop_last(), t);
        let p = listing_place(list, t);
        assert forall|k: int| p <= k < list.len() implies !lists_before(#[trigger] list[k], t) by {
            if k < list.len() - 1 {
                assert(list.drop_last()[k] == list[k]);
            }
        }
        if p > 0 {
            assert(list.drop_last()[p - 1] == list[p - 1]);
        }
    }
}

/// A listing holds as many tasks as the table.
pub proof fn lemma_listing_len(tasks: Seq<TaskView>)
    ensures
        listing(tasks).len() == tasks.len(),
    decreases tasks.len(),
{
    if tasks.len() > 0 {
        lemma_listing_len(tasks.drop_last());
        lemma_listing_place(listing(tasks.drop_last()), tasks.last());
    }
}

/// What was selected from comments was among them, stands in the same order,
/// and is on the task asked for, or off it.
pub proof fn lemma_select_comments(comments: Seq<CommentView>, task_id: i64, on: bool)
    ensures
        select_comments(comments, task_id, on).len() <= comments.len(),
        forall|k: int|
            0 <= k < select_comments(comments, task_id, on).len() ==> {
                &&& ((#[trigger] select_comments(comments, task_id, on)[k]).task_id == task_id)
                    == on
                &&& exists|j: int|
                    0 <= j < comments.len() && #[trigger] comments[j] == select_comments(
                        comments,
                        task_id,
                        on,
                    )[k]
            },
        (forall|i: int, j: int|
            0 <= i < j < comments.len() ==> (#[trigger] comments[i]).id < (
            #[trigger] comments[j]).id && comments[i].created_at <= comments[j].created_at)
            ==> (forall|a: int, b: int|
            0 <= a < b < select_comments(comments, task_id, on).len() ==> (
            #[trigger] select_comments(comments, task_id, on)[a]).id < (#[trigger] select_comments(
                comments,
                task_id,
                on,
            )[b]).id && select_comments(comments, task_id, on)[a].created_at <= select_comments(
                comments,
                task_id,
                on,
            )[b].created_at),
    decreases comments.len(),
{
    let r = select_comments(comments, task_id, on);
    if comments.len() > 0 {
        let front_in = comments.drop_last();
        let front = select_comments(front_in, task_id, on);
        let last = comments.last();
        let n = comments.len() - 1;
        lemma_select_comments(front_in, task_id, on);
        assert forall|k: int| 0 <= k < r.len() implies {
            &&& ((#[trigger] r[k]).task_id == task_id) == on
            &&& exists|j: int| 0 <= j < comments.len() && #[trigger] comments[j] == r[k]
        } by {
            if k < front.len() {
                assert(r[k] == front[k]);
                let j = choose|j: int| 0 <= j < front_in.len() && #[trigger] front_in[j] == front[k];
                assert(comments[j] == r[k]);
            } else {
                assert(comments[n] == r[k]);
            }
        }
        if forall|i: int, j: int|
            0 <= i < j < comments.len() ==> (#[trigger] comments[i]).id < (
            #[trigger] comments[j]).id && comments[i].created_at <= comments[j].created_at {
            assert forall|i: int, j: int| 0 <= i < j < front_in.len() implies (
            #[trigger] front_in[i]).id < (#[trigger] front_in[j]).id && front_in[i].created_at
                <= front_in[j].created_at by {
                assert(comments[i].id < comments[j].id);
            }
            assert forall|a: int, b: int| 0 <= a < b < r.len() implies (#[trigger] r[a]).id < (
            #[trigger] r[b]).id && r[a].created_at <= r[b].created_at by {
                assert(r[a] == front[a]);
                if b < front.len() {
                    assert(r[b] == front[b]);
                } else {
                    let j = choose|j: int|
                        0 <= j < front_in.len() && #[trigger] front_in[j] == front[a];
                    assert(comments[j].id < comments[n].id);
                }
            }
        }
    }
}

/// Removing a task keeps the table in order; the task is gone afterwards
/// unless another task names it as its parent.
pub proof fn lemma_without_task_wf(s: StoreView, id: i64)
    requires
        s.wf(),
    ensures
        s.without_task(id).wf(),
        !s.without_task(id).has_id(id) <==> !s.has_child(id),
{
    if s.has_child(id) {
        let c = choose|c: int|
            0 <= c < s.tasks.len() && (#[trigger] s.tasks[c]).parent_task_id == Some(id);
        assert(s.task_ok(s.tasks[c]));
    }
    if s.can_delete(id) {
        let r = s.without_task(id);
        let i = s.index_of_id(id);
        assert(0 <= i < s.tasks.len() && s.tasks[i].id == id);
        assert forall|j: int| 0 <= j < r.tasks.len() implies (#[trigger] r.tasks[j]).id != id by {
            if j < i {
                assert(s.tasks[j].id < s.tasks[i].id);
            } else {
                assert(s.tasks[i].id < s.tasks[j + 1].id);
            }
        }
        assert forall|p: i64| p != id && s.has_id(p) implies r.has_id(p) by {
            let k = s.index_of_id(p);
            if k < i {
                assert(r.tasks[k].id == p);
            } else {
                assert(r.tasks[k - 1].id == p);
            }
        }
        assert forall|j: int| 0 <= j < r.tasks.len() implies r.task_ok(#[trigger] r.tasks[j]) by {
            let k = if j < i { j } else { j + 1 };
            assert(r.tasks[j] == s.tasks[k]);
            assert(s.task_ok(s.tasks[k]));
        }
        assert forall|a: int, b: int| 0 <= a < b < r.tasks.len() implies (#[trigger] r.tasks[a]).id
            < (#[trigger] r.tasks[b]).id by {
            let ka = if a < i { a } else { a + 1 };
            let kb = if b < i { b } else { b + 1 };
            assert(s.tasks[ka].id < s.tasks[kb].id);
        }
        assert forall|a: int, b: int|
            0 <= a < r.tasks.len() && 0 <= b < r.tasks.len() && a != b && (
            #[trigger] r.tasks[a]).jira_ticket_key is Some implies r.tasks[a].jira_ticket_key != (
            #[trigger] r.tasks[b]).jira_ticket_key by {
            let ka = if a < i { a } else { a + 1 };
            let kb = if b < i { b } else { b + 1 };
            assert(s.tasks[ka].jira_ticket_key is Some);
            assert(s.tasks[ka].jira_ticket_key != s.tasks[kb].jira_ticket_key);
        }
        lemma_select_comments(s.comments, id, false);
        assert forall|k: int| 0 <= k < r.comments.len() implies r.comment_ok(
            #[trigger] r.comments[k],
        ) by {
            let j = choose|j: int| 0 <= j < s.comments.len() && #[trigger] s.comments[j] == r.comments[k];
            assert(s.comment_ok(s.comments[j]));
        }
    }
}

/// No task was changed later than the latest change.
pub proof fn lemma_latest_update(tasks: Seq<TaskView>, i: int)
    requires
        0 <= i < tasks.len(),
    ensures
        tasks[i].updated_at <= latest_update(tasks),
    decreases tasks.len(),
{
    if i < tasks.len() - 1 {
        lemma_latest_update(tasks.drop_last(), i);
    }
}

/// No comment was written later than the latest comment.
pub proof fn lemma_latest_comment(comments: Seq<CommentView>, i: int)
    requires
        0 <= i < comments.len(),
    ensures
        comments[i].created_at <= latest_comment(comments),
    decreases comments.len(),
{
    if i < comments.len() - 1 {
        lemma_latest_comment(comments.drop_last(), i);
    }
}

} // verus!
