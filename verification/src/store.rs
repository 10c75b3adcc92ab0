//! The board's table: tasks and their comments, with the ids and the stamps
//! the table itself hands out.

use vstd::prelude::*;
use vstd::string::StringExecFns;
use crate::flatten::{key_set, TicketMap};
use crate::table::{
    latest_comment, latest_update, lemma_index_of_id, lemma_index_of_key, lemma_latest_comment,
    lemma_latest_update, lemma_listing_len, lemma_swept_wf, lemma_upserted_wf,
    lemma_with_comment_wf, lemma_with_created_wf, lemma_with_patch_wf, lemma_with_status_wf,
    lemma_without_task_wf, listing, listing_place, lists_before, moved_row, patched_row,
    refreshed_row, restorable, restored, select_comments, swept_row, ticket_as_new, vanished,
    StoreView,
};
use crate::models::{
    comment_views, task_views, CommentRequest, CreateTaskRequest, JiraTicket, Task,
    TaskComment, UpdateStatusRequest, UpdateTaskRequest,
};
use crate::status::{initial_status, resolve_stage};
use crate::text::{copy_opt, opt_is};

verus! {

/// Writes a patch over a task.
fn apply_patch(task: &mut Task, req: &UpdateTaskRequest, stamp: i64)
    ensures
        final(task)@ == patched_row(old(task)@, req@, stamp),
{
    if let Some(t) = &req.title {
        task.title = t.clone();
    }
    if req.description.is_some() {
        task.description = copy_opt(&req.description);
    }
    if let Some(s) = &req.status {
        task.status = s.clone();
    }
    if req.stage.is_some() {
        task.stage = copy_opt(&req.stage);
    }
    if req.assignee.is_some() {
        task.assignee = copy_opt(&req.assignee);
    }
    if req.alias.is_some() {
        task.alias = copy_opt(&req.alias);
    }
    if req.tags.is_some() {
        task.tags = copy_opt(&req.tags);
    }
    if req.keywords.is_some() {
        task.keywords = copy_opt(&req.keywords);
    }
    if req.start_date.is_some() {
        task.start_date = req.start_date;
    }
    if req.due_date.is_some() {
        task.due_date = req.due_date;
    }
    if req.status.is_some() {
        let stage = resolve_stage(&task.status, &task.stage);
        task.stage = stage;
    }
    task.updated_at = stamp;
}

/// Moves a task to another status.
fn apply_status(task: &mut Task, req: &UpdateStatusRequest, stamp: i64)
    ensures
        final(task)@ == moved_row(old(task)@, req@, stamp),
{
    task.status = req.status.clone();
    task.stage = resolve_stage(&req.status, &req.stage);
    task.updated_at = stamp;
}

/// Writes the tracker's ticket over a task.
fn apply_ticket(task: &mut Task, ticket: &JiraTicket, stamp: i64)
    ensures
        final(task)@ == refreshed_row(old(task)@, ticket@, stamp),
{
    task.title = ticket.title.clone();
    task.description = copy_opt(&ticket.description);
    task.assignee = copy_opt(&ticket.assignee);
    task.start_date = ticket.start_date;
    task.due_date = ticket.due_date;
    task.jira_url = copy_opt(&ticket.jira_url);
    task.is_deleted = false;
    task.updated_at = stamp;
}

/// Whether `a` stands before `b` in a listing of the board.
fn stands_before(a: &Task, b: &Task) -> (r: bool)
    ensures
        r == lists_before(a@, b@),
{
    match (a.parent_task_id, b.parent_task_id) {
        (None, None) => a.id < b.id,
        (None, Some(_)) => true,
        (Some(_), None) => false,
        (Some(p), Some(q)) => p < q || (p == q && a.id < b.id),
    }
}

/// Copies of the comments that are on `task_id`, or of those that are not.
fn select(comments: &Vec<TaskComment>, task_id: i64, on: bool) -> (r: Vec<TaskComment>)
    ensures
        comment_views(r@) == select_comments(comment_views(comments@), task_id, on),
{
    let mut r: Vec<TaskComment> = Vec::new();
    let ghost all = comment_views(comments@);
    let mut i: usize = 0;
    assert(all.take(0) =~= Seq::empty());
    assert(comment_views(r@) =~= Seq::empty());
    while i < comments.len()
        invariant
            i <= comments@.len(),
            all == comment_views(comments@),
            comment_views(r@) == select_comments(all.take(i as int), task_id, on),
        decreases comments@.len() - i,
    {
        proof {
            assert(all.take(i + 1).drop_last() =~= all.take(i as int));
            assert(all.take(i + 1).last() == comments@[i as int]@);
        }
        if (comments[i].task_id == task_id) == on {
            let ghost before = comment_views(r@);
            r.push(comments[i].clone());
            assert(comment_views(r@) =~= before.push(comments@[i as int]@));
        }
        i += 1;
    }
    assert(all.take(all.len() as int) =~= all);
    r
}

/// Whether one of `tasks` has the id `id`.
fn holds_id(tasks: &Vec<Task>, id: i64) -> (r: bool)
    ensures
        r == exists|j: int| 0 <= j < tasks@.len() && (#[trigger] task_views(tasks@)[j]).id == id,
{
    let mut j: usize = 0;
    while j < tasks.len()
        invariant
            j <= tasks@.len(),
            forall|k: int| 0 <= k < j ==> (#[trigger] task_views(tasks@)[k]).id != id,
        decreases tasks@.len() - j,
    {
        if tasks[j].id == id {
            assert(task_views(tasks@)[j as int].id == id);
            return true;
        }
        j += 1;
    }
    false
}

/// Whether one of `tasks` before place `n` has the tracker key of the task
/// at `n`.
fn key_seen_before(tasks: &Vec<Task>, n: usize) -> (r: bool)
    requires
        n < tasks@.len(),
    ensures
        r == exists|j: int|
            0 <= j < n && (#[trigger] task_views(tasks@)[j]).jira_ticket_key is Some && task_views(
                tasks@,
            )[j].jira_ticket_key == task_views(tasks@)[n as int].jira_ticket_key,
{
    match &tasks[n].jira_ticket_key {
        None => false,
        Some(key) => {
            let mut j: usize = 0;
            while j < n
                invariant
                    j <= n < tasks@.len(),
                    tasks@[n as int].jira_ticket_key == Some(*key),
                    forall|k: int|
                        0 <= k < j ==> (#[trigger] task_views(tasks@)[k]).jira_ticket_key != Some(
                            key@,
                        ),
                decreases n - j,
            {
                if opt_is(&tasks[j].jira_ticket_key, key) {
                    assert(task_views(tasks@)[j as int].jira_ticket_key == Some(key@));
                    return true;
                }
                j += 1;
            }
            false
        },
    }
}

/// The board's table. Its mathematical value is a `StoreView`.
pub struct TaskStore {
    tasks: Vec<Task>,
    comments: Vec<TaskComment>,
    next_task_id: i64,
    next_comment_id: i64,
    clock: i64,
}

impl View for TaskStore {
    type V = StoreView;

    closed spec fn view(&self) -> StoreView {
        StoreView {
            tasks: task_views(self.tasks@),
            comments: comment_views(self.comments@),
            next_task_id: self.next_task_id,
            next_comment_id: self.next_comment_id,
            clock: self.clock,
        }
    }
}

impl TaskStore {
    /// The table is in order. This holds of every store that `new` made and
    /// the methods below have changed.
    pub open spec fn wf(&self) -> bool {
        self@.wf()
    }

    /// An empty table.
    pub fn new() -> (r: TaskStore)
        ensures
            r.wf(),
            r@ == StoreView::empty(),
    {
        let r = TaskStore {
            tasks: Vec::new(),
            comments: Vec::new(),
            next_task_id: 1,
            next_comment_id: 1,
            clock: i64::MIN,
        };
        assert(r@.tasks =~= Seq::empty());
        assert(r@.comments =~= Seq::empty());
        r
    }

    /// The stamp for a write at `now`.
    fn stamp(&self, now: i64) -> (r: i64)
        ensures
            r == self@.stamp(now),
    {
        if now > self.clock {
            now
        } else {
            self.clock
        }
    }

    /// Where the task with `id` stands.
    fn position_of_id(&self, id: i64) -> (r: Option<usize>)
        requires
            self.wf(),
        ensures
            r is Some <==> self@.has_id(id),
            r matches Some(i) ==> i < self.tasks@.len() && i == self@.index_of_id(id)
                && self.tasks@[i as int].id == id,
    {
        let mut i: usize = 0;
        while i < self.tasks.len()
            invariant
                i <= self.tasks@.len(),
                self.wf(),
                forall|j: int| 0 <= j < i ==> (#[trigger] self@.tasks[j]).id != id,
            decreases self.tasks@.len() - i,
        {
            if self.tasks[i].id == id {
                proof {
                    assert(self@.tasks[i as int].id == id);
                    lemma_index_of_id(self@, i as int);
                }
                return Some(i);
            }
            i += 1;
        }
        None
    }

    /// Where the task with the tracker's `key` stands.
    fn position_of_key(&self, key: &String) -> (r: Option<usize>)
        requires
            self.wf(),
        ensures
            r is Some <==> self@.has_key(key@),
            r matches Some(i) ==> i < self.tasks@.len() && i == self@.index_of_key(key@)
                && self@.tasks[i as int].jira_ticket_key == Some(key@),
    {
        let mut i: usize = 0;
        while i < self.tasks.len()
            invariant
                i <= self.tasks@.len(),
                self.wf(),
                forall|j: int| 0 <= j < i ==> (#[trigger] self@.tasks[j]).jira_ticket_key != Some(
                    key@,
                ),
            decreases self.tasks@.len() - i,
        {
            if opt_is(&self.tasks[i].jira_ticket_key, key) {
                proof {
                    assert(self@.tasks[i as int].jira_ticket_key == Some(key@));
                    lemma_index_of_key(self@, i as int);
                }
                return Some(i);
            }
            i += 1;
        }
        None
    }

    /// How many tasks the table holds.
    pub fn len(&self) -> (r: usize)
        ensures
            r == self@.tasks.len(),
    {
        self.tasks.len()
    }

    /// Puts a new task on the board at `now` and hands back a copy of it.
    ///
    /// The task starts `Pending`, without a stage, and gets the next id.
    /// Nothing is created, and the table stays as it is, when the request
    /// names a parent that is not there or a tracker key that a task already
    /// has, or when no id is left.
    pub fn create_task(&mut self, req: &CreateTaskRequest, now: i64) -> (r: Option<Task>)
        requires
            old(self).wf(),
        ensures
            final(self).wf(),
            final(self)@ == old(self)@.with_created(req@, now),
            r is Some <==> old(self)@.can_create(req@),
            r matches Some(t) ==> t@ == old(self)@.created_row(req@, now),
    {
        if self.next_task_id == i64::MAX {
            return None;
        }
        if let Some(p) = req.parent_task_id {
            if self.position_of_id(p).is_none() {
                return None;
            }
        }
        if let Some(k) = &req.jira_ticket_key {
            if self.position_of_key(k).is_some() {
                return None;
            }
        }
        let stamp = self.stamp(now);
        let task = Task {
            id: self.next_task_id,
            jira_ticket_key: copy_opt(&req.jira_ticket_key),
            title: req.title.clone(),
            description: copy_opt(&req.description),
            status: initial_status(),
            stage: None,
            assignee: copy_opt(&req.assignee),
            project_key: copy_opt(&req.project_key),
            parent_task_id: req.parent_task_id,
            alias: copy_opt(&req.alias),
            tags: None,
            keywords: None,
            start_date: req.start_date,
            due_date: req.due_date,
            jira_url: copy_opt(&req.jira_url),
            created_at: stamp,
            updated_at: stamp,
            is_deleted: false,
        };
        let copy = task.clone();
        self.tasks.push(task);
        self.next_task_id = self.next_task_id + 1;
        self.clock = stamp;
        proof {
            assert(final(self)@.tasks =~= old(self)@.tasks.push(
                old(self)@.created_row(req@, now),
            ));
            lemma_with_created_wf(old(self)@, req@, now);
        }
        Some(copy)
    }

    /// A copy of the task with `id`, if there is one.
    pub fn get_task(&self, id: i64) -> (r: Option<Task>)
        requires
            self.wf(),
        ensures
            r is Some <==> self@.has_id(id),
            r matches Some(t) ==> t@ == self@.tasks[self@.index_of_id(id)],
    {
        match self.position_of_id(id) {
            Some(i) => Some(self.tasks[i].clone()),
            None => None,
        }
    }

    /// A copy of the task that stands for the tracker's ticket `key`, if
    /// there is one.
    pub fn get_task_by_ticket_key(&self, key: &String) -> (r: Option<Task>)
        requires
            self.wf(),
        ensures
            r is Some <==> self@.has_key(key@),
            r matches Some(t) ==> t@ == self@.tasks[self@.index_of_key(key@)],
    {
        match self.position_of_key(key) {
            Some(i) => Some(self.tasks[i].clone()),
            None => None,
        }
    }

    /// The id of the task that stands for the tracker's ticket `key`, if
    /// there is one.
    pub fn id_of_ticket_key(&self, key: &String) -> (r: Option<i64>)
        requires
            self.wf(),
        ensures
            r is Some <==> self@.has_key(key@),
            r matches Some(id) ==> id == self@.tasks[self@.index_of_key(key@)].id,
    {
        match self.position_of_key(key) {
            Some(i) => Some(self.tasks[i].id),
            None => None,
        }
    }

    /// Puts the tracker's `ticket` on the board as a new task under `parent`.
    pub fn create_from_ticket(&mut self, ticket: &JiraTicket, parent: Option<i64>, now: i64) -> (r:
        Option<Task>)
        requires
            old(self).wf(),
        ensures
            final(self).wf(),
            final(self)@ == old(self)@.with_created(ticket_as_new(ticket@, parent), now),
            r is Some <==> old(self)@.can_create(ticket_as_new(ticket@, parent)),
            r matches Some(t) ==> t@ == old(self)@.created_row(ticket_as_new(ticket@, parent), now),
    {
        let req = CreateTaskRequest {
            title: ticket.title.clone(),
            description: copy_opt(&ticket.description),
            jira_ticket_key: Some(ticket.key.clone()),
            assignee: copy_opt(&ticket.assignee),
            project_key: Some(ticket.project_key.clone()),
            parent_task_id: parent,
            alias: None,
            start_date: ticket.start_date,
            due_date: ticket.due_date,
            jira_url: copy_opt(&ticket.jira_url),
        };
        self.create_task(&req, now)
    }

    /// Writes the patch `req` over the task with `id` at `now` and hands back
    /// a copy of the task as it then is. A field the patch names is written;
    /// a field it leaves out keeps its value. Only a patch that itself moves
    /// the task to `Done` or `Pending` leaves it without a stage. Without
    /// such a task nothing changes.
    pub fn update_task(&mut self, id: i64, req: &UpdateTaskRequest, now: i64) -> (r: Option<Task>)
        requires
            old(self).wf(),
        ensures
            final(self).wf(),
            final(self)@ == old(self)@.with_patch(id, req@, now),
            r is Some <==> old(self)@.has_id(id),
            r matches Some(t) ==> t@ == patched_row(
                old(self)@.tasks[old(self)@.index_of_id(id)],
                req@,
                old(self)@.stamp(now),
            ),
    {
        let stamp = self.stamp(now);
        match self.position_of_id(id) {
            Some(i) => {
                apply_patch(&mut self.tasks[i], req, stamp);
                self.clock = stamp;
                proof {
                    assert(final(self)@.tasks =~= old(self)@.tasks.update(
                        i as int,
                        patched_row(old(self)@.tasks[i as int], req@, stamp),
                    ));
                    lemma_with_patch_wf(old(self)@, id, req@, now);
                }
                Some(self.tasks[i].clone())
            },
            None => None,
        }
    }

    /// Moves the task with `id` to the status `req` names, at `now`, and
    /// hands back a copy of the task as it then is. The task gets the stage
    /// `req` asks for, unless the status is `Done` or `Pending`: then it has
    /// none. Without such a task nothing changes.
    pub fn update_task_status(&mut self, id: i64, req: &UpdateStatusRequest, now: i64) -> (r:
        Option<Task>)
        requires
            old(self).wf(),
        ensures
            final(self).wf(),
            final(self)@ == old(self)@.with_status(id, req@, now),
            r is Some <==> old(self)@.has_id(id),
            r matches Some(t) ==> t@ == moved_row(
                old(self)@.tasks[old(self)@.index_of_id(id)],
                req@,
                old(self)@.stamp(now),
            ),
    {
        let stamp = self.stamp(now);
        match self.position_of_id(id) {
            Some(i) => {
                apply_status(&mut self.tasks[i], req, stamp);
                self.clock = stamp;
                proof {
                    assert(final(self)@.tasks =~= old(self)@.tasks.update(
                        i as int,
                        moved_row(old(self)@.tasks[i as int], req@, stamp),
                    ));
                    lemma_with_status_wf(old(self)@, id, req@, now);
                }
                Some(self.tasks[i].clone())
            },
            None => None,
        }
    }

    /// Whether some task names `id` as its parent.
    fn is_parent(&self, id: i64) -> (r: bool)
        ensures
            r == self@.has_child(id),
    {
        let mut i: usize = 0;
        while i < self.tasks.len()
            invariant
                i <= self.tasks@.len(),
                forall|j: int| 0 <= j < i ==> (#[trigger] self@.tasks[j]).parent_task_id != Some(
                    id,
                ),
            decreases self.tasks@.len() - i,
        {
            match self.tasks[i].parent_task_id {
                Some(p) => {
                    if p == id {
                        assert(self@.tasks[i as int].parent_task_id == Some(id));
                        return true;
                    }
                },
                None => {},
            }
            i += 1;
        }
        false
    }

    /// Removes the task with `id`, and its comments with it. A task that
    /// another task names as its parent is not removed. The answer is `true`
    /// when no task with `id` is left, and `false` when the task had to stay.
    pub fn delete_task(&mut self, id: i64) -> (r: bool)
        requires
            old(self).wf(),
        ensures
            final(self).wf(),
            final(self)@ == old(self)@.without_task(id),
            r == !old(self)@.has_child(id),
            r == !final(self)@.has_id(id),
    {
        proof {
            lemma_without_task_wf(self@, id);
        }
        if self.is_parent(id) {
            return false;
        }
        match self.position_of_id(id) {
            Some(i) => {
                self.tasks.remove(i);
                let kept = select(&self.comments, id, false);
                self.comments = kept;
                assert(final(self)@.tasks =~= old(self)@.tasks.remove(i as int));
                true
            },
            None => true,
        }
    }

    /// Leaves a comment on the task `task_id` at `now` and hands back a copy
    /// of it. A request without an author is signed as anonymous; one without
    /// content has empty content. Nothing is written when there is no such
    /// task or no id is left.
    pub fn add_task_comment(&mut self, task_id: i64, req: &CommentRequest, now: i64) -> (r: Option<
        TaskComment,
    >)
        requires
            old(self).wf(),
        ensures
            final(self).wf(),
            final(self)@ == old(self)@.with_comment(task_id, req@, now),
            r is Some <==> old(self)@.can_comment(task_id),
            r matches Some(c) ==> c@ == old(self)@.comment_row(task_id, req@, now),
    {
        if self.next_comment_id == i64::MAX {
            return None;
        }
        if self.position_of_id(task_id).is_none() {
            return None;
        }
        let stamp = self.stamp(now);
        let comment = TaskComment {
            id: self.next_comment_id,
            task_id: task_id,
            author: match &req.author {
                Some(a) => a.clone(),
                None => String::from_str("익명"),
            },
            content: match &req.content {
                Some(c) => c.clone(),
                None => String::new(),
            },
            attachments: copy_opt(&req.attachments),
            created_at: stamp,
        };
        let copy = comment.clone();
        self.comments.push(comment);
        self.next_comment_id = self.next_comment_id + 1;
        self.clock = stamp;
        proof {
            assert(final(self)@.comments =~= old(self)@.comments.push(
                old(self)@.comment_row(task_id, req@, now),
            ));
            lemma_with_comment_wf(old(self)@, task_id, req@, now);
        }
        Some(copy)
    }

    /// Copies of the comments on the task `task_id`, oldest first.
    pub fn list_task_comments(&self, task_id: i64) -> (r: Vec<TaskComment>)
        ensures
            comment_views(r@) == self@.comments_of(task_id),
    {
        select(&self.comments, task_id, true)
    }

    /// Copies of all tasks: those without a parent first, then by parent,
    /// and by id among tasks with the same parent.
    pub fn list_tasks(&self) -> (r: Vec<Task>)
        ensures
            task_views(r@) == listing(self@.tasks),
    {
        let mut r: Vec<Task> = Vec::new();
        let ghost all = self@.tasks;
        let mut i: usize = 0;
        assert(all.take(0) =~= Seq::empty());
        assert(task_views(r@) =~= Seq::empty());
        while i < self.tasks.len()
            invariant
                i <= self.tasks@.len(),
                all == self@.tasks,
                task_views(r@) == listing(all.take(i as int)),
            decreases self.tasks@.len() - i,
        {
            let t = &self.tasks[i];
            let ghost before = task_views(r@);
            proof {
                assert(all.take(i + 1).drop_last() =~= all.take(i as int));
                assert(all.take(i + 1).last() == t@);
                lemma_listing_len(all.take(i as int));
            }
            let mut p: usize = r.len();
            assert(before.take(p as int) =~= before);
            while p > 0 && !stands_before(&r[p - 1], t)
                invariant
                    p <= r@.len(),
                    before == task_views(r@),
                    listing_place(before, t@) == listing_place(before.take(p as int), t@),
                decreases p,
            {
                proof {
                    assert(before.take(p as int).drop_last() =~= before.take(p - 1));
                    assert(before.take(p as int).last() == r@[p - 1]@);
                }
                p -= 1;
            }
            proof {
                if p > 0 {
                    assert(before.take(p as int).last() == r@[p - 1]@);
                }
            }
            r.insert(p, t.clone());
            assert(task_views(r@) =~= before.insert(p as int, t@));
            i += 1;
        }
        assert(all.take(all.len() as int) =~= all);
        r
    }

    /// Writes the tracker's `ticket` into the table at `now`: over the task
    /// that has its key, which then counts as present again and keeps what
    /// the board owns; or else as a new task, under the task that stands for
    /// the ticket's parent if there is one. The answer is `false` when the
    /// ticket could not be written because no id is left.
    pub fn upsert_ticket(&mut self, ticket: &JiraTicket, now: i64) -> (r: bool)
        requires
            old(self).wf(),
        ensures
            final(self).wf(),
            final(self)@ == old(self)@.upserted(ticket@, now),
            r == (old(self)@.has_key(ticket@.key) || old(self)@.next_task_id < i64::MAX),
    {
        let stamp = self.stamp(now);
        proof {
            lemma_upserted_wf(self@, ticket@, now);
        }
        match self.position_of_key(&ticket.key) {
            Some(i) => {
                apply_ticket(&mut self.tasks[i], ticket, stamp);
                self.clock = stamp;
                assert(final(self)@.tasks =~= old(self)@.tasks.update(
                    i as int,
                    refreshed_row(old(self)@.tasks[i as int], ticket@, stamp),
                ));
                true
            },
            None => {
                let parent = match &ticket.parent_key {
                    Some(pk) => self.id_of_ticket_key(pk),
                    None => None,
                };
                proof {
                    if let Some(p) = parent {
                        let k = self@.index_of_key(ticket@.parent_key->0);
                        assert(self@.tasks[k].id == p);
                    }
                }
                self.create_from_ticket(ticket, parent, now).is_some()
            },
        }
    }

    /// Flags, at `now`, every task of `project` that came from the tracker
    /// and whose key `present` does not hold. Tasks of other projects, tasks
    /// made by hand and tasks flagged already stay as they are.
    pub fn mark_missing(&mut self, project: &String, present: &TicketMap, now: i64)
        requires
            old(self).wf(),
            present.wf(),
        ensures
            final(self).wf(),
            final(self)@ == old(self)@.swept(project@, key_set(present@), now),
    {
        let stamp = self.stamp(now);
        let ghost keys = key_set(present@);
        let mut i: usize = 0;
        while i < self.tasks.len()
            invariant
                i <= self.tasks@.len(),
                present.wf(),
                keys == key_set(present@),
                stamp == old(self)@.stamp(now),
                self@.tasks.len() == old(self)@.tasks.len(),
                self@.comments == old(self)@.comments,
                self@.next_task_id == old(self)@.next_task_id,
                self@.next_comment_id == old(self)@.next_comment_id,
                self@.clock == old(self)@.clock,
                forall|j: int|
                    0 <= j < i ==> #[trigger] self@.tasks[j] == swept_row(
                        old(self)@.tasks[j],
                        project@,
                        keys,
                        stamp,
                    ),
                forall|j: int|
                    i <= j < self@.tasks.len() ==> #[trigger] self@.tasks[j] == old(self)@.tasks[j],
            decreases self.tasks@.len() - i,
        {
            let ghost before = self@;
            let t = &self.tasks[i];
            let gone = !t.is_deleted && opt_is(&t.project_key, project) && match &t.jira_ticket_key {
                Some(k) => present.position(k).is_none(),
                None => false,
            };
            assert(gone == vanished(before.tasks[i as int], project@, keys));
            if gone {
                self.tasks[i].is_deleted = true;
                self.tasks[i].updated_at = stamp;
            }
            proof {
                assert forall|j: int| 0 <= j < i + 1 implies #[trigger] self@.tasks[j] == swept_row(
                    old(self)@.tasks[j],
                    project@,
                    keys,
                    stamp,
                ) by {
                    if j < i {
                        assert(self@.tasks[j] == before.tasks[j]);
                    }
                }
                assert forall|j: int| i + 1 <= j < self@.tasks.len() implies #[trigger] self@.tasks[j]
                    == old(self)@.tasks[j] by {
                    assert(self@.tasks[j] == before.tasks[j]);
                }
            }
            i += 1;
        }
        self.clock = stamp;
        proof {
            assert(final(self)@.tasks =~= old(self)@.swept(project@, keys, now).tasks);
            lemma_swept_wf(old(self)@, project@, keys, now);
        }
    }

    /// Copies of all comments, in the order they were written.
    pub fn comments(&self) -> (r: Vec<TaskComment>)
        ensures
            comment_views(r@) == self@.comments,
    {
        let mut r: Vec<TaskComment> = Vec::new();
        let mut i: usize = 0;
        while i < self.comments.len()
            invariant
                i <= self.comments@.len(),
                r@.len() == i,
                forall|j: int| 0 <= j < i ==> (#[trigger] r@[j])@ == self.comments@[j]@,
            decreases self.comments@.len() - i,
        {
            r.push(self.comments[i].clone());
            i += 1;
        }
        assert(comment_views(r@) =~= self@.comments);
        r
    }

    /// The table that holds the saved rows `tasks` and `comments`, if they
    /// make a table that is in order; else nothing. `issued_tasks` and
    /// `issued_comments` are the highest ids that were ever handed out, or 0
    /// if that is not known: the table hands out no id up to them again.
    pub fn restore(
        tasks: Vec<Task>,
        comments: Vec<TaskComment>,
        issued_tasks: i64,
        issued_comments: i64,
    ) -> (r: Option<TaskStore>)
        ensures
            r is Some <==> restorable(
                task_views(tasks@),
                comment_views(comments@),
                issued_tasks,
                issued_comments,
            ),
            r matches Some(s) ==> s.wf() && s@ == restored(
                task_views(tasks@),
                comment_views(comments@),
                issued_tasks,
                issued_comments,
            ),
    {
        let ghost rows = task_views(tasks@);
        let ghost notes = comment_views(comments@);
        let ghost goal = restored(rows, notes, issued_tasks, issued_comments);
        let mut clock: i64 = i64::MIN;
        let mut i: usize = 0;
        assert(rows.take(0) =~= Seq::empty());
        while i < tasks.len()
            invariant
                i <= tasks@.len(),
                rows == task_views(tasks@),
                goal == restored(rows, notes, issued_tasks, issued_comments),
                clock == latest_update(rows.take(i as int)),
                forall|a: int| 0 <= a < i ==> 1 <= (#[trigger] rows[a]).id,
                forall|a: int, b: int|
                    0 <= a < b < i ==> (#[trigger] rows[a]).id < (#[trigger] rows[b]).id,
                forall|a: int, b: int|
                    0 <= a < i && 0 <= b < i && a != b && (#[trigger] rows[a]).jira_ticket_key
                        is Some ==> rows[a].jira_ticket_key != (#[trigger] rows[b]).jira_ticket_key,
                forall|a: int|
                    0 <= a < i ==> ((#[trigger] rows[a]).parent_task_id matches Some(p) ==> p
                        < rows[a].id && goal.has_id(p)),
                forall|a: int| 0 <= a < i ==> (#[trigger] rows[a]).created_at <= rows[a].updated_at,
            decreases tasks@.len() - i,
        {
            let t = &tasks[i];
            proof {
                assert(rows.take(i + 1).drop_last() =~= rows.take(i as int));
                assert(rows.take(i + 1).last() == t@);
                assert(rows[i as int] == t@);
            }
            if t.id < 1 || t.created_at > t.updated_at {
                assert(!goal.task_ok(goal.tasks[i as int])) by {
                    lemma_latest_update(rows, i as int);
                }
                return None;
            }
            if i > 0 && tasks[i - 1].id >= t.id {
                assert(goal.tasks[i - 1].id >= goal.tasks[i as int].id);
                return None;
            }
            match t.parent_task_id {
                Some(p) => {
                    if p >= t.id || !holds_id(&tasks, p) {
                        assert(!goal.task_ok(goal.tasks[i as int]));
                        return None;
                    }
                },
                None => {},
            }
            if key_seen_before(&tasks, i) {
                proof {
                    let j = choose|j: int|
                        0 <= j < i && (#[trigger] rows[j]).jira_ticket_key is Some
                            && rows[j].jira_ticket_key == rows[i as int].jira_ticket_key;
                    assert(goal.tasks[j].jira_ticket_key == goal.tasks[i as int].jira_ticket_key);
                }
                return None;
            }
            if t.updated_at > clock {
                clock = t.updated_at;
            }
            i += 1;
        }
        assert(rows.take(rows.len() as int) =~= rows);
        let last_task: i64 = if tasks.len() == 0 {
            0
        } else {
            tasks[tasks.len() - 1].id
        };
        let top_task: i64 = if last_task > issued_tasks {
            last_task
        } else {
            issued_tasks
        };
        if top_task == i64::MAX {
            return None;
        }
        let next_task_id: i64 = top_task + 1;
        let mut latest: i64 = i64::MIN;
        let mut k: usize = 0;
        assert(notes.take(0) =~= Seq::empty());
        while k < comments.len()
            invariant
                k <= comments@.len(),
                rows == task_views(tasks@),
                notes == comment_views(comments@),
                goal == restored(rows, notes, issued_tasks, issued_comments),
                latest == latest_comment(notes.take(k as int)),
                forall|a: int| 0 <= a < k ==> 1 <= (#[trigger] notes[a]).id && goal.has_id(
                    notes[a].task_id,
                ),
                forall|a: int, b: int|
                    0 <= a < b < k ==> (#[trigger] notes[a]).id < (#[trigger] notes[b]).id
                        && notes[a].created_at <= notes[b].created_at,
            decreases comments@.len() - k,
        {
            let c = &comments[k];
            proof {
                assert(notes.take(k + 1).drop_last() =~= notes.take(k as int));
                assert(notes.take(k + 1).last() == c@);
                assert(notes[k as int] == c@);
            }
            if c.id < 1 || !holds_id(&tasks, c.task_id) {
                assert(!goal.comment_ok(goal.comments[k as int]));
                return None;
            }
            if k > 0 && (comments[k - 1].id >= c.id || comments[k - 1].created_at > c.created_at) {
                assert(goal.comments[k - 1].id >= goal.comments[k as int].id || goal.comments[k
                    - 1].created_at > goal.comments[k as int].created_at);
                return None;
            }
            if c.created_at > latest {
                latest = c.created_at;
            }
            k += 1;
        }
        assert(notes.take(notes.len() as int) =~= notes);
        let last_comment: i64 = if comments.len() == 0 {
            0
        } else {
            comments[comments.len() - 1].id
        };
        let top_comment: i64 = if last_comment > issued_comments {
            last_comment
        } else {
            issued_comments
        };
        if top_comment == i64::MAX {
            return None;
        }
        let next_comment_id: i64 = top_comment + 1;
        let store = TaskStore {
            tasks: tasks,
            comments: comments,
            next_task_id: next_task_id,
            next_comment_id: next_comment_id,
            clock: if clock > latest {
                clock
            } else {
                latest
            },
        };
        proof {
            assert(store@ == goal);
            assert forall|a: int| 0 <= a < goal.tasks.len() implies goal.task_ok(
                #[trigger] goal.tasks[a],
            ) by {
                lemma_latest_update(rows, a);
                if a < rows.len() - 1 {
                    assert(rows[a].id < rows[rows.len() - 1].id);
                }
            }
            assert forall|a: int| 0 <= a < goal.comments.len() implies goal.comment_ok(
                #[trigger] goal.comments[a],
            ) by {
                lemma_latest_comment(notes, a);
                if a < notes.len() - 1 {
                    assert(notes[a].id < notes[notes.len() - 1].id);
                }
            }
        }
        Some(store)
    }
}

} // verus!
