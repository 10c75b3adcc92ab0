//! The records that cross the board's boundary, and their mathematical views.
//!
//! Points in time are milliseconds since 1970-01-01T00:00:00Z; calendar dates
//! are whole days since 1970-01-01.

use vstd::prelude::*;
use crate::text::{copy_opt, opt_text};

verus! {

// ---------------------------------------------------------------------------
// Tickets of the upstream tracker
// ---------------------------------------------------------------------------

/// A ticket as the upstream tracker reports it. It is never stored as it is.
#[derive(Debug)]
pub struct JiraTicket {
    pub key: String,
    pub title: String,
    pub description: Option<String>,
    pub jira_status: String,
    pub assignee: Option<String>,
    pub project_key: String,
    pub ticket_type: String,
    pub parent_key: Option<String>,
    pub subtasks: Vec<JiraTicket>,
    pub start_date: Option<i64>,
    pub due_date: Option<i64>,
    pub created_at: i64,
    pub jira_url: Option<String>,
}

/// What a ticket says of itself, without the tickets nested under it.
pub struct TicketView {
    pub key: Seq<char>,
    pub title: Seq<char>,
    pub description: Option<Seq<char>>,
    pub jira_status: Seq<char>,
    pub assignee: Option<Seq<char>>,
    pub project_key: Seq<char>,
    pub ticket_type: Seq<char>,
    pub parent_key: Option<Seq<char>>,
    pub start_date: Option<i64>,
    pub due_date: Option<i64>,
    pub created_at: i64,
    pub jira_url: Option<Seq<char>>,
}

impl View for JiraTicket {
    type V = TicketView;

    open spec fn view(&self) -> TicketView {
        TicketView {
            key: self.key@,
            title: self.title@,
            description: opt_text(self.description),
            jira_status: self.jira_status@,
            assignee: opt_text(self.assignee),
            project_key: self.project_key@,
            ticket_type: self.ticket_type@,
            parent_key: opt_text(self.parent_key),
            start_date: self.start_date,
            due_date: self.due_date,
            created_at: self.created_at,
            jira_url: opt_text(self.jira_url),
        }
    }
}

impl JiraTicket {
    /// A copy of the ticket's own fields, with nothing nested under it.
    pub fn payload(&self) -> (r: JiraTicket)
        ensures
            r@ == self@,
            r.subtasks@.len() == 0,
    {
        JiraTicket {
            key: self.key.clone(),
            title: self.title.clone(),
            description: copy_opt(&self.description),
            jira_status: self.jira_status.clone(),
            assignee: copy_opt(&self.assignee),
            project_key: self.project_key.clone(),
            ticket_type: self.ticket_type.clone(),
            parent_key: copy_opt(&self.parent_key),
            subtasks: Vec::new(),
            start_date: self.start_date,
            due_date: self.due_date,
            created_at: self.created_at,
            jira_url: copy_opt(&self.jira_url),
        }
    }
}

/// `b` is the tree `a`: the same ticket with the same trees nested under it,
/// in the same order.
pub open spec fn same_tree(a: JiraTicket, b: JiraTicket) -> bool
    decreases a,
{
    &&& a@ == b@
    &&& a.subtasks@.len() == b.subtasks@.len()
    &&& forall|i: int|
        0 <= i < a.subtasks@.len() ==> same_tree(#[trigger] a.subtasks@[i], b.subtasks@[i])
}

/// A copy of the tree under `t`.
fn copy_tree(t: &JiraTicket) -> (r: JiraTicket)
    ensures
        same_tree(*t, r),
    decreases t,
{
    let mut r = t.payload();
    let mut i: usize = 0;
    while i < t.subtasks.len()
        invariant
            i <= t.subtasks@.len(),
            r@ == t@,
            r.subtasks@.len() == i,
            forall|j: int| 0 <= j < i ==> same_tree(#[trigger] t.subtasks@[j], r.subtasks@[j]),
        decreases t.subtasks@.len() - i,
    {
        let child = copy_tree(&t.subtasks[i]);
        r.subtasks.push(child);
        i += 1;
    }
    r
}

impl Clone for JiraTicket {
    fn clone(&self) -> (r: JiraTicket)
        ensures
            same_tree(*self, r),
    {
        copy_tree(self)
    }
}

/// The views of a list of tickets, one for one.
pub open spec fn ticket_views(tickets: Seq<JiraTicket>) -> Seq<TicketView> {
    Seq::new(tickets.len(), |i: int| tickets[i]@)
}

// ---------------------------------------------------------------------------
// Tasks of the board
// ---------------------------------------------------------------------------

/// A task on the board. Once created it is the board's own: its status, stage,
/// alias, tags and keywords are set here and never by the tracker.
#[derive(Debug)]
pub struct Task {
    pub id: i64,
    pub jira_ticket_key: Option<String>,
    pub title: String,
    pub description: Option<String>,
    pub status: String,
    pub stage: Option<String>,
    pub assignee: Option<String>,
    pub project_key: Option<String>,
    pub parent_task_id: Option<i64>,
    pub alias: Option<String>,
    pub tags: Option<String>,
    pub keywords: Option<String>,
    pub start_date: Option<i64>,
    pub due_date: Option<i64>,
    pub jira_url: Option<String>,
    pub created_at: i64,
    pub updated_at: i64,
    pub is_deleted: bool,
}

/// A task as a mathematical value.
pub struct TaskView {
    pub id: i64,
    pub jira_ticket_key: Option<Seq<char>>,
    pub title: Seq<char>,
    pub description: Option<Seq<char>>,
    pub status: Seq<char>,
    pub stage: Option<Seq<char>>,
    pub assignee: Option<Seq<char>>,
    pub project_key: Option<Seq<char>>,
    pub parent_task_id: Option<i64>,
    pub alias: Option<Seq<char>>,
    pub tags: Option<Seq<char>>,
    pub keywords: Option<Seq<char>>,
    pub start_date: Option<i64>,
    pub due_date: Option<i64>,
    pub jira_url: Option<Seq<char>>,
    pub created_at: i64,
    pub updated_at: i64,
    pub is_deleted: bool,
}

impl View for Task {
    type V = TaskView;

    open spec fn view(&self) -> TaskView {
        TaskView {
            id: self.id,
            jira_ticket_key: opt_text(self.jira_ticket_key),
            title: self.title@,
            description: opt_text(self.description),
            status: self.status@,
            stage: opt_text(self.stage),
            assignee: opt_text(self.assignee),
            project_key: opt_text(self.project_key),
            parent_task_id: self.parent_task_id,
            alias: opt_text(self.alias),
            tags: opt_text(self.tags),
            keywords: opt_text(self.keywords),
            start_date: self.start_date,
            due_date: self.due_date,
            jira_url: opt_text(self.jira_url),
            created_at: self.created_at,
            updated_at: self.updated_at,
            is_deleted: self.is_deleted,
        }
    }
}

impl Clone for Task {
    fn clone(&self) -> (r: Task)
        ensures
            r@ == self@,
    {
        Task {
            id: self.id,
            jira_ticket_key: copy_opt(&self.jira_ticket_key),
            title: self.title.clone(),
            description: copy_opt(&self.description),
            status: self.status.clone(),
            stage: copy_opt(&self.stage),
            assignee: copy_opt(&self.assignee),
            project_key: copy_opt(&self.project_key),
            parent_task_id: self.parent_task_id,
            alias: copy_opt(&self.alias),
            tags: copy_opt(&self.tags),
            keywords: copy_opt(&self.keywords),
            start_date: self.start_date,
            due_date: self.due_date,
            jira_url: copy_opt(&self.jira_url),
            created_at: self.created_at,
            updated_at: self.updated_at,
            is_deleted: self.is_deleted,
        }
    }
}

/// The views of a list of tasks, one for one.
pub open spec fn task_views(tasks: Seq<Task>) -> Seq<TaskView> {
    Seq::new(tasks.len(), |i: int| tasks[i]@)
}

// ---------------------------------------------------------------------------
// Comments
// ---------------------------------------------------------------------------

/// A remark attached to a task. It never changes once written.
#[derive(Debug)]
pub struct TaskComment {
    pub id: i64,
    pub task_id: i64,
    pub author: String,
    pub content: String,
    pub attachments: Option<String>,
    pub created_at: i64,
}

/// A comment as a mathematical value.
pub struct CommentView {
    pub id: i64,
    pub task_id: i64,
    pub author: Seq<char>,
    pub content: Seq<char>,
    pub attachments: Option<Seq<char>>,
    pub created_at: i64,
}

impl View for TaskComment {
    type V = CommentView;

    open spec fn view(&self) -> CommentView {
        CommentView {
            id: self.id,
            task_id: self.task_id,
            author: self.author@,
            content: self.content@,
            attachments: opt_text(self.attachments),
            created_at: self.created_at,
        }
    }
}

impl Clone for TaskComment {
    fn clone(&self) -> (r: TaskComment)
        ensures
            r@ == self@,
    {
        TaskComment {
            id: self.id,
            task_id: self.task_id,
            author: self.author.clone(),
            content: self.content.clone(),
            attachments: copy_opt(&self.attachments),
            created_at: self.created_at,
        }
    }
}

/// The views of a list of comments, one for one.
pub open spec fn comment_views(comments: Seq<TaskComment>) -> Seq<CommentView> {
    Seq::new(comments.len(), |i: int| comments[i]@)
}

/// What a caller sends to leave a comment. Every field may be missing.
#[derive(Debug)]
pub struct CommentRequest {
    pub author: Option<String>,
    pub content: Option<String>,
    pub attachments: Option<String>,
}

/// A comment request as a mathematical value.
pub struct CommentRequestView {
    pub author: Option<Seq<char>>,
    pub content: Option<Seq<char>>,
    pub attachments: Option<Seq<char>>,
}

impl View for CommentRequest {
    type V = CommentRequestView;

    open spec fn view(&self) -> CommentRequestView {
        CommentRequestView {
            author: opt_text(self.author),
            content: opt_text(self.content),
            attachments: opt_text(self.attachments),
        }
    }
}

// ---------------------------------------------------------------------------
// Requests
// ---------------------------------------------------------------------------

/// A filter for the upstream tracker.
#[derive(Debug)]
pub struct JiraQuery {
    pub project: Option<String>,
    pub user: Option<String>,
    pub start_date: Option<i64>,
    pub end_date: Option<i64>,
    pub query_string: Option<String>,
}

/// A query as a mathematical value.
pub struct QueryView {
    pub project: Option<Seq<char>>,
    pub user: Option<Seq<char>>,
    pub start_date: Option<i64>,
    pub end_date: Option<i64>,
    pub query_string: Option<Seq<char>>,
}

impl Clone for JiraQuery {
    fn clone(&self) -> (r: JiraQuery)
        ensures
            r@ == self@,
    {
        JiraQuery {
            project: copy_opt(&self.project),
            user: copy_opt(&self.user),
            start_date: self.start_date,
            end_date: self.end_date,
            query_string: copy_opt(&self.query_string),
        }
    }
}

impl View for JiraQuery {
    type V = QueryView;

    open spec fn view(&self) -> QueryView {
        QueryView {
            project: opt_text(self.project),
            user: opt_text(self.user),
            start_date: self.start_date,
            end_date: self.end_date,
            query_string: opt_text(self.query_string),
        }
    }
}

/// The tickets a user picked from the backlog to put on the board.
#[derive(Debug)]
pub struct AddToKanbanRequest {
    pub ticket_keys: Vec<String>,
    pub include_subtasks: bool,
}

/// The views of a list of strings, one for one.
pub open spec fn text_views(texts: Seq<String>) -> Seq<Seq<char>> {
    Seq::new(texts.len(), |i: int| texts[i]@)
}

/// What is needed to put a new task on the board.
#[derive(Debug)]
pub struct CreateTaskRequest {
    pub title: String,
    pub description: Option<String>,
    pub jira_ticket_key: Option<String>,
    pub assignee: Option<String>,
    pub project_key: Option<String>,
    pub parent_task_id: Option<i64>,
    pub alias: Option<String>,
    pub start_date: Option<i64>,
    pub due_date: Option<i64>,
    pub jira_url: Option<String>,
}

/// A creation request as a mathematical value.
pub struct CreateTaskView {
    pub title: Seq<char>,
    pub description: Option<Seq<char>>,
    pub jira_ticket_key: Option<Seq<char>>,
    pub assignee: Option<Seq<char>>,
    pub project_key: Option<Seq<char>>,
    pub parent_task_id: Option<i64>,
    pub alias: Option<Seq<char>>,
    pub start_date: Option<i64>,
    pub due_date: Option<i64>,
    pub jira_url: Option<Seq<char>>,
}

impl View for CreateTaskRequest {
    type V = CreateTaskView;

    open spec fn view(&self) -> CreateTaskView {
        CreateTaskView {
            title: self.title@,
            description: opt_text(self.description),
            jira_ticket_key: opt_text(self.jira_ticket_key),
            assignee: opt_text(self.assignee),
            project_key: opt_text(self.project_key),
            parent_task_id: self.parent_task_id,
            alias: opt_text(self.alias),
            start_date: self.start_date,
            due_date: self.due_date,
            jira_url: opt_text(self.jira_url),
        }
    }
}

/// A patch: a field that is `None` keeps the value the task has.
#[derive(Debug)]
pub struct UpdateTaskRequest {
    pub title: Option<String>,
    pub description: Option<String>,
    pub status: Option<String>,
    pub stage: Option<String>,
    pub assignee: Option<String>,
    pub alias: Option<String>,
    pub tags: Option<String>,
    pub keywords: Option<String>,
    pub start_date: Option<i64>,
    pub due_date: Option<i64>,
}

/// A patch as a mathematical value.
pub struct UpdateTaskView {
    pub title: Option<Seq<char>>,
    pub description: Option<Seq<char>>,
    pub status: Option<Seq<char>>,
    pub stage: Option<Seq<char>>,
    pub assignee: Option<Seq<char>>,
    pub alias: Option<Seq<char>>,
    pub tags: Option<Seq<char>>,
    pub keywords: Option<Seq<char>>,
    pub start_date: Option<i64>,
    pub due_date: Option<i64>,
}

impl View for UpdateTaskRequest {
    type V = UpdateTaskView;

    open spec fn view(&self) -> UpdateTaskView {
        UpdateTaskView {
            title: opt_text(self.title),
            description: opt_text(self.description),
            status: opt_text(self.status),
            stage: opt_text(self.stage),
            assignee: opt_text(self.assignee),
            alias: opt_text(self.alias),
            tags: opt_text(self.tags),
            keywords: opt_text(self.keywords),
            start_date: self.start_date,
            due_date: self.due_date,
        }
    }
}

/// A move of a task to another status, with the stage the caller asks for.
#[derive(Debug)]
pub struct UpdateStatusRequest {
    pub status: String,
    pub stage: Option<String>,
}

/// A move to another status as a mathematical value.
pub struct UpdateStatusView {
    pub status: Seq<char>,
    pub stage: Option<Seq<char>>,
}

impl View for UpdateStatusRequest {
    type V = UpdateStatusView;

    open spec fn view(&self) -> UpdateStatusView {
        UpdateStatusView { status: self.status@, stage: opt_text(self.stage) }
    }
}

} // verus!
