use kanban_board::models::{
    CommentRequest, CreateTaskRequest, Task, TaskComment, UpdateStatusRequest, UpdateTaskRequest,
};
use kanban_board::status::{initial_status, resolve_stage, status_clears_stage};
use kanban_board::store::TaskStore;

fn request(title: &str) -> CreateTaskRequest {
    CreateTaskRequest {
        title: title.to_string(),
        description: None,
        jira_ticket_key: None,
        assignee: None,
        project_key: None,
        parent_task_id: None,
        alias: None,
        start_date: None,
        due_date: None,
        jira_url: None,
    }
}

fn child_request(title: &str, parent: i64) -> CreateTaskRequest {
    let mut req = request(title);
    req.parent_task_id = Some(parent);
    req
}

fn keyed_request(title: &str, key: &str) -> CreateTaskRequest {
    let mut req = request(title);
    req.jira_ticket_key = Some(key.to_string());
    req
}

fn empty_patch() -> UpdateTaskRequest {
    UpdateTaskRequest {
        title: None,
        description: None,
        status: None,
        stage: None,
        assignee: None,
        alias: None,
        tags: None,
        keywords: None,
        start_date: None,
        due_date: None,
    }
}

fn move_to(status: &str, stage: Option<&str>) -> UpdateStatusRequest {
    UpdateStatusRequest { status: status.to_string(), stage: stage.map(|s| s.to_string()) }
}

fn comment(author: Option<&str>, content: Option<&str>) -> CommentRequest {
    CommentRequest {
        author: author.map(|s| s.to_string()),
        content: content.map(|s| s.to_string()),
        attachments: None,
    }
}

fn saved_task(id: i64, parent: Option<i64>, key: Option<&str>) -> Task {
    Task {
        id,
        jira_ticket_key: key.map(|s| s.to_string()),
        title: format!("task {}", id),
        description: None,
        status: "Pending".to_string(),
        stage: None,
        assignee: None,
        project_key: None,
        parent_task_id: parent,
        alias: None,
        tags: None,
        keywords: None,
        start_date: None,
        due_date: None,
        jira_url: None,
        created_at: 10,
        updated_at: 20,
        is_deleted: false,
    }
}

fn saved_comment(id: i64, task_id: i64, created_at: i64) -> TaskComment {
    TaskComment {
        id,
        task_id,
        author: "ann".to_string(),
        content: "hello".to_string(),
        attachments: None,
        created_at,
    }
}

#[test]
fn create_assigns_rising_ids_and_starts_pending() {
    let mut store = TaskStore::new();
    let a = store.create_task(&request("first"), 1_000).unwrap();
    let b = store.create_task(&request("second"), 2_000).unwrap();
    assert_eq!(a.id, 1);
    assert_eq!(b.id, 2);
    assert_eq!(a.title, "first");
    assert_eq!(a.status, "Pending");
    assert_eq!(a.stage, None);
    assert_eq!(a.created_at, 1_000);
    assert_eq!(a.updated_at, 1_000);
    assert_eq!(b.updated_at, 2_000);
    assert!(!a.is_deleted);
    assert_eq!(store.len(), 2);
}

#[test]
fn create_copies_every_field_of_the_request() {
    let mut store = TaskStore::new();
    let req = CreateTaskRequest {
        title: "t".to_string(),
        description: Some("d".to_string()),
        jira_ticket_key: Some("K-1".to_string()),
        assignee: Some("ann".to_string()),
        project_key: Some("K".to_string()),
        parent_task_id: None,
        alias: Some("al".to_string()),
        start_date: Some(19_000),
        due_date: Some(19_014),
        jira_url: Some("http://x/K-1".to_string()),
    };
    let t = store.create_task(&req, 5).unwrap();
    assert_eq!(t.description, Some("d".to_string()));
    assert_eq!(t.jira_ticket_key, Some("K-1".to_string()));
    assert_eq!(t.assignee, Some("ann".to_string()));
    assert_eq!(t.project_key, Some("K".to_string()));
    assert_eq!(t.alias, Some("al".to_string()));
    assert_eq!(t.tags, None);
    assert_eq!(t.keywords, None);
    assert_eq!(t.start_date, Some(19_000));
    assert_eq!(t.due_date, Some(19_014));
    assert_eq!(t.jira_url, Some("http://x/K-1".to_string()));
}

#[test]
fn create_refuses_a_parent_that_is_not_there() {
    let mut store = TaskStore::new();
    store.create_task(&request("root"), 1).unwrap();
    assert!(store.create_task(&child_request("orphan", 7), 2).is_none());
    assert_eq!(store.len(), 1);
    let child = store.create_task(&child_request("child", 1), 3).unwrap();
    assert_eq!(child.parent_task_id, Some(1));
}

#[test]
fn create_refuses_a_tracker_key_that_is_taken() {
    let mut store = TaskStore::new();
    assert!(store.create_task(&keyed_request("a", "K-1"), 1).is_some());
    assert!(store.create_task(&keyed_request("b", "K-1"), 2).is_none());
    assert!(store.create_task(&keyed_request("c", "K-2"), 3).is_some());
    assert_eq!(store.len(), 2);
}

#[test]
fn create_fails_when_no_id_is_left() {
    let last = saved_task(i64::MAX - 1, None, None);
    let mut store = TaskStore::restore(vec![last], vec![], 0, 0).unwrap();
    assert!(store.create_task(&request("one too many"), 30).is_none());
    assert_eq!(store.len(), 1);
}

#[test]
fn stamps_never_go_back() {
    let mut store = TaskStore::new();
    let a = store.create_task(&request("a"), 5_000).unwrap();
    let b = store.create_task(&request("b"), 4_000).unwrap();
    assert_eq!(a.created_at, 5_000);
    assert_eq!(b.created_at, 5_000);
    let moved = store.update_task_status(a.id, &move_to("Done", None), 3_000).unwrap();
    assert_eq!(moved.updated_at, 5_000);
    assert_eq!(moved.created_at, 5_000);
    let later = store.update_task_status(a.id, &move_to("Pending", None), 6_000).unwrap();
    assert_eq!(later.updated_at, 6_000);
    assert_eq!(later.created_at, 5_000);
}

#[test]
fn get_task_finds_by_id_and_by_tracker_key() {
    let mut store = TaskStore::new();
    store.create_task(&request("plain"), 1).unwrap();
    store.create_task(&keyed_request("keyed", "K-9"), 2).unwrap();
    assert_eq!(store.get_task(1).unwrap().title, "plain");
    assert_eq!(store.get_task(2).unwrap().title, "keyed");
    assert!(store.get_task(3).is_none());
    assert_eq!(store.get_task_by_ticket_key(&"K-9".to_string()).unwrap().id, 2);
    assert!(store.get_task_by_ticket_key(&"K-8".to_string()).is_none());
    assert_eq!(store.id_of_ticket_key(&"K-9".to_string()), Some(2));
    assert_eq!(store.id_of_ticket_key(&"nope".to_string()), None);
}

#[test]
fn patch_keeps_the_fields_it_leaves_out() {
    let mut store = TaskStore::new();
    let mut req = request("old title");
    req.description = Some("old text".to_string());
    req.alias = Some("old alias".to_string());
    store.create_task(&req, 10).unwrap();
    let mut patch = empty_patch();
    patch.title = Some("new title".to_string());
    patch.tags = Some("a,b".to_string());
    patch.due_date = Some(19_700);
    let t = store.update_task(1, &patch, 20).unwrap();
    assert_eq!(t.title, "new title");
    assert_eq!(t.description, Some("old text".to_string()));
    assert_eq!(t.alias, Some("old alias".to_string()));
    assert_eq!(t.tags, Some("a,b".to_string()));
    assert_eq!(t.due_date, Some(19_700));
    assert_eq!(t.start_date, None);
    assert_eq!(t.status, "Pending");
    assert_eq!(t.created_at, 10);
    assert_eq!(t.updated_at, 20);
    assert_eq!(store.get_task(1).unwrap().title, "new title");
    assert!(store.update_task(2, &patch, 30).is_none());
}

#[test]
fn patch_to_done_drops_the_stage() {
    let mut store = TaskStore::new();
    store.create_task(&request("t"), 1).unwrap();
    store.update_task_status(1, &move_to("InProgress", Some("review")), 2).unwrap();
    let mut patch = empty_patch();
    patch.status = Some("Done".to_string());
    patch.stage = Some("verification".to_string());
    let t = store.update_task(1, &patch, 3).unwrap();
    assert_eq!(t.status, "Done");
    assert_eq!(t.stage, None);
}

#[test]
fn patch_writes_the_stage_it_names_whatever_the_status() {
    let mut store = TaskStore::new();
    store.create_task(&request("t"), 1).unwrap();
    let mut patch = empty_patch();
    patch.stage = Some("development".to_string());
    let t = store.update_task(1, &patch, 2).unwrap();
    assert_eq!(t.status, "Pending");
    assert_eq!(t.stage, Some("development".to_string()));
    store.update_task_status(1, &move_to("Done", None), 3).unwrap();
    assert_eq!(store.get_task(1).unwrap().stage, None);
    let t = store.update_task(1, &patch, 4).unwrap();
    assert_eq!(t.status, "Done");
    assert_eq!(t.stage, Some("development".to_string()));
    let t = store.update_task(1, &empty_patch(), 5).unwrap();
    assert_eq!(t.stage, Some("development".to_string()));
}

#[test]
fn patch_of_the_status_keeps_the_stage_in_progress() {
    let mut store = TaskStore::new();
    store.create_task(&request("t"), 1).unwrap();
    let mut patch = empty_patch();
    patch.status = Some("InProgress".to_string());
    patch.stage = Some("review".to_string());
    let t = store.update_task(1, &patch, 2).unwrap();
    assert_eq!(t.status, "InProgress");
    assert_eq!(t.stage, Some("review".to_string()));
    let mut back = empty_patch();
    back.status = Some("Pending".to_string());
    let t = store.update_task(1, &back, 3).unwrap();
    assert_eq!(t.status, "Pending");
    assert_eq!(t.stage, None);
}

#[test]
fn move_to_done_clears_any_stage() {
    let mut store = TaskStore::new();
    store.create_task(&request("t"), 1).unwrap();
    let t = store.update_task_status(1, &move_to("InProgress", Some("spec-review")), 2).unwrap();
    assert_eq!(t.status, "InProgress");
    assert_eq!(t.stage, Some("spec-review".to_string()));
    let t = store.update_task_status(1, &move_to("InProgress", Some("development")), 3).unwrap();
    assert_eq!(t.stage, Some("development".to_string()));
    let t = store.update_task_status(1, &move_to("Done", Some("review")), 4).unwrap();
    assert_eq!(t.status, "Done");
    assert_eq!(t.stage, None);
    let t = store.update_task_status(1, &move_to("InProgress", Some("review")), 5).unwrap();
    assert_eq!(t.stage, Some("review".to_string()));
    let t = store.update_task_status(1, &move_to("Pending", Some("review")), 6).unwrap();
    assert_eq!(t.status, "Pending");
    assert_eq!(t.stage, None);
    assert!(store.update_task_status(9, &move_to("Done", None), 7).is_none());
}

#[test]
fn stage_rule_on_plain_values() {
    assert_eq!(initial_status(), "Pending");
    assert!(status_clears_stage(&"Done".to_string()));
    assert!(status_clears_stage(&"Pending".to_string()));
    assert!(!status_clears_stage(&"InProgress".to_string()));
    assert!(!status_clears_stage(&"done".to_string()));
    let asked = Some("review".to_string());
    assert_eq!(resolve_stage(&"Done".to_string(), &asked), None);
    assert_eq!(resolve_stage(&"Pending".to_string(), &asked), None);
    assert_eq!(resolve_stage(&"InProgress".to_string(), &asked), asked);
    assert_eq!(resolve_stage(&"InProgress".to_string(), &None), None);
}

#[test]
fn delete_removes_the_task_and_its_comments() {
    let mut store = TaskStore::new();
    store.create_task(&request("a"), 1).unwrap();
    store.create_task(&request("b"), 2).unwrap();
    store.add_task_comment(1, &comment(Some("ann"), Some("on a")), 3).unwrap();
    store.add_task_comment(2, &comment(Some("bob"), Some("on b")), 4).unwrap();
    store.add_task_comment(1, &comment(Some("cy"), Some("on a too")), 5).unwrap();
    assert!(store.delete_task(1));
    assert!(store.get_task(1).is_none());
    assert_eq!(store.len(), 1);
    assert_eq!(store.list_task_comments(1).len(), 0);
    let left = store.list_task_comments(2);
    assert_eq!(left.len(), 1);
    assert_eq!(left[0].content, "on b");
    assert_eq!(store.comments().len(), 1);
}

#[test]
fn delete_of_a_missing_task_changes_nothing() {
    let mut store = TaskStore::new();
    store.create_task(&request("a"), 1).unwrap();
    assert!(store.delete_task(5));
    assert_eq!(store.len(), 1);
}

#[test]
fn delete_leaves_a_task_that_has_children() {
    let mut store = TaskStore::new();
    store.create_task(&request("parent"), 1).unwrap();
    store.create_task(&child_request("child", 1), 2).unwrap();
    assert!(!store.delete_task(1));
    assert_eq!(store.len(), 2);
    assert!(store.delete_task(2));
    assert!(store.delete_task(1));
    assert_eq!(store.len(), 0);
}

#[test]
fn ids_are_not_handed_out_twice_after_a_delete() {
    let mut store = TaskStore::new();
    store.create_task(&request("a"), 1).unwrap();
    store.create_task(&request("b"), 2).unwrap();
    assert!(store.delete_task(2));
    let c = store.create_task(&request("c"), 3).unwrap();
    assert_eq!(c.id, 3);
}

#[test]
fn comment_defaults_author_and_content() {
    let mut store = TaskStore::new();
    store.create_task(&request("a"), 1).unwrap();
    let c = store.add_task_comment(1, &comment(None, None), 50).unwrap();
    assert_eq!(c.id, 1);
    assert_eq!(c.task_id, 1);
    assert_eq!(c.author, "익명");
    assert_eq!(c.content, "");
    assert_eq!(c.attachments, None);
    assert_eq!(c.created_at, 50);
    let mut req = comment(Some("ann"), Some("text"));
    req.attachments = Some("[\"a.png\"]".to_string());
    let d = store.add_task_comment(1, &req, 60).unwrap();
    assert_eq!(d.id, 2);
    assert_eq!(d.author, "ann");
    assert_eq!(d.content, "text");
    assert_eq!(d.attachments, Some("[\"a.png\"]".to_string()));
}

#[test]
fn comment_on_a_missing_task_is_refused() {
    let mut store = TaskStore::new();
    assert!(store.add_task_comment(1, &comment(Some("ann"), Some("x")), 1).is_none());
    assert_eq!(store.comments().len(), 0);
}

#[test]
fn comments_are_listed_oldest_first_per_task() {
    let mut store = TaskStore::new();
    store.create_task(&request("a"), 1).unwrap();
    store.create_task(&request("b"), 2).unwrap();
    store.add_task_comment(1, &comment(Some("x"), Some("one")), 10).unwrap();
    store.add_task_comment(2, &comment(Some("y"), Some("two")), 11).unwrap();
    store.add_task_comment(1, &comment(Some("z"), Some("three")), 9).unwrap();
    let on_a = store.list_task_comments(1);
    assert_eq!(on_a.len(), 2);
    assert_eq!(on_a[0].content, "one");
    assert_eq!(on_a[1].content, "three");
    assert!(on_a[0].created_at <= on_a[1].created_at);
    assert_eq!(on_a[1].created_at, 11);
    assert_eq!(store.list_task_comments(3).len(), 0);
}

#[test]
fn listing_puts_parentless_first_then_by_parent_then_by_id() {
    let mut store = TaskStore::new();
    store.create_task(&request("1"), 1).unwrap();
    store.create_task(&child_request("2", 1), 1).unwrap();
    store.create_task(&request("3"), 1).unwrap();
    store.create_task(&child_request("4", 2), 1).unwrap();
    store.create_task(&child_request("5", 1), 1).unwrap();
    store.create_task(&child_request("6", 3), 1).unwrap();
    let ids: Vec<i64> = store.list_tasks().iter().map(|t| t.id).collect();
    assert_eq!(ids, vec![1, 3, 2, 5, 4, 6]);
}

#[test]
fn listing_of_an_empty_table_is_empty() {
    assert_eq!(TaskStore::new().list_tasks().len(), 0);
}

#[test]
fn restore_takes_rows_that_are_in_order() {
    let tasks = vec![saved_task(2, None, Some("K-1")), saved_task(5, Some(2), None)];
    let comments = vec![saved_comment(1, 2, 15), saved_comment(4, 5, 40)];
    let mut store = TaskStore::restore(tasks, comments, 0, 0).unwrap();
    assert_eq!(store.len(), 2);
    assert_eq!(store.comments().len(), 2);
    let next = store.create_task(&request("next"), 0).unwrap();
    assert_eq!(next.id, 6);
    assert_eq!(next.created_at, 40);
    let c = store.add_task_comment(2, &comment(None, None), 41).unwrap();
    assert_eq!(c.id, 5);
}

#[test]
fn restore_keeps_a_task_that_is_done_with_a_stage() {
    let mut kept = saved_task(1, None, None);
    kept.status = "Done".to_string();
    kept.stage = Some("review".to_string());
    let store = TaskStore::restore(vec![kept], vec![], 0, 0).unwrap();
    assert_eq!(store.get_task(1).unwrap().stage, Some("review".to_string()));
}

#[test]
fn restore_hands_out_no_id_that_was_handed_out_before() {
    let tasks = vec![saved_task(1, None, None), saved_task(2, None, None)];
    let comments = vec![saved_comment(1, 1, 15)];
    let mut store = TaskStore::restore(tasks, comments, 7, 3).unwrap();
    assert_eq!(store.create_task(&request("next"), 50).unwrap().id, 8);
    assert_eq!(store.add_task_comment(1, &comment(None, None), 51).unwrap().id, 4);
    let mut low = TaskStore::restore(vec![saved_task(5, None, None)], vec![], 2, -9).unwrap();
    assert_eq!(low.create_task(&request("next"), 50).unwrap().id, 6);
    assert_eq!(low.add_task_comment(5, &comment(None, None), 51).unwrap().id, 1);
    let mut empty = TaskStore::restore(vec![], vec![], 4, 0).unwrap();
    assert_eq!(empty.create_task(&request("first"), 1).unwrap().id, 5);
}

#[test]
fn restore_refuses_rows_that_are_out_of_order() {
    assert!(TaskStore::restore(vec![saved_task(2, None, None), saved_task(1, None, None)], vec![], 0, 0)
        .is_none());
    assert!(TaskStore::restore(vec![saved_task(1, None, None), saved_task(1, None, None)], vec![], 0, 0)
        .is_none());
    assert!(TaskStore::restore(vec![saved_task(0, None, None)], vec![], 0, 0).is_none());
    assert!(TaskStore::restore(vec![saved_task(1, Some(9), None)], vec![], 0, 0).is_none());
    assert!(TaskStore::restore(vec![saved_task(1, Some(1), None)], vec![], 0, 0).is_none());
    assert!(TaskStore::restore(
        vec![saved_task(1, None, Some("K")), saved_task(2, None, Some("K"))],
        vec![],
        0,
        0
    )
    .is_none());
    let mut backwards = saved_task(1, None, None);
    backwards.created_at = 30;
    assert!(TaskStore::restore(vec![backwards], vec![], 0, 0).is_none());
    assert!(TaskStore::restore(vec![saved_task(i64::MAX, None, None)], vec![], 0, 0).is_none());
    assert!(TaskStore::restore(vec![saved_task(1, None, None)], vec![saved_comment(1, 2, 5)], 0, 0)
        .is_none());
    assert!(TaskStore::restore(
        vec![saved_task(1, None, None)],
        vec![saved_comment(2, 1, 5), saved_comment(1, 1, 6)],
        0,
        0
    )
    .is_none());
    assert!(TaskStore::restore(
        vec![saved_task(1, None, None)],
        vec![saved_comment(1, 1, 6), saved_comment(2, 1, 5)],
        0,
        0
    )
    .is_none());
    assert!(TaskStore::restore(vec![saved_task(1, None, None)], vec![], i64::MAX, 0).is_none());
    assert!(TaskStore::restore(vec![saved_task(1, None, None)], vec![], 0, i64::MAX).is_none());
    assert!(TaskStore::restore(vec![], vec![], 0, 0).is_some());
}
