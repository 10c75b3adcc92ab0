use kanban_board::models::{
    AddToKanbanRequest, CreateTaskRequest, JiraTicket, Task, UpdateStatusRequest, UpdateTaskRequest,
};
use kanban_board::reconcile::{full_sync, import_tickets};
use kanban_board::store::TaskStore;

fn ticket(key: &str, project: &str, kind: &str, parent: Option<&str>) -> JiraTicket {
    JiraTicket {
        key: key.to_string(),
        title: format!("title of {}", key),
        description: Some(format!("text of {}", key)),
        jira_status: "To Do".to_string(),
        assignee: Some("ann".to_string()),
        project_key: project.to_string(),
        ticket_type: kind.to_string(),
        parent_key: parent.map(|s| s.to_string()),
        subtasks: Vec::new(),
        start_date: Some(19_000),
        due_date: Some(19_014),
        created_at: 1,
        jira_url: Some(format!("https://tracker/browse/{}", key)),
    }
}

fn story_with_children() -> Vec<JiraTicket> {
    let mut story = ticket("VPC-101", "VPC", "Story", None);
    story.subtasks = vec![
        ticket("VPC-201", "VPC", "Task", Some("VPC-101")),
        ticket("VPC-202", "VPC", "Task", Some("VPC-101")),
    ];
    vec![story, ticket("VPC-102", "VPC", "Bug", None)]
}

fn pick(keys: &[&str], include_subtasks: bool) -> AddToKanbanRequest {
    AddToKanbanRequest {
        ticket_keys: keys.iter().map(|s| s.to_string()).collect(),
        include_subtasks,
    }
}

fn by_key(store: &TaskStore, key: &str) -> Task {
    store.get_task_by_ticket_key(&key.to_string()).unwrap()
}

fn manual(title: &str, project: Option<&str>) -> CreateTaskRequest {
    CreateTaskRequest {
        title: title.to_string(),
        description: None,
        jira_ticket_key: None,
        assignee: None,
        project_key: project.map(|s| s.to_string()),
        parent_task_id: None,
        alias: None,
        start_date: None,
        due_date: None,
        jira_url: None,
    }
}

fn alias_patch(alias: &str) -> UpdateTaskRequest {
    UpdateTaskRequest {
        title: None,
        description: None,
        status: None,
        stage: None,
        assignee: None,
        alias: Some(alias.to_string()),
        tags: None,
        keywords: None,
        start_date: None,
        due_date: None,
    }
}

/// Every field of every row but the stamp of the last change.
fn content(store: &TaskStore) -> Vec<String> {
    store
        .list_tasks()
        .iter()
        .map(|t| {
            format!(
                "{} {:?} {} {:?} {} {:?} {:?} {:?} {:?} {:?} {:?} {:?} {:?} {:?} {:?} {} {}",
                t.id,
                t.jira_ticket_key,
                t.title,
                t.description,
                t.status,
                t.stage,
                t.assignee,
                t.project_key,
                t.parent_task_id,
                t.alias,
                t.tags,
                t.keywords,
                t.start_date,
                t.due_date,
                t.jira_url,
                t.created_at,
                t.is_deleted
            )
        })
        .collect()
}

// -- import ------------------------------------------------------------------

#[test]
fn import_story_with_children_then_again() {
    let mut store = TaskStore::new();
    let fetched = story_with_children();
    let first = import_tickets(&mut store, &fetched, &pick(&["VPC-101"], true), 100);
    assert_eq!(first.created.len(), 3);
    assert_eq!(first.failed.len(), 0);
    let story = &first.created[0];
    assert_eq!(story.jira_ticket_key, Some("VPC-101".to_string()));
    assert_eq!(story.parent_task_id, None);
    assert_eq!(first.created[1].jira_ticket_key, Some("VPC-201".to_string()));
    assert_eq!(first.created[2].jira_ticket_key, Some("VPC-202".to_string()));
    assert_eq!(first.created[1].parent_task_id, Some(story.id));
    assert_eq!(first.created[2].parent_task_id, Some(story.id));
    assert_eq!(store.len(), 3);
    let second = import_tickets(&mut store, &fetched, &pick(&["VPC-101"], true), 200);
    assert_eq!(second.created.len(), 0);
    assert_eq!(second.failed.len(), 0);
    assert_eq!(store.len(), 3);
}

#[test]
fn import_fills_the_task_from_the_ticket() {
    let mut store = TaskStore::new();
    let report = import_tickets(&mut store, &story_with_children(), &pick(&["VPC-102"], false), 42);
    assert_eq!(report.created.len(), 1);
    let t = &report.created[0];
    assert_eq!(t.id, 1);
    assert_eq!(t.jira_ticket_key, Some("VPC-102".to_string()));
    assert_eq!(t.title, "title of VPC-102");
    assert_eq!(t.description, Some("text of VPC-102".to_string()));
    assert_eq!(t.status, "Pending");
    assert_eq!(t.stage, None);
    assert_eq!(t.assignee, Some("ann".to_string()));
    assert_eq!(t.project_key, Some("VPC".to_string()));
    assert_eq!(t.parent_task_id, None);
    assert_eq!(t.alias, None);
    assert_eq!(t.start_date, Some(19_000));
    assert_eq!(t.due_date, Some(19_014));
    assert_eq!(t.jira_url, Some("https://tracker/browse/VPC-102".to_string()));
    assert_eq!(t.created_at, 42);
    assert_eq!(t.updated_at, 42);
    assert!(!t.is_deleted);
}

#[test]
fn import_same_key_twice_creates_one_row() {
    let mut store = TaskStore::new();
    let fetched = story_with_children();
    let first = import_tickets(&mut store, &fetched, &pick(&["VPC-102"], false), 1);
    assert_eq!(first.created.len(), 1);
    let second = import_tickets(&mut store, &fetched, &pick(&["VPC-102"], false), 2);
    assert_eq!(second.created.len(), 0);
    assert_eq!(store.len(), 1);
    let twice_in_one = import_tickets(&mut store, &fetched, &pick(&["VPC-101", "VPC-101"], false), 3);
    assert_eq!(twice_in_one.created.len(), 1);
    assert_eq!(store.len(), 2);
}

#[test]
fn import_without_children_leaves_them_out() {
    let mut store = TaskStore::new();
    let report = import_tickets(&mut store, &story_with_children(), &pick(&["VPC-101"], false), 1);
    assert_eq!(report.created.len(), 1);
    assert!(store.get_task_by_ticket_key(&"VPC-201".to_string()).is_none());
}

#[test]
fn import_skips_keys_the_fetch_does_not_hold() {
    let mut store = TaskStore::new();
    let report =
        import_tickets(&mut store, &story_with_children(), &pick(&["NOPE-1", "VPC-102"], true), 1);
    assert_eq!(report.created.len(), 1);
    assert_eq!(report.failed.len(), 0);
    assert_eq!(report.created[0].jira_ticket_key, Some("VPC-102".to_string()));
}

#[test]
fn import_of_a_nested_key_has_no_parent() {
    let mut store = TaskStore::new();
    let report = import_tickets(&mut store, &story_with_children(), &pick(&["VPC-201"], true), 1);
    assert_eq!(report.created.len(), 1);
    assert_eq!(report.created[0].parent_task_id, None);
}

#[test]
fn import_hangs_new_children_under_a_parent_that_was_there() {
    let mut store = TaskStore::new();
    let fetched = story_with_children();
    store.create_task(&manual("by hand", None), 1).unwrap();
    import_tickets(&mut store, &fetched, &pick(&["VPC-101", "VPC-201"], false), 2);
    let story_id = by_key(&store, "VPC-101").id;
    assert_eq!(story_id, 2);
    let report = import_tickets(&mut store, &fetched, &pick(&["VPC-101"], true), 3);
    assert_eq!(report.created.len(), 1);
    assert_eq!(report.created[0].jira_ticket_key, Some("VPC-202".to_string()));
    assert_eq!(report.created[0].parent_task_id, Some(story_id));
    assert_eq!(by_key(&store, "VPC-201").parent_task_id, None);
}

#[test]
fn import_finds_children_that_only_name_their_parent() {
    let mut store = TaskStore::new();
    let fetched = vec![
        ticket("SUB-1", "DEPLOY", "Task", Some("DEP-123")),
        ticket("DEP-123", "DEPLOY", "Deployment", None),
        ticket("SUB-2", "DEPLOY", "Task", Some("DEP-123")),
        ticket("OTHER-1", "DEPLOY", "Task", Some("DEP-999")),
    ];
    let report = import_tickets(&mut store, &fetched, &pick(&["DEP-123"], true), 1);
    let keys: Vec<Option<String>> =
        report.created.iter().map(|t| t.jira_ticket_key.clone()).collect();
    assert_eq!(
        keys,
        vec![Some("DEP-123".to_string()), Some("SUB-1".to_string()), Some("SUB-2".to_string())]
    );
    assert_eq!(report.created[1].parent_task_id, Some(report.created[0].id));
    assert_eq!(report.created[2].parent_task_id, Some(report.created[0].id));
}

#[test]
fn import_leaves_flags_alone() {
    let mut store = TaskStore::new();
    let fetched = story_with_children();
    import_tickets(&mut store, &fetched, &pick(&["VPC-102"], false), 1);
    full_sync(&mut store, &vec![], &Some("VPC".to_string()), 2);
    assert!(by_key(&store, "VPC-102").is_deleted);
    let report = import_tickets(&mut store, &fetched, &pick(&["VPC-102"], false), 3);
    assert_eq!(report.created.len(), 0);
    assert!(by_key(&store, "VPC-102").is_deleted);
}

#[test]
fn import_reports_what_it_cannot_write() {
    let last = Task {
        id: i64::MAX - 1,
        jira_ticket_key: Some("VPC-102".to_string()),
        title: "last".to_string(),
        description: None,
        status: "Pending".to_string(),
        stage: None,
        assignee: None,
        project_key: None,
        parent_task_id: None,
        alias: None,
        tags: None,
        keywords: None,
        start_date: None,
        due_date: None,
        jira_url: None,
        created_at: 1,
        updated_at: 1,
        is_deleted: false,
    };
    let mut store = TaskStore::restore(vec![last], vec![], 0, 0).unwrap();
    let report =
        import_tickets(&mut store, &story_with_children(), &pick(&["VPC-102", "VPC-101"], true), 5);
    assert_eq!(report.created.len(), 0);
    assert_eq!(report.failed, vec!["VPC-101".to_string()]);
    assert_eq!(store.len(), 1);
}

#[test]
fn import_with_children_names_the_parent_among_many() {
    let mut store = TaskStore::new();
    let fetched = vec![
        ticket("B-1", "P", "Task", Some("B")),
        ticket("A", "P", "Story", None),
        ticket("A-1", "P", "Task", Some("A")),
        ticket("B", "P", "Story", None),
        ticket("A-2", "P", "Task", Some("A")),
        ticket("C-1", "P", "Task", Some("C")),
    ];
    let report = import_tickets(&mut store, &fetched, &pick(&["B", "A"], true), 1);
    assert_eq!(report.created.len(), 5);
    let a = by_key(&store, "A").id;
    let b = by_key(&store, "B").id;
    assert_eq!(by_key(&store, "A-1").parent_task_id, Some(a));
    assert_eq!(by_key(&store, "A-2").parent_task_id, Some(a));
    assert_eq!(by_key(&store, "B-1").parent_task_id, Some(b));
    assert!(store.get_task_by_ticket_key(&"C-1".to_string()).is_none());
    let ids: Vec<i64> = report.created.iter().map(|t| t.id).collect();
    assert_eq!(ids, vec![1, 2, 3, 4, 5]);
}

// -- full sync ---------------------------------------------------------------

#[test]
fn sync_leaves_one_row_per_key_of_the_fetch() {
    let mut store = TaskStore::new();
    let mut fetched = story_with_children();
    fetched.push(ticket("VPC-201", "VPC", "Task", Some("VPC-101")));
    let first = full_sync(&mut store, &fetched, &Some("VPC".to_string()), 10);
    assert_eq!(first.failed.len(), 0);
    assert_eq!(store.len(), 4);
    let ids_before: Vec<(i64, Option<String>)> =
        store.list_tasks().iter().map(|t| (t.id, t.jira_ticket_key.clone())).collect();
    let second = full_sync(&mut store, &fetched, &Some("VPC".to_string()), 20);
    assert_eq!(second.failed.len(), 0);
    let ids_after: Vec<(i64, Option<String>)> =
        store.list_tasks().iter().map(|t| (t.id, t.jira_ticket_key.clone())).collect();
    assert_eq!(ids_after, ids_before);
    for key in ["VPC-101", "VPC-102", "VPC-201", "VPC-202"] {
        let rows = store
            .list_tasks()
            .iter()
            .filter(|t| t.jira_ticket_key.as_deref() == Some(key))
            .count();
        assert_eq!(rows, 1);
    }
}


#[test]
fn sync_inserts_every_ticket_nested_or_not() {
    let mut store = TaskStore::new();
    let report = full_sync(&mut store, &story_with_children(), &Some("VPC".to_string()), 10);
    assert_eq!(report.failed.len(), 0);
    assert_eq!(store.len(), 4);
    let story = by_key(&store, "VPC-101");
    assert_eq!(story.parent_task_id, None);
    assert_eq!(by_key(&store, "VPC-201").parent_task_id, Some(story.id));
    assert_eq!(by_key(&store, "VPC-202").parent_task_id, Some(story.id));
    assert_eq!(by_key(&store, "VPC-102").status, "Pending");
    assert!(!by_key(&store, "VPC-102").is_deleted);
}

#[test]
fn sync_twice_with_the_same_fetch_changes_nothing_but_stamps() {
    let mut store = TaskStore::new();
    store.create_task(&manual("by hand", Some("VPC")), 1).unwrap();
    let old = vec![ticket("VPC-7", "VPC", "Task", None)];
    full_sync(&mut store, &old, &Some("VPC".to_string()), 2);
    let fetched = story_with_children();
    full_sync(&mut store, &fetched, &Some("VPC".to_string()), 10);
    let after_first = content(&store);
    assert_eq!(store.len(), 6);
    full_sync(&mut store, &fetched, &Some("VPC".to_string()), 20);
    assert_eq!(content(&store), after_first);
    assert_eq!(store.len(), 6);
    assert_eq!(by_key(&store, "VPC-101").updated_at, 20);
    assert_eq!(by_key(&store, "VPC-7").updated_at, 10);
    assert!(by_key(&store, "VPC-7").is_deleted);
}

#[test]
fn sync_updates_the_title_and_keeps_what_the_board_owns() {
    let mut store = TaskStore::new();
    full_sync(&mut store, &vec![ticket("VPC-1", "VPC", "Task", None)], &Some("VPC".to_string()), 10);
    let before = by_key(&store, "VPC-1");
    store.update_task(before.id, &alias_patch("my alias"), 11).unwrap();
    let change = UpdateStatusRequest {
        status: "InProgress".to_string(),
        stage: Some("development".to_string()),
    };
    store.update_task_status(before.id, &change, 12).unwrap();
    let mut renamed = ticket("VPC-1", "VPC", "Task", None);
    renamed.title = "a new title".to_string();
    full_sync(&mut store, &vec![renamed], &Some("VPC".to_string()), 20);
    let after = by_key(&store, "VPC-1");
    assert_eq!(after.title, "a new title");
    assert_eq!(after.updated_at, 20);
    assert_eq!(after.id, before.id);
    assert_eq!(after.created_at, before.created_at);
    assert_eq!(after.alias, Some("my alias".to_string()));
    assert_eq!(after.status, "InProgress");
    assert_eq!(after.stage, Some("development".to_string()));
    assert_eq!(after.description, before.description);
    assert_eq!(store.len(), 1);
}

#[test]
fn sync_flags_what_vanished_in_its_own_project_only() {
    let mut store = TaskStore::new();
    let first = vec![
        ticket("A", "P", "Task", None),
        ticket("B", "P", "Task", None),
        ticket("C", "P", "Task", None),
    ];
    full_sync(&mut store, &first, &Some("P".to_string()), 10);
    full_sync(&mut store, &vec![ticket("D", "Q", "Task", None)], &Some("Q".to_string()), 11);
    let by_hand = store.create_task(&manual("by hand", Some("P")), 12).unwrap();
    assert!(!by_key(&store, "A").is_deleted);
    let d_before = by_key(&store, "D");
    let second = vec![ticket("A", "P", "Task", None), ticket("C", "P", "Task", None)];
    full_sync(&mut store, &second, &Some("P".to_string()), 20);
    assert!(!by_key(&store, "A").is_deleted);
    assert!(by_key(&store, "B").is_deleted);
    assert!(!by_key(&store, "C").is_deleted);
    assert_eq!(by_key(&store, "B").updated_at, 20);
    let d_after = by_key(&store, "D");
    assert!(!d_after.is_deleted);
    assert_eq!(d_after.updated_at, d_before.updated_at);
    let hand_after = store.get_task(by_hand.id).unwrap();
    assert!(!hand_after.is_deleted);
    assert_eq!(hand_after.updated_at, 12);
    assert_eq!(store.len(), 5);
}

#[test]
fn sync_brings_back_what_reappears() {
    let mut store = TaskStore::new();
    let a = vec![ticket("A", "P", "Task", None)];
    full_sync(&mut store, &a, &Some("P".to_string()), 10);
    full_sync(&mut store, &vec![], &Some("P".to_string()), 20);
    assert!(by_key(&store, "A").is_deleted);
    full_sync(&mut store, &a, &Some("P".to_string()), 30);
    let back = by_key(&store, "A");
    assert!(!back.is_deleted);
    assert_eq!(back.id, 1);
    assert_eq!(back.created_at, 10);
    assert_eq!(store.len(), 1);
}

#[test]
fn sync_without_a_project_flags_nothing() {
    let mut store = TaskStore::new();
    full_sync(&mut store, &vec![ticket("A", "P", "Task", None)], &None, 10);
    full_sync(&mut store, &vec![ticket("B", "P", "Task", None)], &None, 20);
    assert!(!by_key(&store, "A").is_deleted);
    assert!(!by_key(&store, "B").is_deleted);
    assert_eq!(by_key(&store, "A").updated_at, 10);
}

#[test]
fn sync_does_not_flag_twice() {
    let mut store = TaskStore::new();
    full_sync(&mut store, &vec![ticket("A", "P", "Task", None)], &Some("P".to_string()), 10);
    full_sync(&mut store, &vec![], &Some("P".to_string()), 20);
    full_sync(&mut store, &vec![], &Some("P".to_string()), 30);
    let a = by_key(&store, "A");
    assert!(a.is_deleted);
    assert_eq!(a.updated_at, 20);
}

#[test]
fn sync_goes_on_past_a_ticket_it_cannot_write() {
    let last = Task {
        id: i64::MAX - 1,
        jira_ticket_key: Some("B".to_string()),
        title: "old b".to_string(),
        description: None,
        status: "Pending".to_string(),
        stage: None,
        assignee: None,
        project_key: Some("P".to_string()),
        parent_task_id: None,
        alias: None,
        tags: None,
        keywords: None,
        start_date: None,
        due_date: None,
        jira_url: None,
        created_at: 1,
        updated_at: 1,
        is_deleted: true,
    };
    let mut store = TaskStore::restore(vec![last], vec![], 0, 0).unwrap();
    let fetched = vec![
        ticket("A", "P", "Task", None),
        ticket("B", "P", "Task", None),
        ticket("C", "P", "Task", None),
    ];
    let report = full_sync(&mut store, &fetched, &Some("P".to_string()), 10);
    assert_eq!(report.failed, vec!["A".to_string(), "C".to_string()]);
    assert_eq!(store.len(), 1);
    let b = by_key(&store, "B");
    assert_eq!(b.title, "title of B");
    assert!(!b.is_deleted);
}

#[test]
fn upsert_and_sweep_one_at_a_time() {
    let mut store = TaskStore::new();
    assert!(store.upsert_ticket(&ticket("A", "P", "Task", None), 1));
    assert!(store.upsert_ticket(&ticket("A1", "P", "Task", Some("A")), 2));
    assert!(store.upsert_ticket(&ticket("Z1", "P", "Task", Some("Z")), 3));
    assert_eq!(by_key(&store, "A1").parent_task_id, Some(1));
    assert_eq!(by_key(&store, "Z1").parent_task_id, None);
    let present = kanban_board::flatten::flatten(&vec![ticket("A", "P", "Task", None)]);
    store.mark_missing(&"P".to_string(), &present, 4);
    assert!(!by_key(&store, "A").is_deleted);
    assert!(by_key(&store, "A1").is_deleted);
    assert!(by_key(&store, "Z1").is_deleted);
}
