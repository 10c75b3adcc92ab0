use kanban_board::jira::JiraClient;
use kanban_board::models::{AddToKanbanRequest, JiraQuery};
use kanban_board::service::{add_tasks_from_backlog, sync_backlog};
use kanban_board::store::TaskStore;

fn asking(project: Option<&str>) -> JiraQuery {
    JiraQuery {
        project: project.map(|s| s.to_string()),
        user: None,
        start_date: None,
        end_date: None,
        query_string: None,
    }
}

#[test]
fn service_import_from_the_whole_backlog() {
    let mut store = TaskStore::new();
    let jira = JiraClient::new();
    let req = AddToKanbanRequest {
        ticket_keys: vec!["PROJ-102".to_string(), "DEP-123".to_string()],
        include_subtasks: true,
    };
    let first = add_tasks_from_backlog(&mut store, &jira, &req, 1_000);
    assert_eq!(first.created.len(), 1);
    assert_eq!(first.created[0].jira_ticket_key, Some("PROJ-102".to_string()));
    assert_eq!(first.created[0].title, "Ticket Title 2");
    assert_eq!(first.created[0].project_key, Some("DEFAULT".to_string()));
    assert_eq!(first.created[0].created_at, 1_000);
    let second = add_tasks_from_backlog(&mut store, &jira, &req, 2_000);
    assert_eq!(second.created.len(), 0);
    assert_eq!(store.len(), 1);
    assert_eq!(store.get_task(1).unwrap().updated_at, 1_000);
}

#[test]
fn service_sync_mirrors_the_tracker() {
    let mut store = TaskStore::new();
    let jira = JiraClient::new();
    let report = sync_backlog(&mut store, &jira, &asking(Some("VPC")), 10);
    assert_eq!(report.failed.len(), 0);
    assert_eq!(store.len(), 5);
    let first = store.get_task_by_ticket_key(&"VPC-101".to_string()).unwrap();
    assert_eq!(first.title, "Ticket Title 1");
    assert_eq!(first.created_at, 10);
    sync_backlog(&mut store, &jira, &asking(Some("VPC")), 20);
    assert_eq!(store.len(), 5);
    assert_eq!(store.get_task_by_ticket_key(&"VPC-101".to_string()).unwrap().updated_at, 20);
    sync_backlog(&mut store, &jira, &asking(Some("OPS")), 30);
    assert_eq!(store.len(), 10);
    assert!(!store.get_task_by_ticket_key(&"VPC-101".to_string()).unwrap().is_deleted);
    let mut deployment = asking(Some("DEPLOY"));
    deployment.query_string = Some("DEPLOYMENT_QUERY".to_string());
    sync_backlog(&mut store, &jira, &deployment, 40);
    assert_eq!(store.len(), 19);
    let release = store.get_task_by_ticket_key(&"DEP-123".to_string()).unwrap();
    let sub = store.get_task_by_ticket_key(&"SUB-2".to_string()).unwrap();
    assert_eq!(sub.parent_task_id, Some(release.id));
    sync_backlog(&mut store, &jira, &asking(Some("DEPLOY")), 50);
    assert!(store.get_task_by_ticket_key(&"DEP-123".to_string()).unwrap().is_deleted);
    assert!(store.get_task_by_ticket_key(&"SUB-2".to_string()).unwrap().is_deleted);
    assert!(!store.get_task_by_ticket_key(&"DEPLOY-101".to_string()).unwrap().is_deleted);
}
