use kanban_board::flatten::{flatten, flatten_into, TicketMap};
use kanban_board::models::JiraTicket;

fn leaf(key: &str, title: &str) -> JiraTicket {
    JiraTicket {
        key: key.to_string(),
        title: title.to_string(),
        description: None,
        jira_status: "To Do".to_string(),
        assignee: None,
        project_key: "VPC".to_string(),
        ticket_type: "Task".to_string(),
        parent_key: None,
        subtasks: Vec::new(),
        start_date: None,
        due_date: None,
        created_at: 0,
        jira_url: None,
    }
}

fn node(key: &str, title: &str, children: Vec<JiraTicket>) -> JiraTicket {
    let mut t = leaf(key, title);
    t.subtasks = children;
    t
}

fn keys_of(map: &TicketMap) -> Vec<String> {
    (0..map.len()).map(|i| map.entry(i).key.clone()).collect()
}

#[test]
fn flatten_of_nothing_is_empty() {
    let map = flatten(&Vec::new());
    assert_eq!(map.len(), 0);
    assert!(map.get(&"A".to_string()).is_none());
}

#[test]
fn flatten_keeps_every_ticket_of_every_depth() {
    let forest = vec![
        node(
            "A",
            "a",
            vec![node("A1", "a1", vec![leaf("A1x", "deep"), leaf("A1y", "deep too")]), leaf("A2", "a2")],
        ),
        leaf("B", "b"),
    ];
    let map = flatten(&forest);
    assert_eq!(keys_of(&map), vec!["A", "A1", "A1x", "A1y", "A2", "B"]);
    assert_eq!(map.get(&"A1y".to_string()).unwrap().title, "deep too");
    assert!(map.get(&"C".to_string()).is_none());
}

#[test]
fn flatten_drops_what_is_nested_from_each_entry() {
    let forest = vec![node("A", "a", vec![leaf("A1", "a1")])];
    let map = flatten(&forest);
    assert_eq!(map.len(), 2);
    assert_eq!(map.entry(0).subtasks.len(), 0);
    assert_eq!(map.entry(1).subtasks.len(), 0);
    assert_eq!(forest[0].subtasks.len(), 1);
}

#[test]
fn flat_entries_are_handed_out_bare() {
    let mut map = TicketMap::new();
    map.insert(&node("A", "a", vec![node("A1", "a1", vec![leaf("A1x", "deep")])]));
    assert_eq!(map.len(), 1);
    assert_eq!(map.entry(0).subtasks.len(), 0);
    assert_eq!(map.get(&"A".to_string()).unwrap().subtasks.len(), 0);
    map.insert(&node("A", "again", vec![leaf("A2", "a2")]));
    assert_eq!(map.len(), 1);
    assert_eq!(map.get(&"A".to_string()).unwrap().title, "again");
    assert_eq!(map.get(&"A".to_string()).unwrap().subtasks.len(), 0);
}

#[test]
fn flatten_lets_the_last_ticket_with_a_key_win() {
    let forest = vec![
        node("A", "first", vec![leaf("B", "nested b")]),
        leaf("C", "c"),
        leaf("A", "second"),
        node("D", "d", vec![leaf("B", "last b")]),
    ];
    let map = flatten(&forest);
    assert_eq!(keys_of(&map), vec!["A", "B", "C", "D"]);
    assert_eq!(map.get(&"A".to_string()).unwrap().title, "second");
    assert_eq!(map.get(&"B".to_string()).unwrap().title, "last b");
}

#[test]
fn flatten_into_adds_to_what_the_map_holds() {
    let mut map = TicketMap::new();
    map.insert(&leaf("X", "x"));
    map.insert(&leaf("A", "old a"));
    flatten_into(&vec![node("A", "new a", vec![leaf("Y", "y")])], &mut map);
    assert_eq!(keys_of(&map), vec!["X", "A", "Y"]);
    assert_eq!(map.get(&"A".to_string()).unwrap().title, "new a");
    assert_eq!(map.position(&"Y".to_string()), Some(2));
    assert_eq!(map.position(&"Z".to_string()), None);
}

#[test]
fn payload_copies_a_ticket_without_what_is_nested() {
    let mut t = node("A", "a", vec![leaf("A1", "a1")]);
    t.description = Some("text".to_string());
    t.parent_key = Some("P".to_string());
    t.start_date = Some(3);
    t.created_at = 99;
    let p = t.payload();
    assert_eq!(p.key, "A");
    assert_eq!(p.title, "a");
    assert_eq!(p.description, Some("text".to_string()));
    assert_eq!(p.parent_key, Some("P".to_string()));
    assert_eq!(p.project_key, "VPC");
    assert_eq!(p.start_date, Some(3));
    assert_eq!(p.created_at, 99);
    assert_eq!(p.subtasks.len(), 0);
}
