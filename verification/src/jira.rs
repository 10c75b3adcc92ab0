//! A stand-in for the upstream tracker. It answers every query from a fixed
//! recipe, so that what it returns depends on the query and on the time of
//! asking alone. The caller reads the clock and says what time it is.

use vstd::prelude::*;
use vstd::string::StringExecFns;
use crate::flatten::{preorder, preorder_upto};
use crate::models::{ticket_views, JiraQuery, JiraTicket, QueryView, TicketView};
use crate::text::{copy_opt, day_number, day_of, decimal, decimal_string, joined};

verus! {

// ---------------------------------------------------------------------------
// The recipe
// ---------------------------------------------------------------------------

/// The address under which the tracker shows the ticket `key`.
pub open spec fn browse_url(key: Seq<char>) -> Seq<char> {
    "https://jira.company.com/browse/"@ + key
}

/// The query that asks for a release with its sub-tasks.
pub open spec fn deployment_query() -> Seq<char> {
    "DEPLOYMENT_QUERY"@
}

/// The `i`-th of the five tickets that every query returns.
pub open spec fn plain_ticket(query: QueryView, i: nat, now: i64) -> TicketView {
    let prefix = match query.project {
        Some(p) => p,
        None => "PROJ"@,
    };
    let key = prefix + "-"@ + decimal(100 + i);
    TicketView {
        key: key,
        title: "Ticket Title "@ + decimal(i),
        description: Some("This is a mock description from JIRA"@),
        jira_status: "To Do"@,
        assignee: query.user,
        project_key: match query.project {
            Some(p) => p,
            None => "DEFAULT"@,
        },
        ticket_type: "Task"@,
        parent_key: None,
        start_date: None,
        due_date: None,
        created_at: now,
        jira_url: Some(browse_url(key)),
    }
}

/// The release ticket: it starts on the day of `now` and is due two weeks
/// later.
pub open spec fn release_ticket(now: i64) -> TicketView {
    TicketView {
        key: "DEP-123"@,
        title: "Release v1.0.0"@,
        description: Some("Deployment ticket for version 1.0.0"@),
        jira_status: "In Progress"@,
        assignee: Some("Lead"@),
        project_key: "DEPLOY"@,
        ticket_type: "Deployment"@,
        parent_key: None,
        start_date: Some(day_of(now)),
        due_date: Some((day_of(now) + 14) as i64),
        created_at: now,
        jira_url: Some(browse_url("DEP-123"@)),
    }
}

/// The `i`-th of the three sub-tasks of the release ticket.
pub open spec fn release_subtask(i: nat, now: i64) -> TicketView {
    let key = "SUB-"@ + decimal(i);
    TicketView {
        key: key,
        title: "Sub-task Implementation "@ + decimal(i),
        description: None,
        jira_status: "Review/Spec"@,
        assignee: None,
        project_key: "DEPLOY"@,
        ticket_type: "Task"@,
        parent_key: Some("DEP-123"@),
        start_date: None,
        due_date: None,
        created_at: now,
        jira_url: Some(browse_url(key)),
    }
}

/// What the tracker answers to `query` at `now`: five plain tickets, and
/// after them, for the deployment query, the release ticket and its three
/// sub-tasks.
pub open spec fn mock_tickets(query: QueryView, now: i64) -> Seq<TicketView> {
    let plain = Seq::new(5, |i: int| plain_ticket(query, (i + 1) as nat, now));
    if query.query_string == Some(deployment_query()) {
        plain + seq![release_ticket(now)] + Seq::new(
            3,
            |i: int| release_subtask((i + 1) as nat, now),
        )
    } else {
        plain
    }
}

/// No ticket of the list has anything nested under it.
pub open spec fn all_flat(tickets: Seq<JiraTicket>) -> bool {
    forall|i: int| 0 <= i < tickets.len() ==> (#[trigger] tickets[i]).subtasks@.len() == 0
}

/// The walk over the first `n` tickets of a list with nothing nested is
/// those tickets.
pub proof fn lemma_flat_preorder_upto(tickets: Seq<JiraTicket>, n: int)
    requires
        all_flat(tickets),
        0 <= n <= tickets.len(),
    ensures
        preorder_upto(tickets, n) == ticket_views(tickets).take(n),
    decreases n,
{
    if n > 0 {
        lemma_flat_preorder_upto(tickets, n - 1);
        assert(tickets[n - 1].subtasks@.len() == 0);
        assert(preorder_upto(tickets[n - 1].subtasks@, 0) =~= Seq::empty());
    }
    assert(preorder_upto(tickets, n) =~= ticket_views(tickets).take(n));
}

/// A list of tickets with nothing nested is its own walk.
pub proof fn lemma_flat_preorder(tickets: Seq<JiraTicket>)
    requires
        all_flat(tickets),
    ensures
        preorder(tickets) == ticket_views(tickets),
{
    lemma_flat_preorder_upto(tickets, tickets.len() as int);
    assert(ticket_views(tickets).take(tickets.len() as int) =~= ticket_views(tickets));
}

// ---------------------------------------------------------------------------
// The client
// ---------------------------------------------------------------------------

/// The connection to the tracker. The stand-in needs none.
pub struct JiraClient {}

fn plain(query: &JiraQuery, i: u32, now: i64) -> (r: JiraTicket)
    requires
        1 <= i <= 5,
    ensures
        r@ == plain_ticket(query@, i as nat, now),
        r.subtasks@.len() == 0,
{
    let mut key = match &query.project {
        Some(p) => p.clone(),
        None => String::from_str("PROJ"),
    };
    key.append("-");
    let number = decimal_string(100 + i);
    key.append(number.as_str());
    let ordinal = decimal_string(i);
    let url = joined("https://jira.company.com/browse/", key.as_str());
    JiraTicket {
        key: key,
        title: joined("Ticket Title ", ordinal.as_str()),
        description: Some(String::from_str("This is a mock description from JIRA")),
        jira_status: String::from_str("To Do"),
        assignee: copy_opt(&query.user),
        project_key: match &query.project {
            Some(p) => p.clone(),
            None => String::from_str("DEFAULT"),
        },
        ticket_type: String::from_str("Task"),
        parent_key: None,
        subtasks: Vec::new(),
        start_date: None,
        due_date: None,
        created_at: now,
        jira_url: Some(url),
    }
}

fn release(now: i64) -> (r: JiraTicket)
    ensures
        r@ == release_ticket(now),
        r.subtasks@.len() == 0,
{
    let day = day_number(now);
    JiraTicket {
        key: String::from_str("DEP-123"),
        title: String::from_str("Release v1.0.0"),
        description: Some(String::from_str("Deployment ticket for version 1.0.0")),
        jira_status: String::from_str("In Progress"),
        assignee: Some(String::from_str("Lead")),
        project_key: String::from_str("DEPLOY"),
        ticket_type: String::from_str("Deployment"),
        parent_key: None,
        subtasks: Vec::new(),
        start_date: Some(day),
        due_date: Some(day + 14),
        created_at: now,
        jira_url: Some(joined("https://jira.company.com/browse/", "DEP-123")),
    }
}

fn subtask(i: u32, now: i64) -> (r: JiraTicket)
    requires
        1 <= i <= 3,
    ensures
        r@ == release_subtask(i as nat, now),
        r.subtasks@.len() == 0,
{
    let ordinal = decimal_string(i);
    let key = joined("SUB-", ordinal.as_str());
    let url = joined("https://jira.company.com/browse/", key.as_str());
    JiraTicket {
        key: key,
        title: joined("Sub-task Implementation ", ordinal.as_str()),
        description: None,
        jira_status: String::from_str("Review/Spec"),
        assignee: None,
        project_key: String::from_str("DEPLOY"),
        ticket_type: String::from_str("Task"),
        parent_key: Some(String::from_str("DEP-123")),
        subtasks: Vec::new(),
        start_date: None,
        due_date: None,
        created_at: now,
        jira_url: Some(url),
    }
}

impl JiraClient {
    /// A client of the stand-in.
    pub fn new() -> (r: JiraClient)
        ensures
            r == (JiraClient {  }),
    {
        JiraClient {  }
    }

    /// What the tracker answers to `query` when asked at `now`.
    pub fn query_tickets(&self, query: &JiraQuery, now: i64) -> (r: Vec<JiraTicket>)
        ensures
            ticket_views(r@) == mock_tickets(query@, now),
            all_flat(r@),
    {
        let mut tickets: Vec<JiraTicket> = Vec::new();
        let ghost five = Seq::new(5, |i: int| plain_ticket(query@, (i + 1) as nat, now));
        let mut i: u32 = 1;
        while i <= 5
            invariant
                1 <= i <= 6,
                tickets@.len() == i - 1,
                all_flat(tickets@),
                forall|j: int|
                    0 <= j < i - 1 ==> (#[trigger] tickets@[j])@ == plain_ticket(
                        query@,
                        (j + 1) as nat,
                        now,
                    ),
            decreases 6 - i,
        {
            tickets.push(plain(query, i, now));
            i += 1;
        }
        assert(ticket_views(tickets@) =~= five);
        let wanted = String::from_str("DEPLOYMENT_QUERY");
        let deployment = match &query.query_string {
            Some(q) => *q == wanted,
            None => false,
        };
        if deployment {
            tickets.push(release(now));
            let mut k: u32 = 1;
            while k <= 3
                invariant
                    1 <= k <= 4,
                    tickets@.len() == 5 + k,
                    all_flat(tickets@),
                    ticket_views(tickets@).take(5) == five,
                    tickets@[5]@ == release_ticket(now),
                    forall|j: int|
                        0 <= j < k - 1 ==> (#[trigger] tickets@[6 + j])@ == release_subtask(
                            (j + 1) as nat,
                            now,
                        ),
                decreases 4 - k,
            {
                let ghost before = ticket_views(tickets@);
                tickets.push(subtask(k, now));
                assert(ticket_views(tickets@).take(5) =~= before.take(5));
                k += 1;
            }
            assert(ticket_views(tickets@) =~= mock_tickets(query@, now)) by {
                let got = ticket_views(tickets@);
                let want = mock_tickets(query@, now);
                assert(got.len() == want.len());
                assert forall|j: int| 0 <= j < got.len() implies got[j] == want[j] by {
                    if j < 5 {
                        assert(got.take(5)[j] == five[j]);
                    } else if j > 5 {
                        assert(tickets@[6 + (j - 6)]@ == release_subtask((j - 6 + 1) as nat, now));
                    }
                }
            }
        }
        tickets
    }
}

} // verus!
