use ai_monitor::model::{BreakdownUsage, Usage};
use ai_monitor::opencode_dashboard::{aggregate_dashboard, DashboardCall, ProjectMetadata};

fn usage(input: u64, output: u64) -> Usage {
    Usage {
        messages: 1,
        input_tokens: input,
        output_tokens: output,
        reasoning_tokens: 0,
        cache_read_tokens: 0,
        cache_write_tokens: 0,
    }
}

fn call(
    session: &str,
    project: &str,
    directory: &str,
    parent: Option<&str>,
    message_agent: Option<&str>,
    session_agent: Option<&str>,
    usage: Usage,
) -> DashboardCall {
    DashboardCall {
        session_id: session.to_owned(),
        project_id: project.to_owned(),
        directory: directory.to_owned(),
        parent_id: parent.map(str::to_owned),
        message_agent: message_agent.map(str::to_owned),
        session_agent: session_agent.map(str::to_owned),
        usage,
    }
}

fn meta(id: &str, name: &str, path: &str) -> ProjectMetadata {
    ProjectMetadata { id: id.to_owned(), name: name.to_owned(), path: path.to_owned() }
}

#[test]
fn dashboard_totals_skip_compaction_and_count_sessions_once() {
    let calls = vec![
        call("s1", "p1", "/work/alpha", None, Some("build"), None, usage(10, 5)),
        call("s1", "p1", "/work/alpha", None, Some("compaction"), None, usage(1000, 1000)),
        call("s2", "p1", "/work/alpha", None, None, Some("plan"), usage(3, 2)),
        call("s1", "p1", "/work/alpha", None, Some("build"), None, usage(1, 1)),
    ];
    let report = aggregate_dashboard(&calls, &vec![]);
    assert_eq!(
        report.totals.usage,
        BreakdownUsage {
            calls: 3,
            sessions: 2,
            input_tokens: 14,
            output_tokens: 8,
            reasoning_tokens: 0,
            cache_read_tokens: 0,
            cache_write_tokens: 0,
        }
    );
    assert_eq!(report.totals.members, vec![0, 2, 3]);
    assert_eq!(report.projects.len(), 1);
    let project = &report.projects[0];
    assert_eq!(project.id, "p1");
    assert_eq!(project.name, "alpha");
    assert_eq!(project.path, "/work/alpha");
    assert_eq!(project.tally.usage.sessions, 2);
    assert_eq!(project.agents.len(), 2);
    assert_eq!(project.agents[0].name, "build");
    assert_eq!(project.agents[0].kind, "agent");
    assert_eq!(project.agents[0].tally.usage.calls, 2);
    assert_eq!(project.agents[0].tally.usage.sessions, 1);
    assert_eq!(project.agents[0].tally.members, vec![0, 3]);
    assert_eq!(project.agents[1].name, "plan");
    assert_eq!(project.agents[1].tally.members, vec![2]);
}

#[test]
fn dashboard_marks_subagents_and_unknown_agents() {
    let calls = vec![
        call("child", "p1", "/w", Some("root"), Some("build"), None, usage(1, 0)),
        call("root", "p1", "/w", None, Some("subagents/review"), None, usage(2, 0)),
        call("root", "p1", "/w", None, None, None, usage(3, 0)),
        call("root", "p1", "/w", None, Some("build"), None, usage(4, 0)),
    ];
    let report = aggregate_dashboard(&calls, &vec![]);
    let agents = &report.projects[0].agents;
    let keys: Vec<(String, String, u64)> = agents
        .iter()
        .map(|a| (a.name.clone(), a.kind.clone(), a.tally.usage.input_tokens))
        .collect();
    assert_eq!(
        keys,
        vec![
            ("build".to_owned(), "agent".to_owned(), 4),
            ("unknown".to_owned(), "agent".to_owned(), 3),
            ("subagents/review".to_owned(), "subagent".to_owned(), 2),
            ("build".to_owned(), "subagent".to_owned(), 1),
        ]
    );
}

#[test]
fn dashboard_ranks_projects_by_active_tokens_then_name() {
    let calls = vec![
        call("a", "p-small", "/w/small", None, Some("build"), None, usage(1, 1)),
        call("b", "p-big", "/w/big", None, Some("build"), None, usage(50, 50)),
        call("c", "p-tie-b", "/w/bravo", None, Some("build"), None, usage(1, 1)),
        call("d", "p-tie-a", "/w/able", None, Some("build"), None, usage(2, 0)),
    ];
    let report = aggregate_dashboard(&calls, &vec![]);
    let names: Vec<String> = report.projects.iter().map(|p| p.name.clone()).collect();
    assert_eq!(names, vec!["big", "able", "bravo", "small"]);
}

#[test]
fn dashboard_uses_last_metadata_row_and_falls_back_to_directory() {
    let calls = vec![
        call("a", "p1", "/session/dir", None, Some("build"), None, usage(5, 0)),
        call("b", "p2", "", None, Some("build"), None, usage(1, 0)),
        call("c", "global", "/elsewhere", None, Some("build"), None, usage(2, 0)),
    ];
    let metadata = vec![
        meta("p1", "Old name", "/old"),
        meta("p1", "  Shiny  ", "/repo/shiny"),
        meta("other", "Other", "/other"),
    ];
    let report = aggregate_dashboard(&calls, &metadata);
    let rows: Vec<(String, String, String)> = report
        .projects
        .iter()
        .map(|p| (p.id.clone(), p.name.clone(), p.path.clone()))
        .collect();
    assert_eq!(
        rows,
        vec![
            ("p1".to_owned(), "Shiny".to_owned(), "/repo/shiny".to_owned()),
            ("global".to_owned(), "global".to_owned(), "/elsewhere".to_owned()),
            ("p2".to_owned(), "unknown".to_owned(), "unknown".to_owned()),
        ]
    );
}

#[test]
fn dashboard_of_no_calls_is_empty() {
    let report = aggregate_dashboard(&vec![], &vec![]);
    assert!(report.projects.is_empty());
    assert_eq!(report.totals.usage.calls, 0);
    assert!(report.totals.members.is_empty());
}

#[test]
fn dashboard_projects_add_up_to_totals() {
    let calls = vec![
        call("a", "p1", "/w/one", None, Some("build"), None, usage(3, 4)),
        call("b", "p2", "/w/two", None, Some("plan"), None, usage(5, 6)),
        call("a", "p1", "/w/one", Some("root"), Some("build"), None, usage(7, 8)),
        call("c", "p3", "/w/three", None, Some("compaction"), None, usage(100, 100)),
        call("d", "p2", "/w/two", None, None, Some("review"), usage(1, 2)),
    ];
    let report = aggregate_dashboard(&calls, &vec![]);
    let input: u64 = report.projects.iter().map(|p| p.tally.usage.input_tokens).sum();
    let output: u64 = report.projects.iter().map(|p| p.tally.usage.output_tokens).sum();
    let counted: u64 = report.projects.iter().map(|p| p.tally.usage.calls).sum();
    assert_eq!(input, report.totals.usage.input_tokens);
    assert_eq!(output, report.totals.usage.output_tokens);
    assert_eq!(counted, report.totals.usage.calls);
    let sessions: u64 = report.projects.iter().map(|p| p.tally.usage.sessions).sum();
    assert_eq!(sessions, report.totals.usage.sessions);
    assert_eq!(report.totals.usage.sessions, 3);
    assert_eq!(report.totals.usage.input_tokens, 16);
    assert_eq!(report.totals.usage.calls, 4);
    // Every counted call belongs to exactly one project and one agent.
    let mut seen = vec![0; calls.len()];
    for project in &report.projects {
        let mut in_agents = 0;
        for agent in &project.agents {
            in_agents += agent.tally.members.len();
        }
        assert_eq!(in_agents, project.tally.members.len());
        for m in &project.tally.members {
            seen[*m] += 1;
        }
    }
    assert_eq!(seen, vec![1, 1, 1, 0, 1]);
}
