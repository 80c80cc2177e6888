use ai_monitor::model::Usage;
use ai_monitor::opencode::{
    aggregate_usage, day_range, has_columns, project_name, report_scope, resolve_project_id,
    OpenCodeProvider, SessionDirectory, UsageRecord, INDEX_NAME,
};

fn tokens(input: u64, output: u64, reasoning: u64, read: u64, write: u64) -> Usage {
    Usage {
        messages: 1,
        input_tokens: input,
        output_tokens: output,
        reasoning_tokens: reasoning,
        cache_read_tokens: read,
        cache_write_tokens: write,
    }
}

fn record(day: &str, provider: &str, model: &str, usage: Usage) -> UsageRecord {
    UsageRecord { day: day.to_owned(), provider: provider.to_owned(), model: model.to_owned(), usage }
}

#[test]
fn groups_usage_by_day_provider_and_model() {
    let records = vec![
        record("2026-08-11", "openai", "gpt-5", tokens(10, 20, 3, 4, 5)),
        record("2026-08-10", "acme", "sonnet-x", tokens(8, 9, 2, 1, 6)),
        record("2026-08-11", "openai", "gpt-5", tokens(5, 7, 3, 4, 5)),
    ];
    let groups = aggregate_usage(&records);
    assert_eq!(groups.len(), 2);
    assert_eq!(groups[0].day, "2026-08-10");
    assert_eq!(groups[0].provider, "acme");
    assert_eq!(groups[0].usage, tokens(8, 9, 2, 1, 6));
    assert_eq!(groups[0].members, vec![1]);
    assert_eq!(groups[1].provider, "openai");
    assert_eq!(
        groups[1].usage,
        Usage {
            messages: 2,
            input_tokens: 15,
            output_tokens: 27,
            reasoning_tokens: 6,
            cache_read_tokens: 8,
            cache_write_tokens: 10,
        }
    );
    assert_eq!(groups[1].members, vec![0, 2]);
}

#[test]
fn grouping_orders_by_day_then_provider_then_model_and_saturates() {
    let records = vec![
        record("b", "p", "m", tokens(u64::MAX, 1, 0, 0, 0)),
        record("a", "q", "m", tokens(1, 0, 0, 0, 0)),
        record("a", "p", "z", tokens(1, 0, 0, 0, 0)),
        record("a", "p", "m", tokens(1, 0, 0, 0, 0)),
        record("b", "p", "m", tokens(5, 1, 0, 0, 0)),
    ];
    let groups = aggregate_usage(&records);
    let keys: Vec<(String, String, String)> = groups
        .iter()
        .map(|g| (g.day.clone(), g.provider.clone(), g.model.clone()))
        .collect();
    assert_eq!(
        keys,
        vec![
            ("a".into(), "p".into(), "m".into()),
            ("a".into(), "p".into(), "z".into()),
            ("a".into(), "q".into(), "m".into()),
            ("b".into(), "p".into(), "m".into()),
        ]
    );
    assert_eq!(groups[3].usage.input_tokens, u64::MAX);
    assert_eq!(groups[3].usage.output_tokens, 2);
    assert_eq!(groups[3].usage.messages, 2);
    assert!(aggregate_usage(&vec![]).is_empty());
}

fn dir(parts: &[&str]) -> Option<Vec<String>> {
    Some(parts.iter().map(|p| p.to_string()).collect())
}

fn session(project: &str, parts: &[&str]) -> SessionDirectory {
    SessionDirectory { project_id: Some(project.to_owned()), directory: dir(parts) }
}

#[test]
fn resolves_exact_project_then_longest_parent() {
    let rows = vec![
        session("project-root", &["/", "tmp", "repo"]),
        session("project-nested", &["/", "tmp", "repo", "nested"]),
        session("project-nested", &["/", "tmp", "other"]),
        SessionDirectory { project_id: None, directory: dir(&["/", "tmp", "repo"]) },
    ];
    let repo: Vec<String> = vec!["/".into(), "tmp".into(), "repo".into()];
    assert_eq!(resolve_project_id(&rows, &repo).as_deref(), Some("project-root"));
    let child: Vec<String> = vec!["/".into(), "tmp".into(), "repo".into(), "nested".into(), "child".into()];
    assert_eq!(resolve_project_id(&rows, &child).as_deref(), Some("project-nested"));
    let elsewhere: Vec<String> = vec!["/".into(), "var".into()];
    assert_eq!(resolve_project_id(&rows, &elsewhere), None);
}

#[test]
fn project_names() {
    assert_eq!(project_name("p1", "/tmp/repo", "  My Repo "), "My Repo");
    assert_eq!(project_name("global", "/tmp/repo", ""), "global");
    assert_eq!(project_name("p1", "/", ""), "global");
    assert_eq!(project_name("p1", "/tmp/repo/", ""), "repo");
    assert_eq!(project_name("p1", "/tmp/repo/.", ""), "repo");
    assert_eq!(project_name("p1", "/tmp/..", ""), "p1");
    assert_eq!(project_name("p1", "unknown", ""), "unknown");
}

#[test]
fn schema_columns_and_provider() {
    let found: Vec<String> = vec!["id".into(), "project_id".into(), "directory".into(), "title".into()];
    let required: Vec<String> = vec!["id".into(), "project_id".into(), "directory".into()];
    assert!(has_columns(&found, &required));
    let more: Vec<String> = vec!["id".into(), "parent_id".into()];
    assert!(!has_columns(&found, &more));
    assert!(OpenCodeProvider::new().explicit_db_path().is_none());
    let provider = OpenCodeProvider::with_db_path("/tmp/opencode.db".to_owned());
    assert_eq!(provider.explicit_db_path().map(String::as_str), Some("/tmp/opencode.db"));
    assert_eq!(INDEX_NAME, "ai_monitor_message_time_created_idx");
}

#[test]
fn only_assistant_messages_count_and_missing_names_are_unknown() {
    let key = ai_monitor::opencode::assistant_key_of;
    assert_eq!(
        key(Some("assistant"), Some("openai".to_owned()), Some("gpt-5".to_owned())),
        Some(("openai".to_owned(), "gpt-5".to_owned()))
    );
    assert_eq!(key(Some("assistant"), None, None), Some(("unknown".to_owned(), "unknown".to_owned())));
    assert_eq!(key(Some("user"), Some("openai".to_owned()), None), None);
    assert_eq!(key(Some("Assistant"), None, None), None);
    assert_eq!(key(None, None, None), None);
}

#[test]
fn day_range_refuses_zero_days() {
    assert!(day_range(0, 739_000).is_none());
}

#[test]
fn day_range_ends_today() {
    let one = day_range(1, 739_000).unwrap();
    assert_eq!((one.first_day, one.last_day), (739_000, 739_000));
    let week = day_range(7, 739_000).unwrap();
    assert_eq!((week.first_day, week.last_day), (738_994, 739_000));
    let widest = day_range(u32::MAX, i32::MIN).unwrap();
    assert_eq!(widest.first_day, i32::MIN as i64 - (u32::MAX as i64 - 1));
}

#[test]
fn report_scope_names_the_project_or_all() {
    assert_eq!(report_scope(None), "all-projects");
    assert_eq!(report_scope(Some("/work/app".to_owned())), "/work/app");
}
