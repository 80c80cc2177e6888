use ai_monitor::rate_limits::{additional_bucket_order, limit_window_fields, BucketKey};

fn bucket(id: &str, name: Option<&str>) -> BucketKey {
    BucketKey { limit_id: id.to_owned(), limit_name: name.map(str::to_owned) }
}

#[test]
fn additional_buckets_skip_codex_and_order_by_label() {
    // Keys in the order a JSON object yields them.
    let buckets = vec![
        bucket("base_model_inference", Some("gpt-reserve")),
        bucket("codex", None),
        bucket("codex_bengalfox", Some("GPT-5.3-Codex-Spark")),
    ];
    assert_eq!(additional_bucket_order(&buckets), vec![0, 2]);
}

#[test]
fn additional_bucket_ties_fall_back_to_limit_id() {
    let buckets = vec![
        bucket("zeta_spark", None),
        bucket("alpha", Some("Team Quota")),
        bucket("codex", Some("ignored")),
        bucket("beta_spark", None),
    ];
    // Labels: "Spark", "Team Quota", "Spark"; "Spark" < "Team Quota", and the
    // two Spark buckets are ordered by id.
    assert_eq!(additional_bucket_order(&buckets), vec![3, 0, 1]);
    assert_eq!(additional_bucket_order(&vec![]), Vec::<usize>::new());
    assert_eq!(additional_bucket_order(&vec![bucket("codex", None)]), Vec::<usize>::new());
}

#[test]
fn names_standard_and_additional_windows() {
    let standard = limit_window_fields(None, None, Some(300), "primary");
    assert_eq!(standard.name, "primary");
    assert_eq!(standard.window_minutes, Some(300));
    assert_eq!(standard.source_window_minutes, None);

    let reserve = limit_window_fields(Some("base_model_inference"), Some("gpt-reserve"), Some(10_080), "secondary");
    assert_eq!(reserve.name, "Reserve W");
    assert_eq!(reserve.window_minutes, None);
    assert_eq!(reserve.source_window_minutes, Some(10_080));

    let spark = limit_window_fields(Some("codex_bengalfox"), Some("GPT-5.3-Codex-Spark"), Some(300), "primary");
    assert_eq!(spark.name, "Spark 5h");

    let unknown = limit_window_fields(Some("team_quota_bucket"), None, None, "secondary");
    assert_eq!(unknown.name, "team quota S");
    assert_eq!(unknown.source_window_minutes, None);
}
