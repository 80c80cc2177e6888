use ai_monitor::codex_dashboard::{
    additional_bucket_label_with_name, additional_window_label, compact_group_label,
    compact_window_label, duration_label, format_codex_plan_name, humanize_limit_id,
    limit_group_label, limit_window_label_v2,
};

#[test]
fn formats_known_codex_plan_names() {
    assert_eq!(format_codex_plan_name(Some("prolite")), "Pro 5x");
    assert_eq!(format_codex_plan_name(Some("pro")), "Pro 20x");
    assert_eq!(format_codex_plan_name(Some("plus")), "Plus");
}

#[test]
fn formats_other_plan_names() {
    assert_eq!(format_codex_plan_name(None), "N/A");
    assert_eq!(format_codex_plan_name(Some("   ")), "N/A");
    assert_eq!(format_codex_plan_name(Some(" PLUS ")), "Plus");
    assert_eq!(format_codex_plan_name(Some("Enterprise")), "Enterprise");
    assert_eq!(format_codex_plan_name(Some("self_serve-business--usage")), "Self Serve Business Usage");
    assert_eq!(format_codex_plan_name(Some("édu_x")), "Édu X");
    assert_eq!(format_codex_plan_name(Some("Team-max_ULTRA")), "Team Max Ultra");
}

#[test]
fn additional_bucket_labels() {
    assert_eq!(additional_bucket_label_with_name("base_model_inference", Some("gpt-reserve")), "Reserve");
    assert_eq!(additional_bucket_label_with_name("codex_bengalfox", Some("GPT-5.3-Codex-Spark")), "Spark");
    assert_eq!(additional_bucket_label_with_name("codex_bengalfox", None), "Spark");
    assert_eq!(additional_bucket_label_with_name("base_model_inference", None), "Reserve");
    assert_eq!(additional_bucket_label_with_name("some_long__limit-name", None), "some long ");
    assert_eq!(additional_bucket_label_with_name("x", Some("  a_b  ")), "a b");
}

#[test]
fn additional_window_labels() {
    assert_eq!(additional_window_label("Reserve", Some(10_080), "primary"), "Reserve W");
    assert_eq!(additional_window_label("Spark", Some(300), "primary"), "Spark 5h");
    assert_eq!(additional_window_label("X", Some(2_880), "primary"), "X 2d");
    assert_eq!(additional_window_label("X", Some(120), "primary"), "X 2h");
    assert_eq!(additional_window_label("X", Some(90), "secondary"), "X 90m");
    assert_eq!(additional_window_label("X", None, "primary"), "X P");
    assert_eq!(additional_window_label("X", None, "secondary"), "X S");
}

#[test]
fn additional_buckets_are_grouped_by_product() {
    assert_eq!(limit_group_label(Some("base_model_inference"), Some("gpt-reserve"), "Reserve W"), "LUNA RESERVE");
    assert_eq!(limit_group_label(Some("bengalfox"), Some("gpt-5.3-codex-spark"), "Spark 5h"), "SPARK");
    assert_eq!(limit_group_label(None, None, "primary"), "STANDARD");
    assert_eq!(limit_group_label(Some("team_quota"), None, "x"), "TEAM QUOTA");
    assert_eq!(
        limit_window_label_v2(Some("base_model_inference"), Some(10_080), "Reserve W").as_deref(),
        Some("Weekly")
    );
    assert_eq!(
        limit_window_label_v2(Some("bengalfox"), Some(300), "Spark 5h").as_deref(),
        Some("5 hour")
    );
    assert_eq!(limit_window_label_v2(Some("x"), None, "Spark 5h").as_deref(), Some("Spark 5h"));
    assert_eq!(limit_window_label_v2(None, Some(300), "primary"), None);
    assert_eq!(duration_label(10_080), "Weekly");
    assert_eq!(duration_label(300), "5 hour");
    assert_eq!(duration_label(4_320), "3 day");
    assert_eq!(duration_label(180), "3 hour");
    assert_eq!(duration_label(45), "45 min");
    assert_eq!(compact_window_label(Some(10_080), "Reserve W"), "W");
    assert_eq!(compact_window_label(None, "Reserve W"), "Reserve W");
    assert_eq!(compact_group_label("LUNA RESERVE"), "Reserve");
    assert_eq!(compact_group_label("SPARK"), "Spark");
    assert_eq!(compact_group_label("OTHER"), "OTHER");
    assert_eq!(humanize_limit_id("  a__b--c  d "), "a b c d");
}
