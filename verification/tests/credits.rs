use ai_monitor::credits::{
    credit_remaining_text, expiring, needs_private_credits, next_active_credit_expiry,
    subscription_for_profile, subscription_info, ResetCredit, ResetCredits, Timestamp,
};
use chrono::{DateTime, Utc};

fn at(text: &str) -> Timestamp {
    let time = DateTime::parse_from_rfc3339(text).unwrap().with_timezone(&Utc);
    Timestamp { seconds: time.timestamp(), nanos: time.timestamp_subsec_nanos() }
}

fn plus_days(t: Timestamp, days: i64) -> Timestamp {
    Timestamp { seconds: t.seconds + days * 86_400, nanos: t.nanos }
}

fn credit(id: &str, status: Option<&str>, expires_at: Option<Timestamp>) -> ResetCredit {
    ResetCredit {
        id: Some(id.to_owned()),
        status: status.map(str::to_owned),
        title: None,
        description: None,
        granted_at: None,
        expires_at,
    }
}

#[test]
fn filters_expiring_active_credits() {
    let now = at("2026-08-11T00:00:00Z");
    let credits = ResetCredits {
        available_count: Some(2),
        source: "test".to_owned(),
        credits: Some(vec![
            credit("soon", Some("available"), Some(plus_days(now, 2))),
            credit("used", Some("consumed"), Some(plus_days(now, 1))),
        ]),
    };
    assert_eq!(expiring(&credits, 7, now)[0].id.as_deref(), Some("soon"));
}

#[test]
fn expiring_sorts_by_expiry_and_keeps_the_window_ends() {
    let now = at("2026-08-11T00:00:00Z");
    let credits = ResetCredits {
        available_count: None,
        source: "test".to_owned(),
        credits: Some(vec![
            credit("late", None, Some(plus_days(now, 7))),
            credit("past", Some("ACTIVE"), Some(plus_days(now, -1))),
            credit("now", Some("Active"), Some(now)),
            credit("beyond", Some("available"), Some(Timestamp { seconds: plus_days(now, 7).seconds, nanos: 1 })),
            credit("none", Some("available"), None),
            credit("mid", Some("available"), Some(plus_days(now, 3))),
        ]),
    };
    let ids: Vec<String> = expiring(&credits, 7, now).into_iter().map(|c| c.id.unwrap()).collect();
    assert_eq!(ids, vec!["now", "mid", "late"]);
    let none = ResetCredits { credits: None, ..credits };
    assert!(expiring(&none, 7, now).is_empty());
}

#[test]
fn next_expiry_skips_inactive_and_past_credits() {
    let now = at("2026-08-11T00:00:00Z");
    let credits = ResetCredits {
        available_count: Some(3),
        source: "test".to_owned(),
        credits: Some(vec![
            credit("past", None, Some(plus_days(now, -2))),
            credit("used", Some("used"), Some(plus_days(now, 1))),
            credit("later", Some("available"), Some(plus_days(now, 5))),
            credit("sooner", Some("active"), Some(plus_days(now, 2))),
        ]),
    };
    assert_eq!(next_active_credit_expiry(&credits, now), Some(plus_days(now, 2)));
    let empty = ResetCredits { credits: Some(vec![]), ..credits };
    assert_eq!(next_active_credit_expiry(&empty, now), None);
}

#[test]
fn remaining_time_texts() {
    assert_eq!(credit_remaining_text(None), "remaining N/A");
    assert_eq!(credit_remaining_text(Some(0)), "expired");
    assert_eq!(credit_remaining_text(Some(-5)), "expired");
    assert_eq!(credit_remaining_text(Some(3 * 86_400 + 4 * 3_600 + 5 * 60 + 9)), "remaining 3d 4h 5m");
    assert_eq!(credit_remaining_text(Some(4 * 3_600 + 60)), "remaining 4h 1m");
    assert_eq!(credit_remaining_text(Some(59)), "remaining 0m");
}

#[test]
fn private_lookup_only_when_rows_are_missing() {
    let mut credits = ResetCredits { available_count: None, credits: None, source: "app-server".to_owned() };
    assert!(needs_private_credits(&credits, true));
    assert!(!needs_private_credits(&credits, false));
    credits.available_count = Some(0);
    assert!(!needs_private_credits(&credits, true));
    credits.available_count = Some(2);
    assert!(needs_private_credits(&credits, true));
    credits.credits = Some(vec![]);
    assert!(!needs_private_credits(&credits, true));
}

#[test]
fn subscription_records() {
    let enabled = subscription_info("main", Some("prolite"), true);
    assert_eq!(enabled.plan_display, "Pro 5x");
    assert_eq!(enabled.source, "account-status");
    let disabled = subscription_info("work", None, false);
    assert_eq!(disabled.plan_display, "N/A");
    assert_eq!(disabled.source, "disabled");
    let all = vec![enabled, disabled];
    assert_eq!(subscription_for_profile(&all, "work").unwrap().profile, "work");
    assert!(subscription_for_profile(&all, "other").is_none());
}

fn entry(key: &str, account_id: Option<&str>) -> ai_monitor::credits::AccountEntry {
    ai_monitor::credits::AccountEntry { key: key.to_owned(), account_id: account_id.map(str::to_owned) }
}

#[test]
fn selects_matching_account_then_default_then_first() {
    let entries = vec![entry("default", Some("fallback")), entry("work", Some("target"))];
    assert_eq!(ai_monitor::credits::select_account(&entries, Some("target")), Some(1));
    assert_eq!(ai_monitor::credits::select_account(&entries, Some("missing")), Some(0));
    assert_eq!(ai_monitor::credits::select_account(&entries, None), Some(0));
    let no_default = vec![entry("alpha", None), entry("beta", Some("x"))];
    assert_eq!(ai_monitor::credits::select_account(&no_default, Some("y")), Some(0));
    let later_default = vec![entry("alpha", None), entry("default", None)];
    assert_eq!(ai_monitor::credits::select_account(&later_default, None), Some(1));
    assert_eq!(ai_monitor::credits::select_account(&vec![], Some("x")), None);
}

#[test]
fn expiring_from_a_leap_second() {
    let base = at("2016-12-31T23:59:59Z");
    // 23:59:60.5, as chrono holds it.
    let leap = Timestamp { seconds: base.seconds, nanos: 1_500_000_000 };
    let credits = ResetCredits {
        available_count: None,
        source: "test".to_owned(),
        credits: Some(vec![
            credit("edge-out", None, Some(Timestamp { seconds: base.seconds + 86_400, nanos: 600_000_000 })),
            credit("edge-in", None, Some(Timestamp { seconds: base.seconds + 86_400, nanos: 500_000_000 })),
            credit("before", None, Some(Timestamp { seconds: base.seconds, nanos: 999_999_999 })),
            credit("at", None, Some(leap)),
        ]),
    };
    let ids: Vec<String> = expiring(&credits, 1, leap).into_iter().map(|c| c.id.unwrap()).collect();
    assert_eq!(ids, vec!["at", "edge-in"]);
    let ids: Vec<String> = expiring(&credits, 0, leap).into_iter().map(|c| c.id.unwrap()).collect();
    assert_eq!(ids, vec!["at"]);
}

#[test]
fn expiring_keeps_the_order_of_ties() {
    let now = at("2026-08-11T00:00:00Z");
    let same = plus_days(now, 2);
    let credits = ResetCredits {
        available_count: None,
        source: "test".to_owned(),
        credits: Some(vec![
            credit("b", None, Some(same)),
            credit("first", None, Some(plus_days(now, 1))),
            credit("a", None, Some(same)),
            credit("c", None, Some(same)),
        ]),
    };
    let ids: Vec<String> = expiring(&credits, 7, now).into_iter().map(|c| c.id.unwrap()).collect();
    assert_eq!(ids, vec!["first", "b", "a", "c"]);
}
