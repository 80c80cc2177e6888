use ai_monitor::credits::{subscription_info, ResetCredit, ResetCredits};
use ai_monitor::dashboard_view::{
    account_line, account_status, card_credit_note, card_marker, credit_badge,
    credit_index_label, credit_listing, dashboard_scope, details_line, group_headings,
    header_subscription, is_selected, limit_row_layout, overview_marker, overview_shows_quota,
    ui_width, unavailable_message, wide_layout, AccountFacts, AccountStatus, CardCreditNote,
    CreditBadge, CreditListing, LimitRowLayout, NO_ACCOUNTS_LINE, NO_LIMITS_LINE,
};

fn row() -> ResetCredit {
    ResetCredit {
        id: None,
        status: None,
        title: None,
        description: None,
        granted_at: None,
        expires_at: None,
    }
}

fn credits(available_count: Option<u64>, rows: Option<usize>) -> ResetCredits {
    ResetCredits {
        available_count,
        credits: rows.map(|n| (0..n).map(|_| row()).collect()),
        source: "app-server".to_owned(),
    }
}

#[test]
fn account_statuses() {
    assert_eq!(account_status(true, false), AccountStatus::Ready);
    assert_eq!(account_status(false, true), AccountStatus::Error);
    assert_eq!(account_status(false, false), AccountStatus::Login);
    assert_eq!(unavailable_message(true, Some("boom")), "boom");
    assert_eq!(unavailable_message(true, None), "Codex app-server unavailable");
    assert_eq!(unavailable_message(false, Some("boom")), "Not logged in");
}

#[test]
fn credit_badges_follow_the_status() {
    assert_eq!(credit_badge(Some("Available")), CreditBadge::Available);
    assert_eq!(credit_badge(Some("ACTIVE")), CreditBadge::Available);
    assert_eq!(credit_badge(Some("was_expired")), CreditBadge::Expired);
    assert_eq!(credit_badge(Some("Consumed")), CreditBadge::Used);
    assert_eq!(credit_badge(Some("used")), CreditBadge::Used);
    assert_eq!(credit_badge(Some("pending_grant")), CreditBadge::Pending);
    assert_eq!(credit_badge(Some("available soon")), CreditBadge::Unknown);
    assert_eq!(credit_badge(None), CreditBadge::Unknown);
    assert_eq!(credit_badge(Some("expired")).label(), "EXPIRED");
    assert_eq!(CreditBadge::Available.label(), "AVAILABLE");
}

#[test]
fn card_notes_under_the_credit_summary() {
    assert_eq!(card_credit_note(&credits(Some(2), Some(2)), true, None), CardCreditNote::Rows);
    assert_eq!(card_credit_note(&credits(Some(2), Some(0)), true, None), CardCreditNote::DetailsUnavailable);
    assert_eq!(card_credit_note(&credits(Some(0), Some(0)), true, None), CardCreditNote::Nothing);
    assert_eq!(card_credit_note(&credits(None, Some(0)), true, None), CardCreditNote::Nothing);
    assert_eq!(
        card_credit_note(&credits(Some(1), None), true, Some("private credit lookup failed")),
        CardCreditNote::Hint("private credit lookup failed".to_owned())
    );
    assert_eq!(
        card_credit_note(&credits(Some(1), None), true, None),
        CardCreditNote::Hint("Private credit detail lookup failed or returned no rows".to_owned())
    );
    assert_eq!(
        card_credit_note(&credits(Some(1), None), false, None),
        CardCreditNote::Hint("Private credit lookup disabled by --no-private-api".to_owned())
    );
}

#[test]
fn credit_listing_of_the_credits_command() {
    assert_eq!(credit_listing(&credits(Some(1), Some(1))), CreditListing::Rows);
    assert_eq!(credit_listing(&credits(Some(3), Some(0))), CreditListing::LifecycleUnavailable);
    assert_eq!(credit_listing(&credits(Some(0), Some(0))), CreditListing::NoneAvailable);
    assert_eq!(credit_listing(&credits(Some(3), None)), CreditListing::RowsUnavailable);
}

#[test]
fn header_plan_is_the_selected_one_or_the_only_one() {
    let subs = vec![
        subscription_info("main", Some("plus"), false),
        subscription_info("work", Some("pro"), false),
    ];
    assert_eq!(header_subscription(&subs, Some("work")).unwrap().plan_display, "Pro 20x");
    assert!(header_subscription(&subs, Some("other")).is_none());
    assert!(header_subscription(&subs, None).is_none());
    let one = vec![subscription_info("main", Some("plus"), false)];
    assert_eq!(header_subscription(&one, Some("other")).unwrap().profile, "main");
    assert_eq!(header_subscription(&one, None).unwrap().plan_display, "Plus");
}

#[test]
fn card_width_is_clamped() {
    assert_eq!(ui_width(None), 96);
    assert_eq!(ui_width(Some(80)), 76);
    assert_eq!(ui_width(Some(20)), 36);
    assert_eq!(ui_width(Some(2)), 36);
    assert_eq!(ui_width(Some(300)), 100);
}

#[test]
fn dashboard_scope_names_the_selection() {
    assert_eq!(dashboard_scope(Some("work")), "selected: work");
    assert_eq!(dashboard_scope(None), "all accounts");
}

#[test]
fn account_line_counts_ready_and_low_accounts() {
    let accounts = vec![
        AccountFacts { ready: true, low: false },
        AccountFacts { ready: true, low: true },
        AccountFacts { ready: false, low: false },
    ];
    assert_eq!(
        account_line(&accounts, None),
        " Accounts: 3 total · 2 ready · 1 low · all accounts"
    );
    assert_eq!(
        account_line(&Vec::new(), Some("work")),
        " Accounts: 0 total · 0 ready · 0 low · selected: work"
    );
}

#[test]
fn group_headings_mark_each_change_of_group() {
    let groups: Vec<String> = ["STANDARD", "STANDARD", "SPARK", "STANDARD"]
        .iter()
        .map(|g| g.to_string())
        .collect();
    assert_eq!(group_headings(&groups), vec![true, false, true, true]);
    assert_eq!(group_headings(&Vec::new()), Vec::<bool>::new());
}

#[test]
fn layout_follows_the_card_width() {
    assert!(wide_layout(86));
    assert!(!wide_layout(85));
    assert!(overview_shows_quota(60));
    assert!(!overview_shows_quota(59));
    assert_eq!(limit_row_layout(100), LimitRowLayout::OneLine { bar_width: 18 });
    assert_eq!(limit_row_layout(88), LimitRowLayout::OneLine { bar_width: 18 });
    assert_eq!(limit_row_layout(87), LimitRowLayout::OneLine { bar_width: 12 });
    assert_eq!(limit_row_layout(72), LimitRowLayout::OneLine { bar_width: 12 });
    assert_eq!(limit_row_layout(71), LimitRowLayout::TwoLines { bar_width: 16 });
    assert_eq!(limit_row_layout(36), LimitRowLayout::TwoLines { bar_width: 12 });
    assert_eq!(limit_row_layout(10), LimitRowLayout::TwoLines { bar_width: 8 });
}

#[test]
fn selected_profile_is_marked() {
    assert!(is_selected(Some("work"), "work"));
    assert!(!is_selected(Some("work"), "home"));
    assert!(!is_selected(None, "work"));
    assert_eq!(overview_marker(Some("work"), "work"), ">");
    assert_eq!(overview_marker(None, "work"), " ");
    assert_eq!(card_marker(Some("work"), "work"), " <selected>");
    assert_eq!(card_marker(Some("work"), "home"), "");
}

#[test]
fn credit_index_is_three_digits_wide() {
    assert_eq!(credit_index_label(7), "#007");
    assert_eq!(credit_index_label(42), "#042");
    assert_eq!(credit_index_label(0), "#000");
    assert_eq!(credit_index_label(1234), "#1234");
}

#[test]
fn fixed_dashboard_lines() {
    assert_eq!(NO_ACCOUNTS_LINE, "  No Codex accounts found. Run `ai-monitor codex login NAME`.");
    assert_eq!(NO_LIMITS_LINE, "   No rate-limit window returned by Codex.");
    assert_eq!(details_line("work"), "   Details: ai-monitor codex credits --profile work");
}
