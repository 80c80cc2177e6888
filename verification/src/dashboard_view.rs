//! What the Codex dashboard shows of each account: its status, the badge of
//! each reset credit, the note under a credit list, the plan in the header,
//! and how wide the cards are drawn.
use vstd::prelude::*;

use crate::codex::opt_view;
use crate::credits::{subscription_for_profile, CodexSubscriptionInfo, ResetCredits};
use crate::text::{
    ascii_lowercase, chars_eq, chars_of, contains, contains_chars, decimal, decimal_chars, lowercase,
    string_from_chars,
};

verus! {

/// The status column of an account.
#[derive(Clone, Copy, Debug, PartialEq, Eq)]
pub enum AccountStatus {
    /// A snapshot was read.
    Ready,
    /// The profile is signed in, but no snapshot could be read.
    Error,
    /// The profile is not signed in.
    Login,
}

/// `[READY]` with a snapshot, else `[ERROR]` for a signed-in profile, else
/// `[LOGIN]`.
pub fn account_status(has_snapshot: bool, authenticated: bool) -> (res: AccountStatus)
    ensures
        res == (if has_snapshot {
            AccountStatus::Ready
        } else if authenticated {
            AccountStatus::Error
        } else {
            AccountStatus::Login
        }),
{
    if has_snapshot {
        AccountStatus::Ready
    } else if authenticated {
        AccountStatus::Error
    } else {
        AccountStatus::Login
    }
}

/// The line of an account card without a snapshot.
pub open spec fn unavailable_text(authenticated: bool, error: Option<Seq<char>>) -> Seq<char> {
    if authenticated {
        match error {
            Some(e) => e,
            None => "Codex app-server unavailable"@,
        }
    } else {
        "Not logged in"@
    }
}

/// Why a card shows no limits: the error of a signed-in profile (or that
/// the app-server was unavailable), else that it is not logged in.
pub fn unavailable_message(authenticated: bool, error: Option<&str>) -> (res: String)
    ensures
        res@ == unavailable_text(authenticated, opt_view(error)),
{
    if authenticated {
        match error {
            Some(e) => String::from_str(e),
            None => String::from_str("Codex app-server unavailable"),
        }
    } else {
        String::from_str("Not logged in")
    }
}

/// The badge of a reset credit.
#[derive(Clone, Copy, Debug, PartialEq, Eq)]
pub enum CreditBadge {
    Available,
    Expired,
    Used,
    Pending,
    Unknown,
}

/// The badge a status earns, read in lower case: `available`/`active`, then
/// one that mentions `expired`, `used` or `consumed`, `pending`; a missing
/// status is `unknown`.
pub open spec fn badge_of(status: Option<Seq<char>>) -> CreditBadge {
    let s = lowercase(
        match status {
            Some(s) => s,
            None => "unknown"@,
        },
    );
    if s == "available"@ || s == "active"@ {
        CreditBadge::Available
    } else if contains(s, "expired"@) {
        CreditBadge::Expired
    } else if contains(s, "used"@) || contains(s, "consumed"@) {
        CreditBadge::Used
    } else if contains(s, "pending"@) {
        CreditBadge::Pending
    } else {
        CreditBadge::Unknown
    }
}

pub fn credit_badge(status: Option<&str>) -> (res: CreditBadge)
    ensures
        res == badge_of(opt_view(status)),
{
    let raw = match status {
        Some(s) => chars_of(s),
        None => chars_of("unknown"),
    };
    let s = ascii_lowercase(raw.as_slice());
    let available = chars_of("available");
    let active = chars_of("active");
    if chars_eq(s.as_slice(), available.as_slice()) || chars_eq(s.as_slice(), active.as_slice()) {
        return CreditBadge::Available;
    }
    let expired = chars_of("expired");
    if contains_chars(s.as_slice(), expired.as_slice()) {
        return CreditBadge::Expired;
    }
    let used = chars_of("used");
    let consumed = chars_of("consumed");
    if contains_chars(s.as_slice(), used.as_slice()) || contains_chars(
        s.as_slice(),
        consumed.as_slice(),
    ) {
        return CreditBadge::Used;
    }
    let pending = chars_of("pending");
    if contains_chars(s.as_slice(), pending.as_slice()) {
        CreditBadge::Pending
    } else {
        CreditBadge::Unknown
    }
}

pub open spec fn badge_text(badge: CreditBadge) -> Seq<char> {
    match badge {
        CreditBadge::Available => "AVAILABLE"@,
        CreditBadge::Expired => "EXPIRED"@,
        CreditBadge::Used => "USED"@,
        CreditBadge::Pending => "PENDING"@,
        CreditBadge::Unknown => "UNKNOWN"@,
    }
}

impl CreditBadge {
    /// The badge as the card prints it.
    pub fn label(&self) -> (res: String)
        ensures
            res@ == badge_text(*self),
    {
        match self {
            CreditBadge::Available => String::from_str("AVAILABLE"),
            CreditBadge::Expired => String::from_str("EXPIRED"),
            CreditBadge::Used => String::from_str("USED"),
            CreditBadge::Pending => String::from_str("PENDING"),
            CreditBadge::Unknown => String::from_str("UNKNOWN"),
        }
    }
}

/// What stands under the credit summary of an account card.
#[derive(Clone, Debug, PartialEq, Eq)]
pub enum CardCreditNote {
    /// One entry per credit row.
    Rows,
    /// The app-server counted credits but gave no rows.
    DetailsUnavailable,
    /// No credits and nothing to say.
    Nothing,
    /// No credit list at all: this hint.
    Hint(String),
}

/// The hint for an account without a credit list.
pub open spec fn hint_text(use_private_api: bool, detail_error: Option<Seq<char>>) -> Seq<char> {
    match detail_error {
        Some(e) => e,
        None => if use_private_api {
            "Private credit detail lookup failed or returned no rows"@
        } else {
            "Private credit lookup disabled by --no-private-api"@
        },
    }
}

/// Rows where there are some; for an empty list, that details are
/// unavailable where credits are counted, else nothing; without a list, the
/// lookup's error, or why there was none.
pub fn card_credit_note(
    credits: &ResetCredits,
    use_private_api: bool,
    detail_error: Option<&str>,
) -> (res: CardCreditNote)
    ensures
        match credits.credits {
            Some(rows) => if rows@.len() > 0 {
                res == CardCreditNote::Rows
            } else if credits.available_count matches Some(n) && n > 0 {
                res == CardCreditNote::DetailsUnavailable
            } else {
                res == CardCreditNote::Nothing
            },
            None => res matches CardCreditNote::Hint(h) && h@ == hint_text(
                use_private_api,
                opt_view(detail_error),
            ),
        },
{
    match &credits.credits {
        Some(rows) => {
            if rows.len() > 0 {
                CardCreditNote::Rows
            } else {
                let counted = match credits.available_count {
                    Some(n) => n > 0,
                    None => false,
                };
                if counted {
                    CardCreditNote::DetailsUnavailable
                } else {
                    CardCreditNote::Nothing
                }
            }
        },
        None => {
            let hint = match detail_error {
                Some(e) => String::from_str(e),
                None => if use_private_api {
                    String::from_str("Private credit detail lookup failed or returned no rows")
                } else {
                    String::from_str("Private credit lookup disabled by --no-private-api")
                },
            };
            CardCreditNote::Hint(hint)
        },
    }
}

/// What the credits command lists under its summary.
#[derive(Clone, Copy, Debug, PartialEq, Eq)]
pub enum CreditListing {
    /// One entry per credit row.
    Rows,
    /// Credits are counted but their rows are missing.
    LifecycleUnavailable,
    /// There are no credits.
    NoneAvailable,
    /// No credit list was read.
    RowsUnavailable,
}

/// Rows where there are some; for an empty list, that their lifecycle is
/// unavailable where credits are counted, else that there are none; without
/// a list, that the rows are unavailable.
pub fn credit_listing(credits: &ResetCredits) -> (res: CreditListing)
    ensures
        res == match credits.credits {
            Some(rows) => if rows@.len() > 0 {
                CreditListing::Rows
            } else if credits.available_count matches Some(n) && n > 0 {
                CreditListing::LifecycleUnavailable
            } else {
                CreditListing::NoneAvailable
            },
            None => CreditListing::RowsUnavailable,
        },
{
    match &credits.credits {
        Some(rows) => {
            if rows.len() > 0 {
                CreditListing::Rows
            } else {
                let counted = match credits.available_count {
                    Some(n) => n > 0,
                    None => false,
                };
                if counted {
                    CreditListing::LifecycleUnavailable
                } else {
                    CreditListing::NoneAvailable
                }
            }
        },
        None => CreditListing::RowsUnavailable,
    }
}

/// Some subscription belongs to `profile`.
pub open spec fn has_subscription(subs: Seq<CodexSubscriptionInfo>, profile: Seq<char>) -> bool {
    exists|i: int| 0 <= i < subs.len() && (#[trigger] subs[i]).profile@ == profile
}

/// A profile is selected and has a subscription.
pub open spec fn selected_with_plan(
    subs: Seq<CodexSubscriptionInfo>,
    selected: Option<Seq<char>>,
) -> bool {
    match selected {
        Some(p) => has_subscription(subs, p),
        None => false,
    }
}

/// `r` is the first subscription of `profile`.
pub open spec fn first_for(
    subs: Seq<CodexSubscriptionInfo>,
    r: CodexSubscriptionInfo,
    profile: Seq<char>,
) -> bool {
    exists|i: int|
        0 <= i < subs.len() && r == subs[i] && r.profile@ == profile && forall|k: int|
            0 <= k < i ==> (#[trigger] subs[k]).profile@ != profile
}

/// The plan shown in the dashboard header: that of the selected profile,
/// else the only one there is.
pub fn header_subscription<'a>(
    subscriptions: &'a Vec<CodexSubscriptionInfo>,
    selected: Option<&str>,
) -> (res: Option<&'a CodexSubscriptionInfo>)
    ensures
        selected_with_plan(subscriptions@, opt_view(selected)) ==> (res matches Some(r)
            && first_for(subscriptions@, *r, opt_view(selected).unwrap())),
        !selected_with_plan(subscriptions@, opt_view(selected)) ==> res == (if subscriptions@.len()
            == 1 {
            Some(&subscriptions@[0])
        } else {
            None
        }),
{
    match selected {
        Some(p) => {
            let found = subscription_for_profile(subscriptions, p);
            if found.is_some() {
                return found;
            }
        },
        None => {},
    }
    if subscriptions.len() == 1 {
        Some(&subscriptions[0])
    } else {
        None
    }
}

/// The width the cards are drawn in: the terminal's columns (100 where
/// unknown) less a margin of four, kept between 36 and 100.
pub open spec fn card_width(columns: Option<usize>) -> int {
    let c = match columns {
        Some(c) => c as int,
        None => 100,
    };
    let w = if c >= 4 {
        c - 4
    } else {
        0
    };
    if w < 36 {
        36
    } else if w > 100 {
        100
    } else {
        w
    }
}

pub fn ui_width(columns: Option<usize>) -> (res: usize)
    ensures
        res == card_width(columns),
{
    let c = match columns {
        Some(c) => c,
        None => 100,
    };
    let w = c.saturating_sub(4);
    if w < 36 {
        36
    } else if w > 100 {
        100
    } else {
        w
    }
}

/// The scope named in the dashboard header.
pub open spec fn scope_text(selected: Option<Seq<char>>) -> Seq<char> {
    match selected {
        Some(n) => "selected: "@ + n,
        None => "all accounts"@,
    }
}

/// `selected: NAME` where a profile is selected, else `all accounts`.
pub fn dashboard_scope(selected: Option<&str>) -> (res: String)
    ensures
        res@ == scope_text(opt_view(selected)),
{
    match selected {
        Some(n) => {
            let mut out = chars_of("selected: ");
            crate::text::extend_chars(&mut out, chars_of(n).as_slice());
            string_from_chars(out.as_slice())
        },
        None => String::from_str("all accounts"),
    }
}

/// What the dashboard header counts of one account: whether a snapshot was
/// read, and whether its most used window has at most a tenth left.
#[derive(Clone, Copy, Debug)]
pub struct AccountFacts {
    pub ready: bool,
    pub low: bool,
}

/// How many accounts are ready, and how many are low.
pub open spec fn ready_count(accounts: Seq<AccountFacts>) -> nat
    decreases accounts.len(),
{
    if accounts.len() == 0 {
        0
    } else {
        ready_count(accounts.drop_last()) + if accounts.last().ready {
            1nat
        } else {
            0nat
        }
    }
}

pub open spec fn low_count(accounts: Seq<AccountFacts>) -> nat
    decreases accounts.len(),
{
    if accounts.len() == 0 {
        0
    } else {
        low_count(accounts.drop_last()) + if accounts.last().low {
            1nat
        } else {
            0nat
        }
    }
}

proof fn lemma_counts_bounded(accounts: Seq<AccountFacts>)
    ensures
        ready_count(accounts) <= accounts.len(),
        low_count(accounts) <= accounts.len(),
    decreases accounts.len(),
{
    if accounts.len() > 0 {
        lemma_counts_bounded(accounts.drop_last());
    }
}

/// The accounts line of the header.
pub open spec fn accounts_text(accounts: Seq<AccountFacts>, selected: Option<Seq<char>>) -> Seq<char> {
    " Accounts: "@ + decimal(accounts.len()) + " total · "@ + decimal(ready_count(accounts))
        + " ready · "@ + decimal(low_count(accounts)) + " low · "@ + scope_text(selected)
}

/// ` Accounts: N total · R ready · L low · SCOPE`.
pub fn account_line(accounts: &Vec<AccountFacts>, selected: Option<&str>) -> (res: String)
    ensures
        res@ == accounts_text(accounts@, opt_view(selected)),
{
    let mut ready: usize = 0;
    let mut low: usize = 0;
    let mut i: usize = 0;
    while i < accounts.len()
        invariant
            i <= accounts.len(),
            ready == ready_count(accounts@.take(i as int)),
            low == low_count(accounts@.take(i as int)),
        decreases accounts.len() - i,
    {
        proof {
            assert(accounts@.take(i + 1).drop_last() == accounts@.take(i as int));
            assert(accounts@.take(i + 1).last() == accounts@[i as int]);
            lemma_counts_bounded(accounts@.take(i as int));
        }
        if accounts[i].ready {
            ready = ready + 1;
        }
        if accounts[i].low {
            low = low + 1;
        }
        i = i + 1;
    }
    proof {
        assert(accounts@.take(accounts.len() as int) == accounts@);
    }
    let mut out = chars_of(" Accounts: ");
    crate::text::extend_chars(&mut out, decimal_chars(accounts.len() as u64).as_slice());
    crate::text::extend_chars(&mut out, chars_of(" total · ").as_slice());
    crate::text::extend_chars(&mut out, decimal_chars(ready as u64).as_slice());
    crate::text::extend_chars(&mut out, chars_of(" ready · ").as_slice());
    crate::text::extend_chars(&mut out, decimal_chars(low as u64).as_slice());
    crate::text::extend_chars(&mut out, chars_of(" low · ").as_slice());
    let scope = dashboard_scope(selected);
    crate::text::extend_chars(&mut out, chars_of(scope.as_str()).as_slice());
    string_from_chars(out.as_slice())
}

/// Where a card puts a group heading: before the first window and before
/// each window whose group differs from the one before it.
pub fn group_headings(groups: &Vec<String>) -> (res: Vec<bool>)
    ensures
        res@.len() == groups@.len(),
        forall|i: int|
            0 <= i < groups@.len() ==> #[trigger] res@[i] == (i == 0 || groups@[i]@ != groups@[i
                - 1]@),
{
    let mut res: Vec<bool> = Vec::new();
    let mut i: usize = 0;
    while i < groups.len()
        invariant
            i <= groups.len(),
            res@.len() == i,
            forall|k: int| 0 <= k < i ==> #[trigger] res@[k] == (k == 0 || groups@[k]@ != groups@[k - 1]@),
        decreases groups.len() - i,
    {
        let heading = if i == 0 {
            true
        } else {
            !chars_eq(chars_of(groups[i].as_str()).as_slice(), chars_of(groups[i - 1].as_str()).as_slice())
        };
        res.push(heading);
        i = i + 1;
    }
    res
}

// ---------------------------------------------------------------------------
// Layout
// ---------------------------------------------------------------------------

/// Whether the dashboard is wide enough for the overview table and for a
/// credit's grant and expiry on one line: 86 columns or more.
pub fn wide_layout(width: usize) -> (res: bool)
    ensures
        res == (width >= 86),
{
    width >= 86
}

/// Whether a compact overview line has room for the lowest window's quota:
/// 60 columns or more.
pub fn overview_shows_quota(width: usize) -> (res: bool)
    ensures
        res == (width >= 60),
{
    width >= 60
}

/// How a rate-limit window is drawn on a card.
#[derive(Clone, Copy, Debug, PartialEq, Eq)]
pub enum LimitRowLayout {
    /// Label, quota, bar and reset on one line.
    OneLine { bar_width: usize },
    /// Label and quota, then bar and reset on a second line.
    TwoLines { bar_width: usize },
}

/// One line with an 18-column bar from 88 columns, with a 12-column bar from
/// 72; below that two lines, the bar 24 columns narrower than the card but
/// between 8 and 16 wide.
pub fn limit_row_layout(width: usize) -> (res: LimitRowLayout)
    ensures
        width >= 88 ==> res == (LimitRowLayout::OneLine { bar_width: 18 }),
        72 <= width < 88 ==> res == (LimitRowLayout::OneLine { bar_width: 12 }),
        width < 72 ==> res == (LimitRowLayout::TwoLines {
            bar_width: if width < 32 {
                8
            } else if width > 40 {
                16
            } else {
                (width - 24) as usize
            },
        }),
{
    if width >= 72 {
        LimitRowLayout::OneLine { bar_width: if width >= 88 { 18 } else { 12 } }
    } else {
        let w = width.saturating_sub(24);
        let bar_width = if w < 8 {
            8
        } else if w > 16 {
            16
        } else {
            w
        };
        LimitRowLayout::TwoLines { bar_width }
    }
}

/// Whether `profile` is the selected one.
pub fn is_selected(selected: Option<&str>, profile: &str) -> (res: bool)
    ensures
        res == (opt_view(selected) == Some(profile@)),
{
    match selected {
        Some(s) => chars_eq(chars_of(s).as_slice(), chars_of(profile).as_slice()),
        None => false,
    }
}

/// The marker of an overview line: `>` for the selected profile, else a
/// space.
pub fn overview_marker(selected: Option<&str>, profile: &str) -> (res: String)
    ensures
        res@ == if opt_view(selected) == Some(profile@) {
            ">"@
        } else {
            " "@
        },
{
    if is_selected(selected, profile) {
        String::from_str(">")
    } else {
        String::from_str(" ")
    }
}

/// What a card's title adds for the selected profile: ` <selected>`, else
/// nothing.
pub fn card_marker(selected: Option<&str>, profile: &str) -> (res: String)
    ensures
        res@ == if opt_view(selected) == Some(profile@) {
            " <selected>"@
        } else {
            ""@
        },
{
    if is_selected(selected, profile) {
        String::from_str(" <selected>")
    } else {
        String::from_str("")
    }
}

/// `s` with zeros in front until it is `width` long.
pub open spec fn zero_padded(s: Seq<char>, width: nat) -> Seq<char>
    decreases width - s.len(),
{
    if s.len() >= width {
        s
    } else {
        zero_padded(seq!['0'] + s, width)
    }
}

/// `#NNN`: the credit's place in the list, at least three digits wide.
pub fn credit_index_label(index: u64) -> (res: String)
    ensures
        res@ == seq!['#'] + zero_padded(decimal(index as nat), 3),
{
    let mut digits = decimal_chars(index);
    while digits.len() < 3
        invariant
            zero_padded(digits@, 3) == zero_padded(decimal(index as nat), 3),
        decreases 3 - digits.len(),
    {
        let mut longer: Vec<char> = vec!['0'];
        crate::text::extend_chars(&mut longer, digits.as_slice());
        assert(longer@ == seq!['0'] + digits@);
        assert(zero_padded(digits@, 3) == zero_padded(seq!['0'] + digits@, 3));
        digits = longer;
    }
    let mut out: Vec<char> = vec!['#'];
    crate::text::extend_chars(&mut out, digits.as_slice());
    string_from_chars(out.as_slice())
}

/// The line that says there are no accounts.
pub const NO_ACCOUNTS_LINE: &'static str = "  No Codex accounts found. Run `ai-monitor codex login NAME`.";

/// The card line for an account whose snapshot holds no window.
pub const NO_LIMITS_LINE: &'static str = "   No rate-limit window returned by Codex.";

/// The command that lists a profile's credits in full.
pub fn details_line(profile: &str) -> (res: String)
    ensures
        res@ == "   Details: ai-monitor codex credits --profile "@ + profile@,
{
    let mut out = chars_of("   Details: ai-monitor codex credits --profile ");
    crate::text::extend_chars(&mut out, chars_of(profile).as_slice());
    string_from_chars(out.as_slice())
}

} // verus!
