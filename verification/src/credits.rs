//! Reset credits of Codex accounts, and which of them expire soon.
use vstd::prelude::*;

use crate::text::{
    ascii_lowercase, chars_eq, chars_of, decimal, decimal_chars, extend_chars, lowercase,
    string_from_chars,
};

verus! {

/// An instant as `chrono::DateTime<Utc>` holds it: whole seconds since the
/// Unix epoch and the nanoseconds within the second (from 1_000_000_000 on
/// for a leap second).
#[derive(Clone, Copy, Debug, PartialEq, Eq)]
pub struct Timestamp {
    pub seconds: i64,
    pub nanos: u32,
}

/// The latest second that `chrono` represents: 262142-12-31T23:59:59Z.
pub const MAX_TIMESTAMP_SECONDS: i64 = 8210266876799;

/// Instants in time order.
pub open spec fn ts_lt(a: Timestamp, b: Timestamp) -> bool {
    a.seconds < b.seconds || (a.seconds == b.seconds && a.nanos < b.nanos)
}

pub open spec fn ts_le(a: Timestamp, b: Timestamp) -> bool {
    !ts_lt(b, a)
}

pub fn timestamp_less(a: Timestamp, b: Timestamp) -> (res: bool)
    ensures
        res == ts_lt(a, b),
{
    a.seconds < b.seconds || (a.seconds == b.seconds && a.nanos < b.nanos)
}

/// `Option<DateTime>` order: `None` first.
pub open spec fn opt_ts_lt(a: Option<Timestamp>, b: Option<Timestamp>) -> bool {
    match (a, b) {
        (None, Some(_)) => true,
        (Some(x), Some(y)) => ts_lt(x, y),
        _ => false,
    }
}

fn opt_timestamp_less(a: Option<Timestamp>, b: Option<Timestamp>) -> (res: bool)
    ensures
        res == opt_ts_lt(a, b),
{
    match (a, b) {
        (None, Some(_)) => true,
        (Some(x), Some(y)) => timestamp_less(x, y),
        _ => false,
    }
}

/// One reset credit.
#[derive(Clone, Debug)]
pub struct ResetCredit {
    pub id: Option<String>,
    pub status: Option<String>,
    pub title: Option<String>,
    pub description: Option<String>,
    pub granted_at: Option<Timestamp>,
    pub expires_at: Option<Timestamp>,
}

fn clone_text(value: &Option<String>) -> (res: Option<String>)
    ensures
        res == *value,
{
    match value {
        Some(s) => Some(s.clone()),
        None => None,
    }
}

impl ResetCredit {
    /// A copy of this credit.
    pub fn duplicate(&self) -> (res: ResetCredit)
        ensures
            res == *self,
    {
        ResetCredit {
            id: clone_text(&self.id),
            status: clone_text(&self.status),
            title: clone_text(&self.title),
            description: clone_text(&self.description),
            granted_at: self.granted_at,
            expires_at: self.expires_at,
        }
    }
}

/// The reset credits of an account and where they came from.
#[derive(Clone, Debug)]
pub struct ResetCredits {
    pub available_count: Option<u64>,
    pub credits: Option<Vec<ResetCredit>>,
    pub source: String,
}

impl Default for ResetCredits {
    fn default() -> (res: Self)
        ensures
            res.available_count is None,
            res.credits is None,
            res.source@ == Seq::<char>::empty(),
    {
        ResetCredits { available_count: None, credits: None, source: String::new() }
    }
}

/// A credit counts as active when it has no status, or its status is
/// `available` or `active` in any letter case.
pub open spec fn credit_active(credit: ResetCredit) -> bool {
    match credit.status {
        None => true,
        Some(s) => lowercase(s@) == "available"@ || lowercase(s@) == "active"@,
    }
}

pub fn is_active_credit(credit: &ResetCredit) -> (res: bool)
    ensures
        res == credit_active(*credit),
{
    match &credit.status {
        None => true,
        Some(s) => {
            let raw = chars_of(s.as_str());
            let l = ascii_lowercase(raw.as_slice());
            let available = chars_of("available");
            let active = chars_of("active");
            chars_eq(l.as_slice(), available.as_slice()) || chars_eq(l.as_slice(), active.as_slice())
        },
    }
}

/// `now` plus whole days, as `chrono` adds them: adding a day or more to a
/// leap second leaves the leap second behind (its nanoseconds drop below
/// 1_000_000_000); adding no days changes nothing.
pub open spec fn add_days(now: Timestamp, days: u32) -> Timestamp {
    if days == 0 {
        now
    } else if now.nanos >= 1_000_000_000 {
        Timestamp {
            seconds: (now.seconds + days * 86400) as i64,
            nanos: (now.nanos - 1_000_000_000) as u32,
        }
    } else {
        Timestamp { seconds: (now.seconds + days * 86400) as i64, nanos: now.nanos }
    }
}

/// An active credit that expires between `now` and `deadline`, both included.
pub open spec fn expires_within(credit: ResetCredit, now: Timestamp, deadline: Timestamp) -> bool {
    credit_active(credit) && match credit.expires_at {
        Some(e) => ts_le(now, e) && ts_le(e, deadline),
        None => false,
    }
}

pub open spec fn within_window(
    credits: Seq<ResetCredit>,
    now: Timestamp,
    deadline: Timestamp,
) -> Seq<ResetCredit>
    decreases credits.len(),
{
    if credits.len() == 0 {
        credits
    } else {
        let rest = within_window(credits.drop_last(), now, deadline);
        if expires_within(credits.last(), now, deadline) {
            rest.push(credits.last())
        } else {
            rest
        }
    }
}

/// Insertion after every credit that expires no later.
pub open spec fn insert_by_expiry(sorted: Seq<ResetCredit>, c: ResetCredit) -> Seq<ResetCredit>
    decreases sorted.len(),
{
    if sorted.len() == 0 {
        seq![c]
    } else if opt_ts_lt(c.expires_at, sorted.last().expires_at) {
        insert_by_expiry(sorted.drop_last(), c).push(sorted.last())
    } else {
        sorted.push(c)
    }
}

/// Stable sort by expiry (`sort_by_key` on `expires_at`).
pub open spec fn sort_by_expiry(credits: Seq<ResetCredit>) -> Seq<ResetCredit>
    decreases credits.len(),
{
    if credits.len() == 0 {
        credits
    } else {
        insert_by_expiry(sort_by_expiry(credits.drop_last()), credits.last())
    }
}

pub open spec fn sorted_by_expiry(credits: Seq<ResetCredit>) -> bool {
    forall|i: int, j: int|
        0 <= i < j < credits.len() ==> !opt_ts_lt(credits[j].expires_at, credits[i].expires_at)
}

/// The credits of `credits` in `expiring(credits, days, now)`.
pub open spec fn expiring_credits(credits: ResetCredits, days: u32, now: Timestamp) -> Seq<
    ResetCredit,
> {
    let rows = match credits.credits {
        Some(v) => v@,
        None => Seq::empty(),
    };
    sort_by_expiry(within_window(rows, now, add_days(now, days)))
}

fn insert_sorted_by_expiry(v: &mut Vec<ResetCredit>, c: ResetCredit)
    ensures
        final(v)@ == insert_by_expiry(old(v)@, c),
{
    let ghost initial = v@;
    let mut j = v.len();
    assert(initial.subrange(0, j as int) == initial);
    assert(initial.subrange(j as int, initial.len() as int) == Seq::<ResetCredit>::empty());
    while j > 0 && opt_timestamp_less(c.expires_at, v[j - 1].expires_at)
        invariant
            j <= v.len(),
            v@ == initial,
            insert_by_expiry(initial, c) == insert_by_expiry(initial.subrange(0, j as int), c)
                + initial.subrange(j as int, initial.len() as int),
        decreases j,
    {
        proof {
            let pre = initial.subrange(0, j as int);
            assert(pre.drop_last() == initial.subrange(0, j - 1));
            assert(pre.last() == initial[j - 1]);
            assert(initial.subrange(j - 1, initial.len() as int) == seq![initial[j - 1]]
                + initial.subrange(j as int, initial.len() as int));
        }
        j = j - 1;
    }
    proof {
        let pre = initial.subrange(0, j as int);
        assert(insert_by_expiry(pre, c) == pre.push(c));
        assert(initial.insert(j as int, c) == pre.push(c) + initial.subrange(
            j as int,
            initial.len() as int,
        ));
    }
    v.insert(j, c);
}

/// The active credits that expire within `days` days from `now` (both ends
/// included), earliest first; credits that expire at the same instant keep
/// their order.
pub fn expiring(credits: &ResetCredits, days: u32, now: Timestamp) -> (res: Vec<ResetCredit>)
    requires
        now.seconds + days * 86400 <= MAX_TIMESTAMP_SECONDS,
    ensures
        res@ == expiring_credits(*credits, days, now),
{
    let deadline = if days == 0 {
        now
    } else if now.nanos >= 1_000_000_000 {
        Timestamp { seconds: now.seconds + days as i64 * 86400, nanos: now.nanos - 1_000_000_000 }
    } else {
        Timestamp { seconds: now.seconds + days as i64 * 86400, nanos: now.nanos }
    };
    let mut res: Vec<ResetCredit> = Vec::new();
    let empty: Vec<ResetCredit> = Vec::new();
    let rows: &Vec<ResetCredit> = match &credits.credits {
        Some(v) => v,
        None => &empty,
    };
    let ghost mut kept: Seq<ResetCredit> = Seq::empty();
    let mut i: usize = 0;
    proof {
        assert(rows@.take(0) == Seq::<ResetCredit>::empty());
    }
    while i < rows.len()
        invariant
            i <= rows.len(),
            deadline == add_days(now, days),
            kept == within_window(rows@.take(i as int), now, deadline),
            res@ == sort_by_expiry(kept),
        decreases rows.len() - i,
    {
        let c = &rows[i];
        proof {
            assert(rows@.take(i + 1).drop_last() == rows@.take(i as int));
            assert(rows@.take(i + 1).last() == rows@[i as int]);
        }
        let inside = match c.expires_at {
            Some(e) => !timestamp_less(e, now) && !timestamp_less(deadline, e),
            None => false,
        };
        if is_active_credit(c) && inside {
            let copy = c.duplicate();
            proof {
                assert(kept.push(copy).drop_last() == kept);
                kept = kept.push(copy);
            }
            insert_sorted_by_expiry(&mut res, copy);
        }
        i = i + 1;
    }
    proof {
        assert(rows@.take(rows.len() as int) == rows@);
    }
    res
}

proof fn lemma_insert_by_expiry(sorted: Seq<ResetCredit>, c: ResetCredit)
    requires
        sorted_by_expiry(sorted),
    ensures
        sorted_by_expiry(insert_by_expiry(sorted, c)),
        insert_by_expiry(sorted, c).to_multiset() =~= sorted.to_multiset().insert(c),
    decreases sorted.len(),
{
    broadcast use vstd::seq_lib::group_seq_properties;
    if sorted.len() > 0 {
        let last = sorted.last();
        let d = sorted.drop_last();
        assert(d.push(last) == sorted);
        if opt_ts_lt(c.expires_at, last.expires_at) {
            assert forall|i: int, j: int| 0 <= i < j < d.len() implies !opt_ts_lt(
                d[j].expires_at,
                d[i].expires_at,
            ) by {
                assert(d[i] == sorted[i] && d[j] == sorted[j]);
            }
            lemma_insert_by_expiry(d, c);
            let r = insert_by_expiry(d, c);
            assert forall|k: int| 0 <= k < r.len() implies !opt_ts_lt(
                last.expires_at,
                #[trigger] r[k].expires_at,
            ) by {
                assert(r.to_multiset().count(r[k]) > 0);
                if r[k] != c {
                    assert(d.to_multiset().count(r[k]) > 0);
                    let m = choose|m: int| 0 <= m < d.len() && d[m] == r[k];
                    assert(sorted[m] == d[m]);
                }
            }
            let out = r.push(last);
            assert forall|i: int, j: int| 0 <= i < j < out.len() implies !opt_ts_lt(
                out[j].expires_at,
                out[i].expires_at,
            ) by {
                if j < r.len() {
                    assert(out[i] == r[i] && out[j] == r[j]);
                } else {
                    assert(out[i] == r[i]);
                }
            }
        } else {
            let out = sorted.push(c);
            assert forall|i: int, j: int| 0 <= i < j < out.len() implies !opt_ts_lt(
                out[j].expires_at,
                out[i].expires_at,
            ) by {
                if j < sorted.len() {
                    assert(out[i] == sorted[i] && out[j] == sorted[j]);
                } else {
                    assert(out[i] == sorted[i]);
                    if i < sorted.len() - 1 {
                        assert(!opt_ts_lt(last.expires_at, sorted[i].expires_at));
                    }
                }
            }
        }
    }
}

/// The credits that expire at `t`, in order.
pub open spec fn with_expiry(credits: Seq<ResetCredit>, t: Option<Timestamp>) -> Seq<ResetCredit>
    decreases credits.len(),
{
    if credits.len() == 0 {
        credits
    } else if credits.last().expires_at == t {
        with_expiry(credits.drop_last(), t).push(credits.last())
    } else {
        with_expiry(credits.drop_last(), t)
    }
}

proof fn lemma_insert_keeps_ties(sorted: Seq<ResetCredit>, c: ResetCredit, t: Option<Timestamp>)
    ensures
        with_expiry(insert_by_expiry(sorted, c), t) == if c.expires_at == t {
            with_expiry(sorted, t).push(c)
        } else {
            with_expiry(sorted, t)
        },
    decreases sorted.len(),
{
    if sorted.len() == 0 {
        assert(seq![c].drop_last() == sorted);
        assert(seq![c].last() == c);
    } else if opt_ts_lt(c.expires_at, sorted.last().expires_at) {
        let d = sorted.drop_last();
        lemma_insert_keeps_ties(d, c, t);
        let r = insert_by_expiry(d, c).push(sorted.last());
        assert(r.drop_last() == insert_by_expiry(d, c));
        assert(r.last() == sorted.last());
        if c.expires_at == t {
            assert(sorted.last().expires_at != t);
        }
    } else {
        assert(sorted.push(c).drop_last() == sorted);
        assert(sorted.push(c).last() == c);
    }
}

proof fn lemma_sort_keeps_ties(credits: Seq<ResetCredit>, t: Option<Timestamp>)
    ensures
        with_expiry(sort_by_expiry(credits), t) == with_expiry(credits, t),
    decreases credits.len(),
{
    if credits.len() > 0 {
        lemma_sort_keeps_ties(credits.drop_last(), t);
        lemma_insert_keeps_ties(sort_by_expiry(credits.drop_last()), credits.last(), t);
    }
}

/// What `expiring` returns is sorted by expiry, holds exactly the active
/// credits of the window, and each of them expires within it; credits that
/// expire at the same instant keep their order.
pub proof fn law_expiring_is_sorted_window(credits: ResetCredits, days: u32, now: Timestamp)
    ensures
        sorted_by_expiry(expiring_credits(credits, days, now)),
        ({
            let rows = match credits.credits {
                Some(v) => v@,
                None => Seq::empty(),
            };
            let w = within_window(rows, now, add_days(now, days));
            &&& expiring_credits(credits, days, now).to_multiset() =~= w.to_multiset()
            &&& forall|i: int|
                0 <= i < w.len() ==> expires_within(#[trigger] w[i], now, add_days(now, days))
            &&& forall|t: Option<Timestamp>|
                #[trigger] with_expiry(expiring_credits(credits, days, now), t) == with_expiry(w, t)
        }),
{
    let rows = match credits.credits {
        Some(v) => v@,
        None => Seq::empty(),
    };
    let deadline = add_days(now, days);
    lemma_sort_by_expiry(within_window(rows, now, deadline));
    lemma_within_window(rows, now, deadline);
    assert forall|t: Option<Timestamp>|
        #[trigger] with_expiry(expiring_credits(credits, days, now), t) == with_expiry(
            within_window(rows, now, deadline),
            t,
        ) by {
        lemma_sort_keeps_ties(within_window(rows, now, deadline), t);
    }
}

proof fn lemma_sort_by_expiry(credits: Seq<ResetCredit>)
    ensures
        sorted_by_expiry(sort_by_expiry(credits)),
        sort_by_expiry(credits).to_multiset() =~= credits.to_multiset(),
    decreases credits.len(),
{
    broadcast use vstd::seq_lib::group_seq_properties;
    if credits.len() > 0 {
        lemma_sort_by_expiry(credits.drop_last());
        lemma_insert_by_expiry(sort_by_expiry(credits.drop_last()), credits.last());
        assert(credits.drop_last().push(credits.last()) == credits);
    }
}

proof fn lemma_within_window(credits: Seq<ResetCredit>, now: Timestamp, deadline: Timestamp)
    ensures
        forall|i: int|
            0 <= i < within_window(credits, now, deadline).len() ==> expires_within(
                #[trigger] within_window(credits, now, deadline)[i],
                now,
                deadline,
            ),
    decreases credits.len(),
{
    if credits.len() > 0 {
        lemma_within_window(credits.drop_last(), now, deadline);
        let rest = within_window(credits.drop_last(), now, deadline);
        assert forall|i: int|
            0 <= i < within_window(credits, now, deadline).len() implies expires_within(
            #[trigger] within_window(credits, now, deadline)[i],
            now,
            deadline,
        ) by {
            if i < rest.len() {
                assert(within_window(credits, now, deadline)[i] == rest[i]);
            }
        }
    }
}

/// The earliest expiry, not before `now`, among the active credits.
pub open spec fn is_next_expiry(credits: ResetCredits, now: Timestamp, t: Timestamp) -> bool {
    match credits.credits {
        None => false,
        Some(v) => {
            &&& exists|i: int|
                0 <= i < v@.len() && credit_active(#[trigger] v@[i]) && v@[i].expires_at == Some(t)
            &&& ts_le(now, t)
            &&& forall|i: int|
                0 <= i < v@.len() && credit_active(#[trigger] v@[i]) ==> match v@[i].expires_at {
                    Some(e) => ts_lt(e, now) || ts_le(t, e),
                    None => true,
                }
        },
    }
}

/// A credit that the next-expiry search considers.
pub open spec fn upcoming(credit: ResetCredit, now: Timestamp) -> bool {
    credit_active(credit) && match credit.expires_at {
        Some(e) => ts_le(now, e),
        None => false,
    }
}

/// The next instant at which an active credit expires, if any does at or
/// after `now`.
pub fn next_active_credit_expiry(credits: &ResetCredits, now: Timestamp) -> (res: Option<Timestamp>)
    ensures
        res matches Some(t) ==> is_next_expiry(*credits, now, t),
        res is None ==> match credits.credits {
            None => true,
            Some(v) => forall|i: int| 0 <= i < v@.len() ==> !upcoming(#[trigger] v@[i], now),
        },
{
    let rows = match &credits.credits {
        Some(v) => v,
        None => return None,
    };
    let mut best: Option<Timestamp> = None;
    let mut i: usize = 0;
    while i < rows.len()
        invariant
            credits.credits == Some(*rows),
            i <= rows.len(),
            best is None ==> forall|k: int| 0 <= k < i ==> !upcoming(#[trigger] rows@[k], now),
            best matches Some(t) ==> {
                &&& exists|k: int|
                    0 <= k < i && credit_active(#[trigger] rows@[k]) && rows@[k].expires_at == Some(
                        t,
                    )
                &&& ts_le(now, t)
                &&& forall|k: int|
                    0 <= k < i && credit_active(#[trigger] rows@[k]) ==> match rows@[k].expires_at {
                        Some(e) => ts_lt(e, now) || ts_le(t, e),
                        None => true,
                    }
            },
        decreases rows.len() - i,
    {
        let c = &rows[i];
        if is_active_credit(c) {
            match c.expires_at {
                Some(e) => {
                    if !timestamp_less(e, now) {
                        match best {
                            None => {
                                best = Some(e);
                            },
                            Some(t) => {
                                if timestamp_less(e, t) {
                                    best = Some(e);
                                }
                            },
                        }
                    }
                },
                None => {},
            }
        }
        i = i + 1;
    }
    best
}

/// The remaining-time text of a credit, given the whole seconds until it
/// expires (`None` where it has no expiry).
pub open spec fn remaining_text(seconds: Option<i64>) -> Seq<char> {
    match seconds {
        None => "remaining N/A"@,
        Some(s) => if s <= 0 {
            "expired"@
        } else {
            let days = s / 86400;
            let hours = (s % 86400) / 3600;
            let minutes = (s % 3600) / 60;
            if days > 0 {
                "remaining "@ + decimal(days as nat) + "d "@ + decimal(hours as nat) + "h "@
                    + decimal(minutes as nat) + "m"@
            } else if hours > 0 {
                "remaining "@ + decimal(hours as nat) + "h "@ + decimal(minutes as nat) + "m"@
            } else {
                "remaining "@ + decimal(minutes as nat) + "m"@
            }
        },
    }
}

fn push_str(out: &mut Vec<char>, s: &str)
    ensures
        final(out)@ == old(out)@ + s@,
{
    let cs = chars_of(s);
    extend_chars(out, cs.as_slice());
}

fn push_number(out: &mut Vec<char>, n: u64)
    ensures
        final(out)@ == old(out)@ + decimal(n as nat),
{
    let cs = decimal_chars(n);
    extend_chars(out, cs.as_slice());
}

/// `remaining 3d 4h 5m`, `remaining 4h 5m`, `remaining 5m`, `expired` or
/// `remaining N/A`.
pub fn credit_remaining_text(seconds: Option<i64>) -> (res: String)
    ensures
        res@ == remaining_text(seconds),
{
    let s = match seconds {
        None => return String::from_str("remaining N/A"),
        Some(s) => s,
    };
    if s <= 0 {
        return String::from_str("expired");
    }
    let days = (s / 86400) as u64;
    let hours = ((s % 86400) / 3600) as u64;
    let minutes = ((s % 3600) / 60) as u64;
    let mut out: Vec<char> = Vec::new();
    push_str(&mut out, "remaining ");
    if days > 0 {
        push_number(&mut out, days);
        push_str(&mut out, "d ");
        push_number(&mut out, hours);
        push_str(&mut out, "h ");
        push_number(&mut out, minutes);
        push_str(&mut out, "m");
    } else if hours > 0 {
        push_number(&mut out, hours);
        push_str(&mut out, "h ");
        push_number(&mut out, minutes);
        push_str(&mut out, "m");
    } else {
        push_number(&mut out, minutes);
        push_str(&mut out, "m");
    }
    string_from_chars(out.as_slice())
}

/// Whether detailed credits must come from the private lookup: the
/// app-server gave no credit rows, the lookup is allowed, and the account is
/// not known to hold zero credits.
pub open spec fn private_lookup_needed(credits: ResetCredits, allow_private: bool) -> bool {
    credits.credits is None && allow_private && credits.available_count != Some(0u64)
}

pub fn needs_private_credits(credits: &ResetCredits, allow_private: bool) -> (res: bool)
    ensures
        res == private_lookup_needed(*credits, allow_private),
{
    credits.credits.is_none() && allow_private && match credits.available_count {
        Some(n) => n != 0,
        None => true,
    }
}

// ---------------------------------------------------------------------------
// Subscriptions
// ---------------------------------------------------------------------------

/// The plan of a Codex account and when it renews.
#[derive(Clone, Debug)]
pub struct CodexSubscriptionInfo {
    pub profile: String,
    pub plan_type: Option<String>,
    pub plan_display: String,
    pub renews_at: Option<Timestamp>,
    pub source: String,
    pub error: Option<String>,
}

/// The subscription record of a profile before any account-status lookup:
/// the plan's display name, and the source `account-status` where the lookup
/// will run or `disabled` where it will not.
pub fn subscription_info(profile_name: &str, plan_type: Option<&str>, use_private_api: bool) -> (res:
    CodexSubscriptionInfo)
    ensures
        res.profile@ == profile_name@,
        match plan_type {
            Some(p) => res.plan_type matches Some(q) && q@ == p@,
            None => res.plan_type is None,
        },
        res.plan_display@ == crate::codex_dashboard::plan_display(crate::codex::opt_view(plan_type)),
        res.renews_at is None,
        res.source@ == (if use_private_api {
            "account-status"@
        } else {
            "disabled"@
        }),
        res.error is None,
{
    CodexSubscriptionInfo {
        profile: String::from_str(profile_name),
        plan_type: match plan_type {
            Some(p) => Some(String::from_str(p)),
            None => None,
        },
        plan_display: crate::codex_dashboard::format_codex_plan_name(plan_type),
        renews_at: None,
        source: if use_private_api {
            String::from_str("account-status")
        } else {
            String::from_str("disabled")
        },
        error: None,
    }
}

/// The first subscription record of `profile`.
pub fn subscription_for_profile<'a>(
    subscriptions: &'a Vec<CodexSubscriptionInfo>,
    profile: &str,
) -> (res: Option<&'a CodexSubscriptionInfo>)
    ensures
        res matches Some(r) ==> exists|i: int|
            0 <= i < subscriptions@.len() && *r == subscriptions@[i] && r.profile@ == profile@
                && forall|k: int| 0 <= k < i ==> (#[trigger] subscriptions@[k]).profile@ != profile@,
        res is None ==> forall|k: int|
            0 <= k < subscriptions@.len() ==> (#[trigger] subscriptions@[k]).profile@ != profile@,
{
    let target = chars_of(profile);
    let mut i: usize = 0;
    while i < subscriptions.len()
        invariant
            i <= subscriptions.len(),
            target@ == profile@,
            forall|k: int| 0 <= k < i ==> (#[trigger] subscriptions@[k]).profile@ != profile@,
        decreases subscriptions.len() - i,
    {
        let name = chars_of(subscriptions[i].profile.as_str());
        if chars_eq(name.as_slice(), target.as_slice()) {
            return Some(&subscriptions[i]);
        }
        i = i + 1;
    }
    None
}

/// One entry of the `accounts` object of an account-status reply, by its key
/// and the account id it names.
#[derive(Clone, Debug)]
pub struct AccountEntry {
    pub key: String,
    pub account_id: Option<String>,
}

/// Entry `i` is the first whose account id is `want`.
pub open spec fn first_with_id(entries: Seq<AccountEntry>, want: Seq<char>, i: int) -> bool {
    &&& 0 <= i < entries.len()
    &&& entries[i].account_id matches Some(a) && a@ == want
    &&& forall|k: int|
        0 <= k < i ==> !((#[trigger] entries[k]).account_id matches Some(a) && a@ == want)
}

/// Entry `i` is the first with key `default`.
pub open spec fn first_default(entries: Seq<AccountEntry>, i: int) -> bool {
    &&& 0 <= i < entries.len()
    &&& entries[i].key@ == "default"@
    &&& forall|k: int| 0 <= k < i ==> (#[trigger] entries[k]).key@ != "default"@
}

/// Some entry names account `want`.
pub open spec fn names_account(entries: Seq<AccountEntry>, want: Option<Seq<char>>) -> bool {
    want matches Some(w) && exists|k: int|
        0 <= k < entries.len() && ((#[trigger] entries[k]).account_id matches Some(a) && a@ == w)
}

/// Some entry has key `default`.
pub open spec fn has_default(entries: Seq<AccountEntry>) -> bool {
    exists|k: int| 0 <= k < entries.len() && (#[trigger] entries[k]).key@ == "default"@
}

/// The entry whose entitlement gives the renewal date: the first that names
/// the account, else the `default` one, else the first; none where there are
/// no entries.
pub fn select_account(entries: &Vec<AccountEntry>, account_id: Option<&str>) -> (res: Option<usize>)
    ensures
        names_account(entries@, crate::codex::opt_view(account_id)) ==> (res matches Some(i)
            && first_with_id(entries@, account_id.unwrap()@, i as int)),
        !names_account(entries@, crate::codex::opt_view(account_id)) && has_default(entries@) ==> (
        res matches Some(i) && first_default(entries@, i as int)),
        !names_account(entries@, crate::codex::opt_view(account_id)) && !has_default(entries@)
            ==> res == (if entries@.len() > 0 {
            Some(0usize)
        } else {
            None
        }),
{
    if account_id.is_some() {
        let want = account_id.unwrap();
        let target = chars_of(want);
        let mut i: usize = 0;
        while i < entries.len()
            invariant
                i <= entries.len(),
                target@ == want@,
                account_id == Some(want),
                forall|k: int|
                    0 <= k < i ==> !((#[trigger] entries@[k]).account_id matches Some(a) && a@
                        == want@),
            decreases entries.len() - i,
        {
            if let Some(a) = &entries[i].account_id {
                let have = chars_of(a.as_str());
                if chars_eq(have.as_slice(), target.as_slice()) {
                    proof {
                        assert(entries@[i as int].account_id == Some(*a));
                        assert(crate::codex::opt_view(account_id) == Some(want@));
                        assert(names_account(entries@, crate::codex::opt_view(account_id)));
                    }
                    return Some(i);
                }
            }
            i = i + 1;
        }
    }
    let default = chars_of("default");
    let mut j: usize = 0;
    while j < entries.len()
        invariant
            j <= entries.len(),
            default@ == "default"@,
            !names_account(entries@, crate::codex::opt_view(account_id)),
            forall|k: int| 0 <= k < j ==> (#[trigger] entries@[k]).key@ != "default"@,
        decreases entries.len() - j,
    {
        let key = chars_of(entries[j].key.as_str());
        if chars_eq(key.as_slice(), default.as_slice()) {
            return Some(j);
        }
        j = j + 1;
    }
    if entries.len() > 0 {
        Some(0)
    } else {
        None
    }
}

} // verus!
