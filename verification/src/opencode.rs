//! OpenCode usage: grouping assistant messages by day, provider and model,
//! finding the project of a directory, and naming projects.
//!
//! Reading the SQLite database and decoding message JSON happen around
//! these functions; each assistant message reaches them as a record.
use vstd::prelude::*;

use crate::model::{sat_add, zero_usage, Usage};
use crate::text::{chars_eq, chars_of, lex_lt, lex_less, string_from_chars, trim, trim_chars};

verus! {

/// The name of the optional index on `message(time_created)` that this
/// program manages.
pub const INDEX_NAME: &'static str = "ai_monitor_message_time_created_idx";

/// The days a report covers, each counted as a day number of the calendar
/// (consecutive days have consecutive numbers).
#[derive(Clone, Copy, Debug)]
pub struct DayRange {
    pub first_day: i64,
    pub last_day: i64,
}

/// The last `days` days up to and including `today`; none where `days` is
/// zero, which a report refuses.
pub fn day_range(days: u32, today: i32) -> (res: Option<DayRange>)
    ensures
        days == 0 <==> res is None,
        res matches Some(r) ==> r.first_day == today - (days - 1) && r.last_day == today,
{
    if days == 0 {
        None
    } else {
        let back: i64 = days as i64 - 1;
        Some(DayRange { first_day: today as i64 - back, last_day: today as i64 })
    }
}

/// The scope a report names: the project directory it was limited to, or
/// `all-projects`.
pub fn report_scope(project: Option<String>) -> (res: String)
    ensures
        res@ == match project {
            Some(p) => p@,
            None => "all-projects"@,
        },
{
    match project {
        Some(p) => p,
        None => String::from_str("all-projects"),
    }
}

/// Where the OpenCode database is: an explicit path, or discovered.
#[derive(Clone, Debug)]
pub struct OpenCodeProvider {
    explicit_db_path: Option<String>,
}

impl OpenCodeProvider {
    /// A provider that discovers the database.
    pub fn new() -> (res: OpenCodeProvider)
        ensures
            res.db_path_override() is None,
    {
        OpenCodeProvider { explicit_db_path: None }
    }

    /// A provider that uses the database at `path`.
    pub fn with_db_path(path: String) -> (res: OpenCodeProvider)
        ensures
            res.db_path_override() == Some(path),
    {
        OpenCodeProvider { explicit_db_path: Some(path) }
    }

    pub closed spec fn db_path_override(&self) -> Option<String> {
        self.explicit_db_path
    }

    /// The explicit database path, which wins over every other source.
    pub fn explicit_db_path(&self) -> (res: Option<&String>)
        ensures
            match self.db_path_override() {
                Some(p) => res == Some(&p),
                None => res is None,
            },
    {
        match &self.explicit_db_path {
            Some(p) => Some(p),
            None => None,
        }
    }
}

impl Default for OpenCodeProvider {
    fn default() -> (res: Self)
        ensures
            res.db_path_override() is None,
    {
        OpenCodeProvider::new()
    }
}

// ---------------------------------------------------------------------------
// Daily usage by provider and model
// ---------------------------------------------------------------------------

/// The provider and model a message is counted under, where it counts:
/// only messages whose role is `assistant` count, and a missing provider or
/// model is `unknown`.
pub open spec fn assistant_key(
    role: Option<Seq<char>>,
    provider: Option<Seq<char>>,
    model: Option<Seq<char>>,
) -> Option<(Seq<char>, Seq<char>)> {
    if role == Some("assistant"@) {
        Some(
            (
                match provider {
                    Some(p) => p,
                    None => "unknown"@,
                },
                match model {
                    Some(m) => m,
                    None => "unknown"@,
                },
            ),
        )
    } else {
        None
    }
}

/// Whether a message counts, and under which provider and model.
pub fn assistant_key_of(
    role: Option<&str>,
    provider: Option<String>,
    model: Option<String>,
) -> (res: Option<(String, String)>)
    ensures
        match assistant_key(
            crate::codex::opt_view(role),
            crate::paths::owned_view(provider),
            crate::paths::owned_view(model),
        ) {
            Some((p, m)) => res matches Some((a, b)) && a@ == p && b@ == m,
            None => res is None,
        },
{
    let assistant = chars_of("assistant");
    let is_assistant = match role {
        Some(r) => chars_eq(chars_of(r).as_slice(), assistant.as_slice()),
        None => false,
    };
    if !is_assistant {
        return None;
    }
    let provider = match provider {
        Some(p) => p,
        None => String::from_str("unknown"),
    };
    let model = match model {
        Some(m) => m,
        None => String::from_str("unknown"),
    };
    Some((provider, model))
}

/// One assistant message in the date range: its local day, provider, model
/// and token counts.
#[derive(Clone, Debug)]
pub struct UsageRecord {
    pub day: String,
    pub provider: String,
    pub model: String,
    pub usage: Usage,
}

/// The messages of one day, provider and model: their summed usage and the
/// positions of the records that belong to it, in order.
#[derive(Clone, Debug)]
pub struct UsageGroup {
    pub day: String,
    pub provider: String,
    pub model: String,
    pub usage: Usage,
    pub members: Vec<usize>,
}

pub type Key = (Seq<char>, Seq<char>, Seq<char>);

pub open spec fn record_key(r: UsageRecord) -> Key {
    (r.day@, r.provider@, r.model@)
}

pub open spec fn group_key(g: UsageGroup) -> Key {
    (g.day@, g.provider@, g.model@)
}

/// Order by day, then provider, then model.
pub open spec fn key_lt(a: Key, b: Key) -> bool {
    ||| lex_lt(a.0, b.0)
    ||| a.0 == b.0 && lex_lt(a.1, b.1)
    ||| a.0 == b.0 && a.1 == b.1 && lex_lt(a.2, b.2)
}

pub proof fn lemma_key_order(a: Key, b: Key, c: Key)
    ensures
        !key_lt(a, a),
        key_lt(a, b) ==> !key_lt(b, a),
        key_lt(a, b) && key_lt(b, c) ==> key_lt(a, c),
        a != b ==> key_lt(a, b) || key_lt(b, a),
{
    crate::text::lemma_lex_irreflexive(a.0);
    crate::text::lemma_lex_irreflexive(a.1);
    crate::text::lemma_lex_irreflexive(a.2);
    crate::text::lemma_lex_asymmetric(a.0, b.0);
    crate::text::lemma_lex_asymmetric(a.1, b.1);
    crate::text::lemma_lex_asymmetric(a.2, b.2);
    crate::text::lemma_lex_transitive(a.0, b.0, c.0);
    crate::text::lemma_lex_transitive(a.1, b.1, c.1);
    crate::text::lemma_lex_transitive(a.2, b.2, c.2);
    crate::text::lemma_lex_total(a.0, b.0);
    crate::text::lemma_lex_total(a.1, b.1);
    crate::text::lemma_lex_total(a.2, b.2);
}

/// `total` with one more message of usage `one` counted, every field
/// saturating.
pub open spec fn counted(total: Usage, one: Usage) -> Usage {
    Usage {
        messages: sat_add(total.messages, 1),
        input_tokens: sat_add(total.input_tokens, one.input_tokens),
        output_tokens: sat_add(total.output_tokens, one.output_tokens),
        reasoning_tokens: sat_add(total.reasoning_tokens, one.reasoning_tokens),
        cache_read_tokens: sat_add(total.cache_read_tokens, one.cache_read_tokens),
        cache_write_tokens: sat_add(total.cache_write_tokens, one.cache_write_tokens),
    }
}

/// The usage of the records with key `k`, counted in order.
pub open spec fn group_usage(records: Seq<UsageRecord>, k: Key) -> Usage
    decreases records.len(),
{
    if records.len() == 0 {
        zero_usage()
    } else {
        let prev = group_usage(records.drop_last(), k);
        if record_key(records.last()) == k {
            counted(prev, records.last().usage)
        } else {
            prev
        }
    }
}

/// The positions of the records with key `k`, in order.
pub open spec fn members_of(records: Seq<UsageRecord>, k: Key) -> Seq<usize>
    decreases records.len(),
{
    if records.len() == 0 {
        Seq::empty()
    } else {
        let prev = members_of(records.drop_last(), k);
        if record_key(records.last()) == k {
            prev.push((records.len() - 1) as usize)
        } else {
            prev
        }
    }
}

/// `groups` is the grouping of `records`: one group per key that occurs,
/// sorted by key, each with the usage and the positions of its records.
pub open spec fn grouped(records: Seq<UsageRecord>, groups: Seq<UsageGroup>) -> bool {
    &&& forall|i: int, j: int|
        0 <= i < j < groups.len() ==> key_lt(group_key(groups[i]), group_key(groups[j]))
    &&& forall|i: int|
        0 <= i < groups.len() ==> {
            &&& (#[trigger] groups[i]).usage == group_usage(records, group_key(groups[i]))
            &&& groups[i].members@ == members_of(records, group_key(groups[i]))
            &&& groups[i].members@.len() > 0
        }
    &&& forall|m: int|
        0 <= m < records.len() ==> exists|i: int|
            0 <= i < groups.len() && group_key(#[trigger] groups[i]) == record_key(
                #[trigger] records[m],
            )
}

/// The sum of one token count over the records with key `k`.
pub open spec fn token_sum(records: Seq<UsageRecord>, k: Key, count: spec_fn(Usage) -> u64) -> int
    decreases records.len(),
{
    if records.len() == 0 {
        0
    } else {
        token_sum(records.drop_last(), k, count) + if record_key(records.last()) == k {
            count(records.last().usage) as int
        } else {
            0
        }
    }
}

/// `n`, or the largest `u64` where `n` is larger.
pub open spec fn capped(n: int) -> int {
    if n > u64::MAX {
        u64::MAX as int
    } else {
        n
    }
}

proof fn lemma_group_count(records: Seq<UsageRecord>, k: Key, count: spec_fn(Usage) -> u64)
    requires
        forall|u: Usage, t: Usage|
            #![trigger count(counted(t, u))]
            count(counted(t, u)) == sat_add(count(t), count(u)),
        count(zero_usage()) == 0,
    ensures
        count(group_usage(records, k)) == capped(token_sum(records, k, count)),
        token_sum(records, k, count) >= 0,
    decreases records.len(),
{
    if records.len() > 0 {
        lemma_group_count(records.drop_last(), k, count);
    }
}

/// Each group counts each of its records once: its message count is its
/// number of records, and each of its token counts is the sum of its
/// records' counts, capped at the largest `u64`.
pub proof fn law_group_totals(records: Seq<UsageRecord>, k: Key)
    requires
        records.len() <= usize::MAX,
    ensures
        group_usage(records, k).messages == members_of(records, k).len(),
        group_usage(records, k).input_tokens == capped(
            token_sum(records, k, |u: Usage| u.input_tokens),
        ),
        group_usage(records, k).output_tokens == capped(
            token_sum(records, k, |u: Usage| u.output_tokens),
        ),
        group_usage(records, k).reasoning_tokens == capped(
            token_sum(records, k, |u: Usage| u.reasoning_tokens),
        ),
        group_usage(records, k).cache_read_tokens == capped(
            token_sum(records, k, |u: Usage| u.cache_read_tokens),
        ),
        group_usage(records, k).cache_write_tokens == capped(
            token_sum(records, k, |u: Usage| u.cache_write_tokens),
        ),
{
    lemma_message_count(records, k);
    lemma_group_count(records, k, |u: Usage| u.input_tokens);
    lemma_group_count(records, k, |u: Usage| u.output_tokens);
    lemma_group_count(records, k, |u: Usage| u.reasoning_tokens);
    lemma_group_count(records, k, |u: Usage| u.cache_read_tokens);
    lemma_group_count(records, k, |u: Usage| u.cache_write_tokens);
}

proof fn lemma_message_count(records: Seq<UsageRecord>, k: Key)
    requires
        records.len() <= usize::MAX,
    ensures
        group_usage(records, k).messages == members_of(records, k).len(),
        members_of(records, k).len() <= records.len(),
    decreases records.len(),
{
    if records.len() > 0 {
        lemma_message_count(records.drop_last(), k);
    }
}

proof fn lemma_absent_key(records: Seq<UsageRecord>, k: Key)
    requires
        forall|m: int| 0 <= m < records.len() ==> record_key(#[trigger] records[m]) != k,
    ensures
        group_usage(records, k) == zero_usage(),
        members_of(records, k) == Seq::<usize>::empty(),
    decreases records.len(),
{
    if records.len() > 0 {
        assert(record_key(records[records.len() - 1]) != k);
        assert forall|m: int| 0 <= m < records.drop_last().len() implies record_key(
            #[trigger] records.drop_last()[m],
        ) != k by {
            assert(records.drop_last()[m] == records[m]);
        }
        lemma_absent_key(records.drop_last(), k);
    }
}

proof fn lemma_members_bounded(records: Seq<UsageRecord>, k: Key)
    requires
        records.len() <= usize::MAX,
    ensures
        forall|i: int|
            0 <= i < members_of(records, k).len() ==> #[trigger] members_of(records, k)[i]
                < records.len() && record_key(records[members_of(records, k)[i] as int]) == k,
        forall|i: int, j: int|
            0 <= i < j < members_of(records, k).len() ==> members_of(records, k)[i]
                < members_of(records, k)[j],
    decreases records.len(),
{
    if records.len() > 0 {
        lemma_members_bounded(records.drop_last(), k);
        let p = members_of(records.drop_last(), k);
        assert forall|i: int| 0 <= i < p.len() implies records[p[i] as int]
            == records.drop_last()[p[i] as int] by {}
        if record_key(records.last()) == k {
            let q = p.push((records.len() - 1) as usize);
            assert(members_of(records, k) == q);
            assert forall|i: int| 0 <= i < q.len() implies #[trigger] q[i] < records.len()
                && record_key(records[q[i] as int]) == k by {
                if i < p.len() {
                    assert(q[i] == p[i]);
                }
            }
            assert forall|i: int, j: int| 0 <= i < j < q.len() implies q[i] < q[j] by {
                if j < p.len() {
                    assert(q[i] == p[i] && q[j] == p[j]);
                } else {
                    assert(q[i] == p[i]);
                }
            }
        }
    }
}

fn text_key_less(a0: &str, a1: &str, a2: &str, b0: &str, b1: &str, b2: &str) -> (res: bool)
    ensures
        res == key_lt((a0@, a1@, a2@), (b0@, b1@, b2@)),
{
    let x0 = chars_of(a0);
    let y0 = chars_of(b0);
    if lex_less(x0.as_slice(), y0.as_slice()) {
        return true;
    }
    if !chars_eq(x0.as_slice(), y0.as_slice()) {
        return false;
    }
    let x1 = chars_of(a1);
    let y1 = chars_of(b1);
    if lex_less(x1.as_slice(), y1.as_slice()) {
        return true;
    }
    if !chars_eq(x1.as_slice(), y1.as_slice()) {
        return false;
    }
    let x2 = chars_of(a2);
    let y2 = chars_of(b2);
    lex_less(x2.as_slice(), y2.as_slice())
}

fn text_key_eq(a0: &str, a1: &str, a2: &str, b0: &str, b1: &str, b2: &str) -> (res: bool)
    ensures
        res == ((a0@, a1@, a2@) == (b0@, b1@, b2@)),
{
    let x0 = chars_of(a0);
    let y0 = chars_of(b0);
    let x1 = chars_of(a1);
    let y1 = chars_of(b1);
    let x2 = chars_of(a2);
    let y2 = chars_of(b2);
    chars_eq(x0.as_slice(), y0.as_slice()) && chars_eq(x1.as_slice(), y1.as_slice()) && chars_eq(
        x2.as_slice(),
        y2.as_slice(),
    )
}

fn count_message(total: &Usage, one: &Usage) -> (res: Usage)
    ensures
        res == counted(*total, *one),
{
    Usage {
        messages: total.messages.saturating_add(1),
        input_tokens: total.input_tokens.saturating_add(one.input_tokens),
        output_tokens: total.output_tokens.saturating_add(one.output_tokens),
        reasoning_tokens: total.reasoning_tokens.saturating_add(one.reasoning_tokens),
        cache_read_tokens: total.cache_read_tokens.saturating_add(one.cache_read_tokens),
        cache_write_tokens: total.cache_write_tokens.saturating_add(one.cache_write_tokens),
    }
}

/// Groups the records by day, provider and model. The groups come sorted by
/// day, then provider, then model; each holds the saturating sums of its
/// records' tokens, its message count, and the positions of its records.
pub fn aggregate_usage(records: &Vec<UsageRecord>) -> (res: Vec<UsageGroup>)
    ensures
        grouped(records@, res@),
{
    let mut groups: Vec<UsageGroup> = Vec::new();
    let mut m: usize = 0;
    proof {
        assert(records@.take(0) == Seq::<UsageRecord>::empty());
    }
    while m < records.len()
        invariant
            m <= records.len(),
            grouped(records@.take(m as int), groups@),
        decreases records.len() - m,
    {
        let r = &records[m];
        let ghost before = records@.take(m as int);
        let ghost after = records@.take(m + 1);
        let ghost k = record_key(*r);
        let ghost old_groups = groups@;
        proof {
            assert(after.drop_last() == before);
            assert(after.last() == *r);
            assert forall|k2: Key| k2 != k implies group_usage(after, k2) == group_usage(
                before,
                k2,
            ) && members_of(after, k2) == members_of(before, k2) by {}
            assert(group_usage(after, k) == counted(group_usage(before, k), r.usage));
            assert(members_of(after, k) == members_of(before, k).push(m));
        }
        let mut j: usize = 0;
        while j < groups.len()
            invariant
                j <= groups.len(),
                groups@ == old_groups,
                grouped(before, old_groups),
                k == record_key(*r),
                forall|i: int| 0 <= i < j ==> key_lt(group_key(#[trigger] old_groups[i]), k),
            ensures
                j <= groups.len(),
                groups@ == old_groups,
                forall|i: int| 0 <= i < j ==> key_lt(group_key(#[trigger] old_groups[i]), k),
                j < groups.len() ==> (group_key(old_groups[j as int]) == k || key_lt(
                    k,
                    group_key(old_groups[j as int]),
                )),
            decreases groups.len() - j,
        {
            let g = &groups[j];
            if text_key_eq(
                g.day.as_str(),
                g.provider.as_str(),
                g.model.as_str(),
                r.day.as_str(),
                r.provider.as_str(),
                r.model.as_str(),
            ) {
                break ;
            }
            if text_key_less(
                r.day.as_str(),
                r.provider.as_str(),
                r.model.as_str(),
                g.day.as_str(),
                g.provider.as_str(),
                g.model.as_str(),
            ) {
                break ;
            }
            proof {
                lemma_key_order(group_key(old_groups[j as int]), k, k);
            }
            j = j + 1;
        }
        let same = j < groups.len() && text_key_eq(
            groups[j].day.as_str(),
            groups[j].provider.as_str(),
            groups[j].model.as_str(),
            r.day.as_str(),
            r.provider.as_str(),
            r.model.as_str(),
        );
        if same {
            let mut g = groups.remove(j);
            let ghost g_old = g;
            g.usage = count_message(&g.usage, &r.usage);
            g.members.push(m);
            groups.insert(j, g);
            proof {
                assert(groups@ == old_groups.update(j as int, g));
                assert(group_key(g) == group_key(g_old));
                assert forall|i: int, i2: int| 0 <= i < i2 < groups@.len() implies key_lt(
                    group_key(groups@[i]),
                    group_key(groups@[i2]),
                ) by {
                    assert(group_key(groups@[i]) == group_key(old_groups[i]));
                    assert(group_key(groups@[i2]) == group_key(old_groups[i2]));
                }
                assert forall|i: int| 0 <= i < groups@.len() implies {
                    &&& (#[trigger] groups@[i]).usage == group_usage(after, group_key(groups@[i]))
                    &&& groups@[i].members@ == members_of(after, group_key(groups@[i]))
                    &&& groups@[i].members@.len() > 0
                } by {
                    if i != j {
                        assert(groups@[i] == old_groups[i]);
                        if group_key(old_groups[i]) == k {
                            lemma_key_order(group_key(old_groups[i]), group_key(g_old), k);
                            if i < j {
                                assert(key_lt(group_key(old_groups[i]), group_key(old_groups[j as int])));
                            } else {
                                assert(key_lt(group_key(old_groups[j as int]), group_key(old_groups[i])));
                            }
                        }
                    }
                }
                assert forall|mm: int| 0 <= mm < after.len() implies exists|i: int|
                    0 <= i < groups@.len() && group_key(#[trigger] groups@[i]) == record_key(
                        #[trigger] after[mm],
                    ) by {
                    if mm < before.len() {
                        assert(after[mm] == before[mm]);
                        let i = choose|i: int|
                            0 <= i < old_groups.len() && group_key(#[trigger] old_groups[i])
                                == record_key(before[mm]);
                        assert(group_key(groups@[i]) == group_key(old_groups[i]));
                    } else {
                        assert(group_key(groups@[j as int]) == record_key(after[mm]));
                    }
                }
            }
        } else {
            let ghost at_end = j == groups.len();
            proof {
                assert forall|i: int| 0 <= i < old_groups.len() implies group_key(
                    #[trigger] old_groups[i],
                ) != k by {
                    if i < j {
                        lemma_key_order(group_key(old_groups[i]), k, k);
                    } else if !at_end {
                        lemma_key_order(k, group_key(old_groups[j as int]), group_key(old_groups[i]));
                        if i > j {
                            assert(key_lt(group_key(old_groups[j as int]), group_key(old_groups[i])));
                        }
                        lemma_key_order(k, group_key(old_groups[i]), k);
                    }
                }
                assert forall|mm: int| 0 <= mm < before.len() implies record_key(
                    #[trigger] before[mm],
                ) != k by {
                    let i = choose|i: int|
                        0 <= i < old_groups.len() && group_key(#[trigger] old_groups[i])
                            == record_key(before[mm]);
                }
                lemma_absent_key(before, k);
            }
            let mut members: Vec<usize> = Vec::new();
            members.push(m);
            let g = UsageGroup {
                day: r.day.clone(),
                provider: r.provider.clone(),
                model: r.model.clone(),
                usage: count_message(&Usage::default(), &r.usage),
                members,
            };
            proof {
                assert(group_key(g) == k);
                assert(g.members@ == seq![m]);
                assert(members_of(after, k) == Seq::<usize>::empty().push(m));
            }
            groups.insert(j, g);
            proof {
                assert(groups@ == old_groups.insert(j as int, g));
                assert forall|i: int, i2: int| 0 <= i < i2 < groups@.len() implies key_lt(
                    group_key(groups@[i]),
                    group_key(groups@[i2]),
                ) by {
                    if i2 < j {
                        assert(groups@[i] == old_groups[i] && groups@[i2] == old_groups[i2]);
                    } else if i2 == j {
                        assert(groups@[i] == old_groups[i]);
                    } else if i == j {
                        assert(groups@[i2] == old_groups[i2 - 1]);
                        if i2 - 1 > j {
                            assert(key_lt(group_key(old_groups[j as int]), group_key(old_groups[i2 - 1])));
                            lemma_key_order(k, group_key(old_groups[j as int]), group_key(old_groups[i2 - 1]));
                        }
                    } else if i < j {
                        assert(groups@[i] == old_groups[i] && groups@[i2] == old_groups[i2 - 1]);
                    } else {
                        assert(groups@[i] == old_groups[i - 1] && groups@[i2] == old_groups[i2 - 1]);
                    }
                }
                assert forall|i: int| 0 <= i < groups@.len() implies {
                    &&& (#[trigger] groups@[i]).usage == group_usage(after, group_key(groups@[i]))
                    &&& groups@[i].members@ == members_of(after, group_key(groups@[i]))
                    &&& groups@[i].members@.len() > 0
                } by {
                    if i < j {
                        assert(groups@[i] == old_groups[i]);
                    } else if i > j {
                        assert(groups@[i] == old_groups[i - 1]);
                    }
                }
                assert forall|mm: int| 0 <= mm < after.len() implies exists|i: int|
                    0 <= i < groups@.len() && group_key(#[trigger] groups@[i]) == record_key(
                        #[trigger] after[mm],
                    ) by {
                    if mm < before.len() {
                        assert(after[mm] == before[mm]);
                        let i = choose|i: int|
                            0 <= i < old_groups.len() && group_key(#[trigger] old_groups[i])
                                == record_key(before[mm]);
                        if i < j {
                            assert(groups@[i] == old_groups[i]);
                        } else {
                            assert(groups@[i + 1] == old_groups[i]);
                        }
                    } else {
                        assert(groups@[j as int] == g);
                    }
                }
            }
        }
        m = m + 1;
    }
    proof {
        assert(records@.take(records.len() as int) == records@);
    }
    groups
}

/// Every record belongs to exactly one group: its position is among the
/// members of the group with its key, and of no other.
pub proof fn law_groups_partition_records(records: Seq<UsageRecord>, groups: Seq<UsageGroup>)
    requires
        records.len() <= usize::MAX,
        grouped(records, groups),
    ensures
        forall|m: int, i: int|
            0 <= m < records.len() && 0 <= i < groups.len() ==> ((#[trigger] groups[i]).members@.contains(
                m as usize,
            ) <==> group_key(groups[i]) == record_key(#[trigger] records[m])),
        forall|i: int, j: int|
            0 <= i < groups.len() && 0 <= j < groups.len() && i != j ==> group_key(groups[i])
                != group_key(groups[j]),
{
    assert forall|m: int, i: int|
        0 <= m < records.len() && 0 <= i < groups.len() implies ((#[trigger] groups[i]).members@.contains(
        m as usize,
    ) <==> group_key(groups[i]) == record_key(#[trigger] records[m])) by {
        let k = group_key(groups[i]);
        lemma_members_bounded(records, k);
        if groups[i].members@.contains(m as usize) {
            let idx = choose|idx: int| 0 <= idx < groups[i].members@.len() && groups[i].members@[idx]
                == m as usize;
            assert(members_of(records, k)[idx] == m as usize);
        }
        if record_key(records[m]) == k {
            lemma_members_complete(records, k, m);
        }
    }
    assert forall|i: int, j: int|
        0 <= i < groups.len() && 0 <= j < groups.len() && i != j implies group_key(groups[i])
        != group_key(groups[j]) by {
        lemma_key_order(group_key(groups[i]), group_key(groups[j]), group_key(groups[j]));
        if i < j {
            assert(key_lt(group_key(groups[i]), group_key(groups[j])));
        } else {
            assert(key_lt(group_key(groups[j]), group_key(groups[i])));
        }
    }
}

proof fn lemma_members_complete(records: Seq<UsageRecord>, k: Key, m: int)
    requires
        records.len() <= usize::MAX,
        0 <= m < records.len(),
        record_key(records[m]) == k,
    ensures
        members_of(records, k).contains(m as usize),
    decreases records.len(),
{
    if m < records.len() - 1 {
        assert(records.drop_last()[m] == records[m]);
        lemma_members_complete(records.drop_last(), k, m);
        let p = members_of(records.drop_last(), k);
        let idx = choose|idx: int| 0 <= idx < p.len() && p[idx] == m as usize;
        if record_key(records.last()) == k {
            assert(p.push((records.len() - 1) as usize)[idx] == m as usize);
        }
    } else {
        let p = members_of(records.drop_last(), k);
        assert(members_of(records, k) == p.push(m as usize));
        assert(members_of(records, k)[p.len() as int] == m as usize);
    }
}

// ---------------------------------------------------------------------------
// Projects
// ---------------------------------------------------------------------------

/// A session row: its project id and the components of its normalised
/// directory (`None` where the column is not text).
#[derive(Clone, Debug)]
pub struct SessionDirectory {
    pub project_id: Option<String>,
    pub directory: Option<Vec<String>>,
}

pub open spec fn components(v: Seq<String>) -> Seq<Seq<char>> {
    v.map_values(|s: String| s@)
}

/// `dir` is a proper ancestor of `target` (`Path::starts_with`, not equal).
pub open spec fn proper_ancestor(dir: Seq<Seq<char>>, target: Seq<Seq<char>>) -> bool {
    dir.len() < target.len() && target.take(dir.len() as int) == dir
}

/// The project of the first session whose directory is `target`.
pub open spec fn exact_project(rows: Seq<SessionDirectory>, target: Seq<Seq<char>>) -> Option<
    Seq<char>,
>
    decreases rows.len(),
{
    if rows.len() == 0 {
        None
    } else {
        let prev = exact_project(rows.drop_last(), target);
        if prev is Some {
            prev
        } else {
            let r = rows.last();
            match (r.project_id, r.directory) {
                (Some(p), Some(d)) => if components(d@) == target {
                    Some(p@)
                } else {
                    None
                },
                _ => None,
            }
        }
    }
}

/// The deepest proper ancestor of `target` among the session directories,
/// with its depth and project; the first such session wins ties.
pub open spec fn deepest_ancestor(rows: Seq<SessionDirectory>, target: Seq<Seq<char>>) -> Option<
    (nat, Seq<char>),
>
    decreases rows.len(),
{
    if rows.len() == 0 {
        None
    } else {
        let prev = deepest_ancestor(rows.drop_last(), target);
        let r = rows.last();
        match (r.project_id, r.directory) {
            (Some(p), Some(d)) => if proper_ancestor(components(d@), target) && match prev {
                None => true,
                Some((depth, _)) => d@.len() > depth,
            } {
                Some((d@.len(), p@))
            } else {
                prev
            },
            _ => prev,
        }
    }
}

/// The project of `target`: the project of a session in exactly that
/// directory, else of the session in its deepest ancestor directory.
pub open spec fn project_of(rows: Seq<SessionDirectory>, target: Seq<Seq<char>>) -> Option<
    Seq<char>,
> {
    match exact_project(rows, target) {
        Some(p) => Some(p),
        None => match deepest_ancestor(rows, target) {
            Some((_, p)) => Some(p),
            None => None,
        },
    }
}

/// Row `k` is a session with a project in exactly the directory `target`.
pub open spec fn exact_row(rows: Seq<SessionDirectory>, target: Seq<Seq<char>>, k: int) -> bool {
    rows[k].project_id is Some && rows[k].directory is Some && components(rows[k].directory->0@)
        == target
}

proof fn lemma_no_exact_row(rows: Seq<SessionDirectory>, target: Seq<Seq<char>>)
    requires
        forall|j: int| 0 <= j < rows.len() ==> !#[trigger] exact_row(rows, target, j),
    ensures
        exact_project(rows, target) is None,
    decreases rows.len(),
{
    if rows.len() > 0 {
        let front = rows.drop_last();
        assert forall|j: int| 0 <= j < front.len() implies !#[trigger] exact_row(front, target, j) by {
            assert(front[j] == rows[j]);
            assert(!exact_row(rows, target, j));
        }
        lemma_no_exact_row(front, target);
        assert(!exact_row(rows, target, rows.len() - 1));
    }
}

proof fn lemma_first_exact_row(rows: Seq<SessionDirectory>, target: Seq<Seq<char>>, k: int)
    requires
        0 <= k < rows.len(),
        exact_row(rows, target, k),
        forall|j: int| 0 <= j < k ==> !#[trigger] exact_row(rows, target, j),
    ensures
        exact_project(rows, target) == Some(rows[k].project_id->0@),
    decreases rows.len(),
{
    let front = rows.drop_last();
    if rows.len() - 1 > k {
        assert(front[k] == rows[k]);
        assert forall|j: int| 0 <= j < k implies !#[trigger] exact_row(front, target, j) by {
            assert(front[j] == rows[j]);
            assert(!exact_row(rows, target, j));
        }
        assert(exact_row(front, target, k));
        lemma_first_exact_row(front, target, k);
    } else {
        assert forall|j: int| 0 <= j < front.len() implies !#[trigger] exact_row(front, target, j) by {
            assert(front[j] == rows[j]);
            assert(!exact_row(rows, target, j));
        }
        lemma_no_exact_row(front, target);
        assert(rows.last() == rows[k]);
    }
}

/// A session in exactly the target directory decides its project: the first
/// such session's project is the result, whatever sessions in its ancestor
/// directories say.
pub proof fn law_exact_directory_wins(rows: Seq<SessionDirectory>, target: Seq<Seq<char>>, k: int)
    requires
        0 <= k < rows.len(),
        rows[k].project_id is Some,
        rows[k].directory is Some,
        components(rows[k].directory->0@) == target,
        forall|j: int|
            0 <= j < k ==> !(#[trigger] rows[j].project_id is Some && rows[j].directory is Some
                && components(rows[j].directory->0@) == target),
    ensures
        project_of(rows, target) == Some(rows[k].project_id->0@),
{
    assert forall|j: int| 0 <= j < k implies !#[trigger] exact_row(rows, target, j) by {
        assert(!(rows[j].project_id is Some && rows[j].directory is Some && components(
            rows[j].directory->0@,
        ) == target));
    }
    lemma_first_exact_row(rows, target, k);
}

fn components_eq(a: &Vec<String>, b: &Vec<String>, len: usize) -> (res: bool)
    requires
        len <= a@.len(),
        len <= b@.len(),
    ensures
        res == (components(a@).take(len as int) == components(b@).take(len as int)),
{
    let mut i: usize = 0;
    while i < len
        invariant
            i <= len <= a@.len(),
            len <= b@.len(),
            components(a@).take(i as int) == components(b@).take(i as int),
        decreases len - i,
    {
        let x = chars_of(a[i].as_str());
        let y = chars_of(b[i].as_str());
        if !chars_eq(x.as_slice(), y.as_slice()) {
            assert(components(a@).take(len as int)[i as int] != components(b@).take(len as int)[i as int]);
            return false;
        }
        assert(components(a@).take(i + 1) == components(a@).take(i as int).push(a@[i as int]@));
        assert(components(b@).take(i + 1) == components(b@).take(i as int).push(b@[i as int]@));
        i = i + 1;
    }
    true
}

/// The project that a directory belongs to.
pub fn resolve_project_id(rows: &Vec<SessionDirectory>, target: &Vec<String>) -> (res: Option<
    String,
>)
    ensures
        match project_of(rows@, components(target@)) {
            Some(p) => res matches Some(s) && s@ == p,
            None => res is None,
        },
        forall|k: int|
            0 <= k < rows@.len() && (#[trigger] rows@[k]).project_id is Some
                && rows@[k].directory is Some && components(rows@[k].directory->0@) == components(
                target@,
            ) && (forall|j: int|
                0 <= j < k ==> !(#[trigger] rows@[j].project_id is Some && rows@[j].directory is Some
                    && components(rows@[j].directory->0@) == components(target@))) ==> (res matches Some(
                s,
            ) && s@ == rows@[k].project_id->0@),
{
    let ghost t = components(target@);
    let mut exact: Option<String> = None;
    let mut best: Option<(usize, String)> = None;
    let mut i: usize = 0;
    proof {
        assert(rows@.take(0) == Seq::<SessionDirectory>::empty());
    }
    while i < rows.len()
        invariant
            i <= rows.len(),
            t == components(target@),
            match exact_project(rows@.take(i as int), t) {
                Some(p) => exact matches Some(s) && s@ == p,
                None => exact is None,
            },
            match deepest_ancestor(rows@.take(i as int), t) {
                Some((depth, p)) => best matches Some((d, s)) && d == depth && s@ == p,
                None => best is None,
            },
        decreases rows.len() - i,
    {
        let row = &rows[i];
        proof {
            assert(rows@.take(i + 1).drop_last() == rows@.take(i as int));
            assert(rows@.take(i + 1).last() == rows@[i as int]);
        }
        match (&row.project_id, &row.directory) {
            (Some(project), Some(dir)) => {
                let equal = dir.len() == target.len() && components_eq(dir, target, dir.len());
                proof {
                    if dir.len() == target.len() {
                        assert(components(dir@).take(dir.len() as int) == components(dir@));
                        assert(t.take(dir.len() as int) == t);
                    }
                }
                if equal {
                    if exact.is_none() {
                        exact = Some(project.clone());
                    }
                    proof {
                        assert(!proper_ancestor(components(dir@), t));
                    }
                } else {
                    let ancestor = dir.len() < target.len() && components_eq(
                        dir,
                        target,
                        dir.len(),
                    );
                    proof {
                        if dir.len() < target.len() {
                            assert(components(dir@).take(dir.len() as int) == components(dir@));
                        }
                        if dir.len() == target.len() {
                            assert(components(dir@) != t);
                        }
                    }
                    if ancestor {
                        let deeper = match &best {
                            None => true,
                            Some((depth, _)) => dir.len() > *depth,
                        };
                        if deeper {
                            best = Some((dir.len(), project.clone()));
                        }
                    }
                }
            },
            _ => {},
        }
        i = i + 1;
    }
    proof {
        assert(rows@.take(rows.len() as int) == rows@);
        assert forall|k: int|
            0 <= k < rows@.len() && (#[trigger] rows@[k]).project_id is Some
                && rows@[k].directory is Some && components(rows@[k].directory->0@) == t && (forall|
                j: int,
            |
                0 <= j < k ==> !(#[trigger] rows@[j].project_id is Some && rows@[j].directory is Some
                    && components(rows@[j].directory->0@) == t)) implies project_of(rows@, t) == Some(
            rows@[k].project_id->0@,
        ) by {
            law_exact_directory_wins(rows@, t, k);
        }
    }
    match exact {
        Some(p) => Some(p),
        None => match best {
            Some((_, p)) => Some(p),
            None => None,
        },
    }
}

/// The path components `Path::file_name` looks at: the pieces between `/`
/// that are neither empty nor `.`.
pub open spec fn path_segments(path: Seq<char>) -> Seq<Seq<char>> {
    crate::text::non_empty(crate::text::pieces(path, crate::text::Separator::Slash)).filter(
        |s: Seq<char>| s != seq!['.'],
    )
}

/// `Path::file_name`: the last component, unless the path ends in `..` or
/// has no normal component.
pub open spec fn file_name(path: Seq<char>) -> Option<Seq<char>> {
    let segs = path_segments(path);
    if segs.len() == 0 || segs.last() == seq!['.', '.'] {
        None
    } else {
        Some(segs.last())
    }
}

/// The display name of a project.
pub open spec fn project_display_name(id: Seq<char>, path: Seq<char>, name: Seq<char>) -> Seq<char> {
    if trim(name).len() > 0 {
        trim(name)
    } else if id == "global"@ || path == "/"@ {
        "global"@
    } else {
        match file_name(path) {
            Some(f) => if f.len() > 0 {
                f
            } else {
                id
            },
            None => id,
        }
    }
}

fn file_name_chars(path: &[char]) -> (res: Option<Vec<char>>)
    ensures
        match file_name(path@) {
            Some(f) => res matches Some(v) && v@ == f,
            None => res is None,
        },
{
    let words = crate::text::split_words(path, crate::text::Separator::Slash);
    let ghost ws = crate::text::views_of(words@);
    let mut last: Option<usize> = None;
    let mut i: usize = 0;
    let dot = ['.'];
    assert(dot@ == seq!['.']);
    proof {
        assert(ws.take(0).filter(|s: Seq<char>| s != seq!['.']) == Seq::<Seq<char>>::empty());
    }
    while i < words.len()
        invariant
            i <= words.len(),
            ws == crate::text::views_of(words@),
            dot@ == seq!['.'],
            match last {
                None => ws.take(i as int).filter(|s: Seq<char>| s != seq!['.']).len() == 0,
                Some(k) => k < i && ws.take(i as int).filter(|s: Seq<char>| s != seq!['.']).len() > 0
                    && ws.take(i as int).filter(|s: Seq<char>| s != seq!['.']).last() == ws[k as int],
            },
        decreases words.len() - i,
    {
        proof {
            assert(ws.take(i + 1) == ws.take(i as int).push(ws[i as int]));
            ws.take(i as int).lemma_filter_push(ws[i as int], |s: Seq<char>| s != seq!['.']);
        }
        if !chars_eq(words[i].as_slice(), dot.as_slice()) {
            last = Some(i);
        }
        i = i + 1;
    }
    proof {
        assert(ws.take(words.len() as int) == ws);
    }
    match last {
        None => None,
        Some(k) => {
            let dots = ['.', '.'];
            assert(dots@ == seq!['.', '.']);
            if chars_eq(words[k].as_slice(), dots.as_slice()) {
                None
            } else {
                Some(words[k].clone())
            }
        },
    }
}

/// The display name of a project: its trimmed name, else `global` for the
/// global project or the root directory, else the last component of its path,
/// else its id.
pub fn project_name(id: &str, path: &str, name: &str) -> (res: String)
    ensures
        res@ == project_display_name(id@, path@, name@),
{
    let n = chars_of(name);
    let t = trim_chars(n.as_slice());
    if t.len() > 0 {
        return string_from_chars(t.as_slice());
    }
    let idc = chars_of(id);
    let pc = chars_of(path);
    let global = chars_of("global");
    let root = chars_of("/");
    if chars_eq(idc.as_slice(), global.as_slice()) || chars_eq(pc.as_slice(), root.as_slice()) {
        return String::from_str("global");
    }
    match file_name_chars(pc.as_slice()) {
        Some(f) => if f.len() > 0 {
            string_from_chars(f.as_slice())
        } else {
            String::from_str(id)
        },
        None => String::from_str(id),
    }
}

/// A column of that name is among the columns found.
pub open spec fn column_found(found: Seq<String>, want: Seq<char>) -> bool {
    exists|i: int| 0 <= i < found.len() && (#[trigger] found[i])@ == want
}

/// Whether every required column name is among the columns found.
pub fn has_columns(found: &Vec<String>, required: &Vec<String>) -> (res: bool)
    ensures
        res == forall|j: int|
            0 <= j < required@.len() ==> column_found(found@, (#[trigger] required@[j])@),
{
    let mut j: usize = 0;
    while j < required.len()
        invariant
            j <= required.len(),
            forall|jj: int| 0 <= jj < j ==> column_found(found@, (#[trigger] required@[jj])@),
        decreases required.len() - j,
    {
        let want = chars_of(required[j].as_str());
        let mut i: usize = 0;
        let mut seen = false;
        while i < found.len() && !seen
            invariant
                i <= found.len(),
                want@ == required@[j as int]@,
                seen ==> i > 0 && found@[i - 1]@ == want@,
                !seen ==> forall|ii: int| 0 <= ii < i ==> (#[trigger] found@[ii])@ != want@,
            decreases found.len() - i,
        {
            let have = chars_of(found[i].as_str());
            if chars_eq(have.as_slice(), want.as_slice()) {
                seen = true;
            }
            i = i + 1;
        }
        if !seen {
            assert(!column_found(found@, required@[j as int]@));
            return false;
        }
        assert(found@[i - 1]@ == required@[j as int]@);
        j = j + 1;
    }
    true
}

} // verus!
