//! The OpenCode dashboard: assistant calls broken down by project and by
//! agent, with totals, sorted by active tokens.
use vstd::prelude::*;

use crate::model::{
    breakdown_active, breakdown_active_wide, breakdown_plus, sat_add, zero_breakdown,
    BreakdownUsage, Usage,
};
use crate::opencode::project_display_name;
use crate::text::{chars_eq, chars_of, lex_less, lex_lt, starts_with, starts_with_chars};

verus! {

/// One assistant call in the date range, with what its session row says.
#[derive(Clone, Debug)]
pub struct DashboardCall {
    pub session_id: String,
    /// The session's project id (empty where the column is not text).
    pub project_id: String,
    /// The session's directory (empty where the column is not text).
    pub directory: String,
    pub parent_id: Option<String>,
    /// The agent the message names.
    pub message_agent: Option<String>,
    /// The agent the session names.
    pub session_agent: Option<String>,
    pub usage: Usage,
}

/// A row of the `project` table.
#[derive(Clone, Debug)]
pub struct ProjectMetadata {
    pub id: String,
    pub name: String,
    pub path: String,
}

/// The agent of a call: the message's, else the session's, else `unknown`.
pub open spec fn agent_of(c: DashboardCall) -> Seq<char> {
    match c.message_agent {
        Some(a) => a@,
        None => match c.session_agent {
            Some(a) => a@,
            None => "unknown"@,
        },
    }
}

/// Compaction calls are left out of the dashboard.
pub open spec fn counted_call(c: DashboardCall) -> bool {
    agent_of(c) != "compaction"@
}

/// `subagent` for calls of a child session or of a `subagents/` agent.
pub open spec fn kind_of(c: DashboardCall) -> Seq<char> {
    if c.parent_id is Some || starts_with(agent_of(c), "subagents/"@) {
        "subagent"@
    } else {
        "agent"@
    }
}

/// The name and worktree of a project, by the last metadata row with its id.
pub open spec fn metadata_for(meta: Seq<ProjectMetadata>, id: Seq<char>) -> Option<
    (Seq<char>, Seq<char>),
>
    decreases meta.len(),
{
    if meta.len() == 0 {
        None
    } else if meta.last().id@ == id {
        Some((meta.last().name@, meta.last().path@))
    } else {
        metadata_for(meta.drop_last(), id)
    }
}

/// The path a call's project is shown with.
pub open spec fn project_path_of(meta: Seq<ProjectMetadata>, c: DashboardCall) -> Seq<char> {
    let p = match metadata_for(meta, c.project_id@) {
        Some((_, p)) => p,
        None => c.directory@,
    };
    if p.len() == 0 {
        "unknown"@
    } else {
        p
    }
}

/// The name a call's project is shown with.
pub open spec fn project_name_of(meta: Seq<ProjectMetadata>, c: DashboardCall) -> Seq<char> {
    let n = match metadata_for(meta, c.project_id@) {
        Some((n, _)) => n,
        None => Seq::empty(),
    };
    project_display_name(c.project_id@, project_path_of(meta, c), n)
}

pub open spec fn all_calls() -> spec_fn(DashboardCall) -> bool {
    |c: DashboardCall| counted_call(c)
}

pub open spec fn project_calls(id: Seq<char>) -> spec_fn(DashboardCall) -> bool {
    |c: DashboardCall| counted_call(c) && c.project_id@ == id
}

pub open spec fn agent_calls(id: Seq<char>, name: Seq<char>, kind: Seq<char>) -> spec_fn(
    DashboardCall,
) -> bool {
    |c: DashboardCall| counted_call(c) && c.project_id@ == id && agent_of(c) == name && kind_of(c) == kind
}

/// Some call among `cs` belongs to session `s`.
pub open spec fn has_session(cs: Seq<DashboardCall>, s: Seq<char>) -> bool {
    exists|i: int| 0 <= i < cs.len() && (#[trigger] cs[i]).session_id@ == s
}

/// `b` with one more call: its tokens added and, for a session not seen
/// before, one more session.
pub open spec fn step(b: BreakdownUsage, u: Usage, seen: bool) -> BreakdownUsage {
    let added = breakdown_plus(b, u);
    if seen {
        added
    } else {
        BreakdownUsage { sessions: sat_add(added.sessions, 1), ..added }
    }
}

/// The breakdown of a sequence of calls, counted in order.
pub open spec fn tally(cs: Seq<DashboardCall>) -> BreakdownUsage
    decreases cs.len(),
{
    if cs.len() == 0 {
        zero_breakdown()
    } else {
        step(
            tally(cs.drop_last()),
            cs.last().usage,
            has_session(cs.drop_last(), cs.last().session_id@),
        )
    }
}

/// The calls that `pred` selects, in order.
pub open spec fn select(cs: Seq<DashboardCall>, pred: spec_fn(DashboardCall) -> bool) -> Seq<
    DashboardCall,
>
    decreases cs.len(),
{
    if cs.len() == 0 {
        Seq::empty()
    } else if pred(cs.last()) {
        select(cs.drop_last(), pred).push(cs.last())
    } else {
        select(cs.drop_last(), pred)
    }
}

/// The positions of the calls that `pred` selects.
pub open spec fn indices_where(cs: Seq<DashboardCall>, pred: spec_fn(DashboardCall) -> bool) -> Seq<
    usize,
>
    decreases cs.len(),
{
    if cs.len() == 0 {
        Seq::empty()
    } else if pred(cs.last()) {
        indices_where(cs.drop_last(), pred).push((cs.len() - 1) as usize)
    } else {
        indices_where(cs.drop_last(), pred)
    }
}

/// A running breakdown, the positions of its calls and the sessions seen.
#[derive(Clone, Debug)]
pub struct Tally {
    pub usage: BreakdownUsage,
    pub members: Vec<usize>,
    pub sessions: Vec<String>,
}

/// `t` is the breakdown of the calls among `cs` that `pred` selects.
pub open spec fn tally_holds(t: Tally, cs: Seq<DashboardCall>, pred: spec_fn(DashboardCall) -> bool) -> bool {
    &&& t.usage == tally(select(cs, pred))
    &&& t.members@ == indices_where(cs, pred)
    &&& forall|s: Seq<char>|
        has_session(select(cs, pred), s) <==> exists|k: int|
            0 <= k < t.sessions@.len() && (#[trigger] t.sessions@[k])@ == s
}


proof fn lemma_select_step(cs: Seq<DashboardCall>, m: int, pred: spec_fn(DashboardCall) -> bool)
    requires
        0 <= m < cs.len(),
    ensures
        select(cs.take(m + 1), pred) == (if pred(cs[m]) {
            select(cs.take(m), pred).push(cs[m])
        } else {
            select(cs.take(m), pred)
        }),
        indices_where(cs.take(m + 1), pred) == (if pred(cs[m]) {
            indices_where(cs.take(m), pred).push(m as usize)
        } else {
            indices_where(cs.take(m), pred)
        }),
{
    assert(cs.take(m + 1).drop_last() == cs.take(m));
    assert(cs.take(m + 1).last() == cs[m]);
}

proof fn lemma_select_empty(cs: Seq<DashboardCall>, pred: spec_fn(DashboardCall) -> bool)
    requires
        forall|i: int| 0 <= i < cs.len() ==> !pred(#[trigger] cs[i]),
    ensures
        select(cs, pred) == Seq::<DashboardCall>::empty(),
        indices_where(cs, pred) == Seq::<usize>::empty(),
    decreases cs.len(),
{
    if cs.len() > 0 {
        assert(!pred(cs[cs.len() - 1]));
        assert forall|i: int| 0 <= i < cs.drop_last().len() implies !pred(
            #[trigger] cs.drop_last()[i],
        ) by {
            assert(cs.drop_last()[i] == cs[i]);
        }
        lemma_select_empty(cs.drop_last(), pred);
    }
}

proof fn lemma_has_session_push(cs: Seq<DashboardCall>, c: DashboardCall, s: Seq<char>)
    ensures
        has_session(cs.push(c), s) <==> (has_session(cs, s) || c.session_id@ == s),
{
    if has_session(cs, s) {
        let i = choose|i: int| 0 <= i < cs.len() && (#[trigger] cs[i]).session_id@ == s;
        assert(cs.push(c)[i] == cs[i]);
    }
    if c.session_id@ == s {
        assert(cs.push(c)[cs.len() as int] == c);
    }
    if has_session(cs.push(c), s) {
        let i = choose|i: int| 0 <= i < cs.push(c).len() && (#[trigger] cs.push(c)[i]).session_id@
            == s;
        if i < cs.len() {
            assert(cs.push(c)[i] == cs[i]);
        }
    }
}

/// Whether `sessions` holds session `s`.
pub open spec fn holds_session(sessions: Seq<String>, s: Seq<char>) -> bool {
    exists|k: int| 0 <= k < sessions.len() && (#[trigger] sessions[k])@ == s
}

impl Tally {
    /// A breakdown of no calls.
    pub fn new() -> (res: Tally)
        ensures
            res.usage == zero_breakdown(),
            res.members@.len() == 0,
            res.sessions@.len() == 0,
    {
        Tally { usage: BreakdownUsage::default(), members: Vec::new(), sessions: Vec::new() }
    }

    /// Counts call `c`, which stands at position `m`.
    fn add(&mut self, c: &DashboardCall, m: usize)
        ensures
            final(self).usage == step(
                old(self).usage,
                c.usage,
                holds_session(old(self).sessions@, c.session_id@),
            ),
            final(self).members@ == old(self).members@.push(m),
            forall|s: Seq<char>|
                holds_session(final(self).sessions@, s) <==> (holds_session(
                    old(self).sessions@,
                    s,
                ) || s == c.session_id@),
    {
        let ghost old_sessions = self.sessions@;
        let want = chars_of(c.session_id.as_str());
        let mut k: usize = 0;
        let mut seen = false;
        while k < self.sessions.len() && !seen
            invariant
                k <= self.sessions.len(),
                self.sessions@ == old_sessions,
                want@ == c.session_id@,
                seen ==> k > 0 && self.sessions@[k - 1]@ == want@,
                !seen ==> forall|kk: int| 0 <= kk < k ==> (#[trigger] self.sessions@[kk])@ != want@,
            decreases self.sessions.len() - k,
        {
            let have = chars_of(self.sessions[k].as_str());
            if chars_eq(have.as_slice(), want.as_slice()) {
                seen = true;
            }
            k = k + 1;
        }
        proof {
            if seen {
                assert(holds_session(self.sessions@, c.session_id@));
                assert forall|s: Seq<char>|
                    holds_session(self.sessions@, s) <==> (holds_session(self.sessions@, s) || s
                        == c.session_id@) by {}
            }
        }
        self.usage.add_usage(&c.usage);
        if !seen {
            self.usage.sessions = self.usage.sessions.saturating_add(1);
            let ghost before = self.sessions@;
            self.sessions.push(c.session_id.clone());
            proof {
                assert forall|s: Seq<char>|
                    holds_session(self.sessions@, s) <==> (holds_session(before, s) || s
                        == c.session_id@) by {
                    if holds_session(before, s) {
                        let kk = choose|kk: int| 0 <= kk < before.len() && (#[trigger] before[kk])@ == s;
                        assert(self.sessions@[kk] == before[kk]);
                    }
                    if s == c.session_id@ {
                        assert(self.sessions@[before.len() as int]@ == s);
                    }
                    if holds_session(self.sessions@, s) {
                        let kk = choose|kk: int| 0 <= kk < self.sessions@.len() && (#[trigger] self.sessions@[kk])@ == s;
                        if kk < before.len() {
                            assert(self.sessions@[kk] == before[kk]);
                        }
                    }
                }
            }
        }
        self.members.push(m);
        assert(forall|s: Seq<char>|
            holds_session(self.sessions@, s) <==> (holds_session(old_sessions, s) || s
                == c.session_id@));
    }
}

proof fn lemma_tally_extend(
    old_t: Tally,
    new_t: Tally,
    cs: Seq<DashboardCall>,
    m: int,
    pred: spec_fn(DashboardCall) -> bool,
)
    requires
        0 <= m < cs.len(),
        tally_holds(old_t, cs.take(m), pred),
        pred(cs[m]),
        new_t.usage == step(old_t.usage, cs[m].usage, holds_session(old_t.sessions@, cs[m].session_id@)),
        new_t.members@ == old_t.members@.push(m as usize),
        forall|s: Seq<char>|
            holds_session(new_t.sessions@, s) <==> (holds_session(old_t.sessions@, s) || s
                == cs[m].session_id@),
    ensures
        tally_holds(new_t, cs.take(m + 1), pred),
{
    lemma_select_step(cs, m, pred);
    let before = select(cs.take(m), pred);
    let after = select(cs.take(m + 1), pred);
    assert(after.drop_last() == before);
    assert(after.last() == cs[m]);
    assert(has_session(before, cs[m].session_id@) == holds_session(old_t.sessions@, cs[m].session_id@));
    assert forall|s: Seq<char>|
        has_session(after, s) <==> exists|k: int|
            0 <= k < new_t.sessions@.len() && (#[trigger] new_t.sessions@[k])@ == s by {
        lemma_has_session_push(before, cs[m], s);
        assert(has_session(before, s) == holds_session(old_t.sessions@, s));
        assert(holds_session(new_t.sessions@, s) == exists|k: int|
            0 <= k < new_t.sessions@.len() && (#[trigger] new_t.sessions@[k])@ == s);
    }
}

proof fn lemma_tally_skip(t: Tally, cs: Seq<DashboardCall>, m: int, pred: spec_fn(DashboardCall) -> bool)
    requires
        0 <= m < cs.len(),
        tally_holds(t, cs.take(m), pred),
        !pred(cs[m]),
    ensures
        tally_holds(t, cs.take(m + 1), pred),
{
    lemma_select_step(cs, m, pred);
}

proof fn lemma_tally_fresh(t: Tally, cs: Seq<DashboardCall>, m: int, pred: spec_fn(DashboardCall) -> bool)
    requires
        0 <= m <= cs.len(),
        t.usage == zero_breakdown(),
        t.members@.len() == 0,
        t.sessions@.len() == 0,
        forall|i: int| 0 <= i < m ==> !pred(#[trigger] cs[i]),
    ensures
        tally_holds(t, cs.take(m), pred),
        select(cs.take(m), pred).len() == 0,
{
    assert forall|i: int| 0 <= i < cs.take(m).len() implies !pred(#[trigger] cs.take(m)[i]) by {
        assert(cs.take(m)[i] == cs[i]);
    }
    lemma_select_empty(cs.take(m), pred);
    assert(t.members@ == Seq::<usize>::empty());
}

/// A project's breakdown by agent.
#[derive(Clone, Debug)]
pub struct AgentTally {
    pub name: String,
    pub kind: String,
    pub tally: Tally,
}

/// One project of the dashboard.
#[derive(Clone, Debug)]
pub struct ProjectTally {
    pub id: String,
    pub name: String,
    pub path: String,
    pub tally: Tally,
    pub agents: Vec<AgentTally>,
}

/// The dashboard: totals and the projects.
#[derive(Clone, Debug)]
pub struct DashboardTally {
    pub totals: Tally,
    pub projects: Vec<ProjectTally>,
}

/// The agents of project `id` are the breakdown of its calls: one per agent
/// and kind, each the breakdown of its calls.
pub open spec fn agents_hold(agents: Seq<AgentTally>, cs: Seq<DashboardCall>, id: Seq<char>) -> bool {
    &&& forall|i: int, j: int|
        0 <= i < j < agents.len() ==> (agents[i].name@, agents[i].kind@) != (
            agents[j].name@,
            agents[j].kind@,
        )
    &&& forall|i: int|
        0 <= i < agents.len() ==> tally_holds(
            (#[trigger] agents[i]).tally,
            cs,
            agent_calls(id, agents[i].name@, agents[i].kind@),
        ) && agents[i].tally.members@.len() > 0
    &&& forall|m: int|
        0 <= m < cs.len() && project_calls(id)(#[trigger] cs[m]) ==> exists|i: int|
            0 <= i < agents.len() && agents[i].name@ == agent_of(cs[m]) && agents[i].kind@
                == kind_of(cs[m])
}

/// Project `p` is the breakdown of its calls among `cs`, named after its
/// first call.
pub open spec fn project_holds(p: ProjectTally, cs: Seq<DashboardCall>, meta: Seq<ProjectMetadata>) -> bool {
    let own = select(cs, project_calls(p.id@));
    &&& tally_holds(p.tally, cs, project_calls(p.id@))
    &&& own.len() > 0
    &&& p.name@ == project_name_of(meta, own[0])
    &&& p.path@ == project_path_of(meta, own[0])
    &&& agents_hold(p.agents@, cs, p.id@)
}

/// The projects are the breakdown of `cs`: one per project id with counted
/// calls.
pub open spec fn projects_hold(
    projects: Seq<ProjectTally>,
    cs: Seq<DashboardCall>,
    meta: Seq<ProjectMetadata>,
) -> bool {
    &&& forall|i: int, j: int| 0 <= i < j < projects.len() ==> projects[i].id@ != projects[j].id@
    &&& forall|i: int| 0 <= i < projects.len() ==> project_holds(#[trigger] projects[i], cs, meta)
    &&& forall|m: int|
        0 <= m < cs.len() && counted_call(#[trigger] cs[m]) ==> exists|i: int|
            0 <= i < projects.len() && projects[i].id@ == cs[m].project_id@
}



// ---------------------------------------------------------------------------
// Ranking: most active tokens first, then by name
// ---------------------------------------------------------------------------

/// An item with the key it is ranked by.
pub struct Ranked<T> {
    pub active: u128,
    pub name: Vec<char>,
    pub item: T,
}

/// `a` ranks before `b`: more active tokens, or as many and a smaller name.
pub open spec fn ranks_before(a_active: int, a_name: Seq<char>, b_active: int, b_name: Seq<char>) -> bool {
    a_active > b_active || (a_active == b_active && lex_lt(a_name, b_name))
}

pub open spec fn ranked_lt<T>(a: Ranked<T>, b: Ranked<T>) -> bool {
    ranks_before(a.active as int, a.name@, b.active as int, b.name@)
}

pub open spec fn ranked_sorted<T>(v: Seq<Ranked<T>>) -> bool {
    forall|i: int, j: int| 0 <= i < j < v.len() ==> !ranked_lt(v[j], v[i])
}

/// `pos` is a permutation of `0..n`.
pub open spec fn is_permutation(pos: Seq<int>, n: nat) -> bool {
    &&& pos.len() == n
    &&& forall|i: int| 0 <= i < n ==> 0 <= #[trigger] pos[i] < n
    &&& forall|i: int, j: int| 0 <= i < n && 0 <= j < n && i != j ==> pos[i] != pos[j]
    &&& forall|k: int| 0 <= k < n ==> #[trigger] hits(pos, n, k)
}

/// Some position among the first `n` of `pos` holds `k`.
pub open spec fn hits(pos: Seq<int>, n: nat, k: int) -> bool {
    exists|i: int| 0 <= i < n && #[trigger] pos[i] == k
}

proof fn lemma_rank_order(a: int, an: Seq<char>, b: int, bn: Seq<char>, c: int, cn: Seq<char>)
    ensures
        ranks_before(a, an, b, bn) ==> !ranks_before(b, bn, a, an),
        ranks_before(a, an, b, bn) && !ranks_before(c, cn, b, bn) ==> ranks_before(a, an, c, cn),
        !ranks_before(b, bn, a, an) && !ranks_before(c, cn, b, bn) ==> !ranks_before(c, cn, a, an),
{
    crate::text::lemma_lex_asymmetric(an, bn);
    crate::text::lemma_lex_transitive(an, bn, cn);
    crate::text::lemma_lex_transitive(an, cn, bn);
    crate::text::lemma_lex_transitive(cn, an, bn);
    crate::text::lemma_lex_transitive(bn, cn, an);
    crate::text::lemma_lex_transitive(cn, bn, an);
    crate::text::lemma_lex_total(bn, cn);
    crate::text::lemma_lex_total(an, bn);
    crate::text::lemma_lex_total(an, cn);
    crate::text::lemma_lex_irreflexive(an);
    crate::text::lemma_lex_irreflexive(bn);
    crate::text::lemma_lex_asymmetric(bn, cn);
    crate::text::lemma_lex_asymmetric(an, cn);
}

fn rank_less<T>(a: &Ranked<T>, b: &Ranked<T>) -> (res: bool)
    ensures
        res == ranked_lt(*a, *b),
{
    a.active > b.active || (a.active == b.active && lex_less(a.name.as_slice(), b.name.as_slice()))
}

/// Sorts by rank; also gives the permutation, position by position, that
/// takes the input to the output.
fn sort_ranked<T>(items: Vec<Ranked<T>>) -> (res: (Vec<Ranked<T>>, Ghost<Seq<int>>))
    ensures
        ranked_sorted(res.0@),
        is_permutation(res.1@, items@.len()),
        res.0@.len() == items@.len(),
        forall|i: int| 0 <= i < items@.len() ==> #[trigger] res.0@[i] == items@[res.1@[i]],
{
    let ghost input = items@;
    let n = items.len();
    let mut rest = items;
    let mut out: Vec<Ranked<T>> = Vec::new();
    let ghost mut pos: Seq<int> = Seq::empty();
    let mut k: usize = 0;
    while rest.len() > 0
        invariant
            k + rest@.len() == n,
            n == input.len(),
            rest@ == input.subrange(k as int, n as int),
            out@.len() == k,
            ranked_sorted(out@),
            pos.len() == k,
            forall|i: int| 0 <= i < k ==> 0 <= #[trigger] pos[i] < k,
            forall|i: int, j: int| 0 <= i < k && 0 <= j < k && i != j ==> pos[i] != pos[j],
            forall|kk: int| 0 <= kk < k ==> #[trigger] hits(pos, k as nat, kk),
            forall|i: int| 0 <= i < k ==> #[trigger] out@[i] == input[pos[i]],
        decreases rest.len(),
    {
        let x = rest.remove(0);
        proof {
            assert(x == input[k as int]);
            assert(rest@ == input.subrange(k + 1, n as int));
        }
        let mut j = out.len();
        while j > 0 && rank_less(&x, &out[j - 1])
            invariant
                j <= out@.len(),
                forall|i: int| j <= i < out@.len() ==> ranked_lt(x, #[trigger] out@[i]),
            decreases j,
        {
            j = j - 1;
        }
        let ghost before = out@;
        out.insert(j, x);
        proof {
            assert(out@ == before.insert(j as int, x));
            assert forall|a: int, b: int| 0 <= a < b < out@.len() implies !ranked_lt(
                out@[b],
                out@[a],
            ) by {
                if b < j {
                    assert(out@[a] == before[a] && out@[b] == before[b]);
                } else if b == j {
                    assert(out@[a] == before[a]);
                    if j > 0 {
                        assert(!ranked_lt(x, before[j - 1]));
                        if a < j - 1 {
                            assert(!ranked_lt(before[j - 1], before[a]));
                        }
                        lemma_rank_order(
                            before[a].active as int,
                            before[a].name@,
                            before[j - 1].active as int,
                            before[j - 1].name@,
                            x.active as int,
                            x.name@,
                        );
                    }
                } else if a == j {
                    assert(out@[b] == before[b - 1]);
                    assert(ranked_lt(x, before[b - 1]));
                    lemma_rank_order(
                        x.active as int,
                        x.name@,
                        before[b - 1].active as int,
                        before[b - 1].name@,
                        x.active as int,
                        x.name@,
                    );
                } else if a < j {
                    assert(out@[a] == before[a] && out@[b] == before[b - 1]);
                    assert(ranked_lt(x, before[b - 1]));
                    if j > 0 {
                        assert(!ranked_lt(x, before[j - 1]));
                        if a < j - 1 {
                            assert(!ranked_lt(before[j - 1], before[a]));
                        }
                        lemma_rank_order(
                            before[a].active as int,
                            before[a].name@,
                            before[j - 1].active as int,
                            before[j - 1].name@,
                            x.active as int,
                            x.name@,
                        );
                        lemma_rank_order(
                            x.active as int,
                            x.name@,
                            before[b - 1].active as int,
                            before[b - 1].name@,
                            before[a].active as int,
                            before[a].name@,
                        );
                        lemma_rank_order(
                            before[a].active as int,
                            before[a].name@,
                            x.active as int,
                            x.name@,
                            before[b - 1].active as int,
                            before[b - 1].name@,
                        );
                    }
                } else {
                    assert(out@[a] == before[a - 1] && out@[b] == before[b - 1]);
                }
            }
            let new_pos = pos.insert(j as int, k as int);
            pos.insert_ensures(j as int, k as int);
            assert forall|i: int| 0 <= i < k + 1 implies #[trigger] out@[i] == input[new_pos[i]] by {
                if i < j {
                    assert(new_pos[i] == pos[i]);
                } else if i > j {
                    assert(new_pos[i] == pos[i - 1]);
                }
            }
            assert forall|i: int| 0 <= i < k + 1 implies 0 <= #[trigger] new_pos[i] < k + 1 by {
                if i < j {
                    assert(new_pos[i] == pos[i]);
                } else if i > j {
                    assert(new_pos[i] == pos[i - 1]);
                }
            }
            assert forall|a: int, b: int| 0 <= a < k + 1 && 0 <= b < k + 1 && a != b implies new_pos[a]
                != new_pos[b] by {
                let pa = if a < j { a } else if a > j { a - 1 } else { -1 };
                let pb = if b < j { b } else if b > j { b - 1 } else { -1 };
                if a != j {
                    assert(new_pos[a] == pos[pa]);
                }
                if b != j {
                    assert(new_pos[b] == pos[pb]);
                }
            }
            assert forall|kk: int| 0 <= kk < k + 1 implies #[trigger] hits(new_pos, (k + 1) as nat, kk) by {
                if kk == k {
                    assert(new_pos[j as int] == k);
                } else {
                    assert(hits(pos, k as nat, kk));
                    let i = choose|i: int| 0 <= i < k && #[trigger] pos[i] == kk;
                    if i < j {
                        assert(new_pos[i] == kk);
                    } else {
                        assert(new_pos[i + 1] == kk);
                    }
                }
            }
            pos = new_pos;
        }
        k = k + 1;
    }
    (out, Ghost(pos))
}

// ---------------------------------------------------------------------------
// Accumulation
// ---------------------------------------------------------------------------

fn clone_opt(v: &Option<String>) -> (res: Option<String>)
    ensures
        res == *v,
{
    match v {
        Some(s) => Some(s.clone()),
        None => None,
    }
}

fn agent_name_of(c: &DashboardCall) -> (res: String)
    ensures
        res@ == agent_of(*c),
        c.message_agent matches Some(a) ==> res@ == a@,
        c.message_agent is None ==> res@ == match c.session_agent {
            Some(s) => s@,
            None => "unknown"@,
        },
{
    match &c.message_agent {
        Some(a) => a.clone(),
        None => match &c.session_agent {
            Some(a) => a.clone(),
            None => String::from_str("unknown"),
        },
    }
}

fn kind_name_of(c: &DashboardCall, agent: &String) -> (res: String)
    requires
        agent@ == agent_of(*c),
    ensures
        res@ == kind_of(*c),
{
    let a = chars_of(agent.as_str());
    let prefix = chars_of("subagents/");
    if c.parent_id.is_some() || starts_with_chars(a.as_slice(), prefix.as_slice()) {
        String::from_str("subagent")
    } else {
        String::from_str("agent")
    }
}

fn same_text(a: &String, b: &String) -> (res: bool)
    ensures
        res == (a@ == b@),
{
    let x = chars_of(a.as_str());
    let y = chars_of(b.as_str());
    chars_eq(x.as_slice(), y.as_slice())
}

fn metadata_lookup(meta: &Vec<ProjectMetadata>, id: &String) -> (res: Option<(String, String)>)
    ensures
        match metadata_for(meta@, id@) {
            Some((n, p)) => res matches Some((a, b)) && a@ == n && b@ == p,
            None => res is None,
        },
{
    let mut k = meta.len();
    assert(meta@.take(k as int) == meta@);
    while k > 0
        invariant
            k <= meta.len(),
            metadata_for(meta@, id@) == metadata_for(meta@.take(k as int), id@),
        decreases k,
    {
        let row = &meta[k - 1];
        proof {
            assert(meta@.take(k as int).last() == meta@[k - 1]);
            assert(meta@.take(k as int).drop_last() == meta@.take(k - 1));
        }
        if same_text(&row.id, id) {
            return Some((row.name.clone(), row.path.clone()));
        }
        k = k - 1;
    }
    None
}

fn project_label(meta: &Vec<ProjectMetadata>, c: &DashboardCall) -> (res: (String, String))
    ensures
        res.0@ == project_name_of(meta@, *c),
        res.1@ == project_path_of(meta@, *c),
{
    let found = metadata_lookup(meta, &c.project_id);
    let (name, raw_path) = match found {
        Some((n, p)) => (n, p),
        None => (String::new(), c.directory.clone()),
    };
    let path = if raw_path.as_str().is_empty() {
        String::from_str("unknown")
    } else {
        raw_path
    };
    let label = crate::opencode::project_name(c.project_id.as_str(), path.as_str(), name.as_str());
    (label, path)
}

proof fn lemma_agents_unaffected(agents: Seq<AgentTally>, cs: Seq<DashboardCall>, m: int, id: Seq<char>)
    requires
        0 <= m < cs.len(),
        agents_hold(agents, cs.take(m), id),
        !project_calls(id)(cs[m]),
    ensures
        agents_hold(agents, cs.take(m + 1), id),
{
    assert(cs.take(m + 1)[m] == cs[m]);
    assert forall|i: int| 0 <= i < agents.len() implies tally_holds(
        (#[trigger] agents[i]).tally,
        cs.take(m + 1),
        agent_calls(id, agents[i].name@, agents[i].kind@),
    ) && agents[i].tally.members@.len() > 0 by {
        lemma_tally_skip(agents[i].tally, cs, m, agent_calls(id, agents[i].name@, agents[i].kind@));
    }
    assert forall|mm: int|
        0 <= mm < cs.take(m + 1).len() && project_calls(id)(#[trigger] cs.take(m + 1)[mm]) implies exists|i: int|
        0 <= i < agents.len() && agents[i].name@ == agent_of(cs.take(m + 1)[mm]) && agents[i].kind@
            == kind_of(cs.take(m + 1)[mm]) by {
        assert(mm < m);
        assert(cs.take(m + 1)[mm] == cs.take(m)[mm]);
    }
}

proof fn lemma_project_unaffected(
    p: ProjectTally,
    cs: Seq<DashboardCall>,
    m: int,
    meta: Seq<ProjectMetadata>,
)
    requires
        0 <= m < cs.len(),
        project_holds(p, cs.take(m), meta),
        !project_calls(p.id@)(cs[m]),
    ensures
        project_holds(p, cs.take(m + 1), meta),
{
    lemma_tally_skip(p.tally, cs, m, project_calls(p.id@));
    lemma_select_step(cs, m, project_calls(p.id@));
    lemma_agents_unaffected(p.agents@, cs, m, p.id@);
}

/// Counts call `c` (position `m` of `cs`) for its agent among `agents`.
fn record_agent(
    agents: &mut Vec<AgentTally>,
    c: &DashboardCall,
    m: usize,
    agent: &String,
    kind: &String,
    Ghost(cs): Ghost<Seq<DashboardCall>>,
    Ghost(id): Ghost<Seq<char>>,
)
    requires
        m < cs.len(),
        cs[m as int] == *c,
        agents_hold(old(agents)@, cs.take(m as int), id),
        project_calls(id)(*c),
        agent@ == agent_of(*c),
        kind@ == kind_of(*c),
    ensures
        agents_hold(final(agents)@, cs.take(m + 1), id),
{
    let ghost old_agents = agents@;
    let ghost next = cs.take(m + 1);
    proof {
        assert(next[m as int] == *c);
    }
    let mut a: usize = 0;
    let mut found = false;
    while a < agents.len() && !found
        invariant
            a <= agents.len(),
            agents@ == old_agents,
            found ==> a > 0 && agents@[a - 1].name@ == agent@ && agents@[a - 1].kind@ == kind@,
            !found ==> forall|i: int|
                0 <= i < a ==> ((#[trigger] agents@[i]).name@, agents@[i].kind@) != (agent@, kind@),
        decreases agents.len() - a,
    {
        if same_text(&agents[a].name, agent) && same_text(&agents[a].kind, kind) {
            found = true;
        }
        a = a + 1;
    }
    if found {
        let idx = a - 1;
        let mut at = agents.remove(idx);
        let ghost old_t = at.tally;
        at.tally.add(c, m);
        proof {
            lemma_tally_extend(old_t, at.tally, cs, m as int, agent_calls(id, at.name@, at.kind@));
        }
        agents.insert(idx, at);
        proof {
            assert(agents@ == old_agents.update(idx as int, at));
            assert forall|i: int| 0 <= i < agents@.len() && i != idx implies tally_holds(
                (#[trigger] agents@[i]).tally,
                next,
                agent_calls(id, agents@[i].name@, agents@[i].kind@),
            ) by {
                assert(agents@[i] == old_agents[i]);
                assert(!agent_calls(id, agents@[i].name@, agents@[i].kind@)(*c)) by {
                    if agent_calls(id, agents@[i].name@, agents@[i].kind@)(*c) {
                        if i < idx {
                            assert((old_agents[i].name@, old_agents[i].kind@) != (
                                old_agents[idx as int].name@,
                                old_agents[idx as int].kind@,
                            ));
                        } else {
                            assert((old_agents[idx as int].name@, old_agents[idx as int].kind@) != (
                                old_agents[i].name@,
                                old_agents[i].kind@,
                            ));
                        }
                    }
                }
                lemma_tally_skip(old_agents[i].tally, cs, m as int, agent_calls(id, agents@[i].name@, agents@[i].kind@));
            }
            assert forall|mm: int|
                0 <= mm < next.len() && project_calls(id)(#[trigger] next[mm]) implies exists|i: int|
                0 <= i < agents@.len() && agents@[i].name@ == agent_of(next[mm]) && agents@[i].kind@
                    == kind_of(next[mm]) by {
                if mm < m {
                    assert(next[mm] == cs.take(m as int)[mm]);
                    let i = choose|i: int|
                        0 <= i < old_agents.len() && old_agents[i].name@ == agent_of(cs.take(m as int)[mm])
                            && old_agents[i].kind@ == kind_of(cs.take(m as int)[mm]);
                    assert(agents@[i].name@ == old_agents[i].name@);
                } else {
                    assert(agents@[idx as int].name@ == agent@);
                }
            }
        }
    } else {
        proof {
            assert forall|i: int| 0 <= i < m implies !agent_calls(id, agent@, kind@)(#[trigger] cs[i]) by {
                if agent_calls(id, agent@, kind@)(cs[i]) {
                    assert(cs.take(m as int)[i] == cs[i]);
                    assert(project_calls(id)(cs.take(m as int)[i]));
                    let j = choose|j: int|
                        0 <= j < old_agents.len() && old_agents[j].name@ == agent_of(cs.take(m as int)[i])
                            && old_agents[j].kind@ == kind_of(cs.take(m as int)[i]);
                }
            }
        }
        let mut t = Tally::new();
        proof {
            lemma_tally_fresh(t, cs, m as int, agent_calls(id, agent@, kind@));
        }
        let ghost t0 = t;
        t.add(c, m);
        proof {
            lemma_tally_extend(t0, t, cs, m as int, agent_calls(id, agent@, kind@));
        }
        let fresh = AgentTally { name: agent.clone(), kind: kind.clone(), tally: t };
        agents.push(fresh);
        proof {
            assert(agents@ == old_agents.push(fresh));
            assert forall|i: int| 0 <= i < old_agents.len() implies tally_holds(
                (#[trigger] agents@[i]).tally,
                next,
                agent_calls(id, agents@[i].name@, agents@[i].kind@),
            ) by {
                assert(agents@[i] == old_agents[i]);
                lemma_tally_skip(old_agents[i].tally, cs, m as int, agent_calls(id, agents@[i].name@, agents@[i].kind@));
            }
            assert forall|mm: int|
                0 <= mm < next.len() && project_calls(id)(#[trigger] next[mm]) implies exists|i: int|
                0 <= i < agents@.len() && agents@[i].name@ == agent_of(next[mm]) && agents@[i].kind@
                    == kind_of(next[mm]) by {
                if mm < m {
                    assert(next[mm] == cs.take(m as int)[mm]);
                    let i = choose|i: int|
                        0 <= i < old_agents.len() && old_agents[i].name@ == agent_of(cs.take(m as int)[mm])
                            && old_agents[i].kind@ == kind_of(cs.take(m as int)[mm]);
                    assert(agents@[i] == old_agents[i]);
                } else {
                    assert(agents@[old_agents.len() as int] == fresh);
                }
            }
        }
    }
}

/// Counts call `c` (position `m` of `cs`) for project `p`, which is its project.
fn record_in_project(
    p: &mut ProjectTally,
    c: &DashboardCall,
    m: usize,
    agent: &String,
    kind: &String,
    Ghost(cs): Ghost<Seq<DashboardCall>>,
    Ghost(meta): Ghost<Seq<ProjectMetadata>>,
)
    requires
        m < cs.len(),
        cs[m as int] == *c,
        project_holds(*old(p), cs.take(m as int), meta),
        project_calls(old(p).id@)(*c),
        agent@ == agent_of(*c),
        kind@ == kind_of(*c),
    ensures
        project_holds(*final(p), cs.take(m + 1), meta),
        final(p).id == old(p).id,
{
    let ghost id = p.id@;
    let ghost old_t = p.tally;
    p.tally.add(c, m);
    proof {
        lemma_tally_extend(old_t, p.tally, cs, m as int, project_calls(id));
        lemma_select_step(cs, m as int, project_calls(id));
        let own = select(cs.take(m as int), project_calls(id));
        assert(own.push(*c)[0] == own[0]);
    }
    record_agent(&mut p.agents, c, m, agent, kind, Ghost(cs), Ghost(id));
}

/// A project whose first call is `c` (position `m` of `cs`).
fn start_project(
    c: &DashboardCall,
    m: usize,
    agent: &String,
    kind: &String,
    meta_rows: &Vec<ProjectMetadata>,
    Ghost(cs): Ghost<Seq<DashboardCall>>,
) -> (res: ProjectTally)
    requires
        m < cs.len(),
        cs[m as int] == *c,
        counted_call(*c),
        agent@ == agent_of(*c),
        kind@ == kind_of(*c),
        forall|i: int| 0 <= i < m ==> !project_calls(c.project_id@)(#[trigger] cs[i]),
    ensures
        project_holds(res, cs.take(m + 1), meta_rows@),
        res.id@ == c.project_id@,
{
    let ghost id = c.project_id@;
    let (name, path) = project_label(meta_rows, c);
    let mut t = Tally::new();
    proof {
        lemma_tally_fresh(t, cs, m as int, project_calls(id));
    }
    let ghost t0 = t;
    t.add(c, m);
    proof {
        lemma_tally_extend(t0, t, cs, m as int, project_calls(id));
        lemma_select_step(cs, m as int, project_calls(id));
    }
    let mut agents: Vec<AgentTally> = Vec::new();
    proof {
        assert forall|mm: int|
            0 <= mm < cs.take(m as int).len() && project_calls(id)(#[trigger] cs.take(m as int)[mm]) implies exists|i: int|
            0 <= i < agents@.len() && agents@[i].name@ == agent_of(cs.take(m as int)[mm])
                && agents@[i].kind@ == kind_of(cs.take(m as int)[mm]) by {
            assert(cs.take(m as int)[mm] == cs[mm]);
        }
    }
    record_agent(&mut agents, c, m, agent, kind, Ghost(cs), Ghost(id));
    let p = ProjectTally { id: c.project_id.clone(), name, path, tally: t, agents };
    proof {
        let own = select(cs.take(m + 1), project_calls(id));
        assert(own == Seq::<DashboardCall>::empty().push(*c));
        assert(own[0] == *c);
    }
    p
}

/// The dashboard of the calls, before sorting: totals, and the projects in
/// the order their first calls come.
fn accumulate(calls: &Vec<DashboardCall>, meta: &Vec<ProjectMetadata>) -> (res: DashboardTally)
    ensures
        tally_holds(res.totals, calls@, all_calls()),
        projects_hold(res.projects@, calls@, meta@),
{
    let ghost cs = calls@;
    let mut totals = Tally::new();
    let mut projects: Vec<ProjectTally> = Vec::new();
    proof {
        lemma_tally_fresh(totals, cs, 0, all_calls());
    }
    let mut m: usize = 0;
    while m < calls.len()
        invariant
            cs == calls@,
            m <= calls.len(),
            tally_holds(totals, cs.take(m as int), all_calls()),
            projects_hold(projects@, cs.take(m as int), meta@),
        decreases calls.len() - m,
    {
        let c = &calls[m];
        let ghost before = cs.take(m as int);
        let ghost next = cs.take(m + 1);
        let ghost old_projects = projects@;
        proof {
            assert(next[m as int] == *c);
            assert forall|mm: int| 0 <= mm < m implies next[mm] == before[mm] by {}
        }
        let agent = agent_name_of(c);
        let compaction = chars_of("compaction");
        let agent_chars = chars_of(agent.as_str());
        if chars_eq(agent_chars.as_slice(), compaction.as_slice()) {
            proof {
                lemma_tally_skip(totals, cs, m as int, all_calls());
                assert forall|i: int| 0 <= i < projects@.len() implies project_holds(
                    #[trigger] projects@[i],
                    next,
                    meta@,
                ) by {
                    lemma_project_unaffected(projects@[i], cs, m as int, meta@);
                }
                assert forall|mm: int| 0 <= mm < next.len() && counted_call(#[trigger] next[mm]) implies exists|i: int|
                    0 <= i < projects@.len() && projects@[i].id@ == next[mm].project_id@ by {
                    assert(next[mm] == before[mm]);
                }
            }
        } else {
            let kind = kind_name_of(c, &agent);
            let ghost old_totals = totals;
            totals.add(c, m);
            proof {
                lemma_tally_extend(old_totals, totals, cs, m as int, all_calls());
            }
            let mut j: usize = 0;
            let mut found = false;
            while j < projects.len() && !found
                invariant
                    j <= projects.len(),
                    projects@ == old_projects,
                    found ==> j > 0 && projects@[j - 1].id@ == c.project_id@,
                    !found ==> forall|i: int|
                        0 <= i < j ==> (#[trigger] projects@[i]).id@ != c.project_id@,
                decreases projects.len() - j,
            {
                if same_text(&projects[j].id, &c.project_id) {
                    found = true;
                }
                j = j + 1;
            }
            if found {
                let idx = j - 1;
                let mut p = projects.remove(idx);
                record_in_project(&mut p, c, m, &agent, &kind, Ghost(cs), Ghost(meta@));
                projects.insert(idx, p);
                proof {
                    assert(projects@ == old_projects.update(idx as int, p));
                    assert forall|i: int| 0 <= i < projects@.len() implies project_holds(
                        #[trigger] projects@[i],
                        next,
                        meta@,
                    ) by {
                        if i != idx {
                            assert(projects@[i] == old_projects[i]);
                            lemma_project_unaffected(old_projects[i], cs, m as int, meta@);
                        }
                    }
                    assert forall|mm: int| 0 <= mm < next.len() && counted_call(#[trigger] next[mm]) implies exists|i: int|
                        0 <= i < projects@.len() && projects@[i].id@ == next[mm].project_id@ by {
                        if mm < m {
                            assert(next[mm] == before[mm]);
                            let i = choose|i: int|
                                0 <= i < old_projects.len() && old_projects[i].id@ == before[mm].project_id@;
                            assert(projects@[i].id@ == old_projects[i].id@);
                        } else {
                            assert(projects@[idx as int].id@ == c.project_id@);
                        }
                    }
                }
            } else {
                proof {
                    assert forall|i: int| 0 <= i < m implies !project_calls(c.project_id@)(#[trigger] cs[i]) by {
                        if project_calls(c.project_id@)(cs[i]) {
                            assert(before[i] == cs[i]);
                            assert(counted_call(before[i]));
                            let k = choose|k: int|
                                0 <= k < old_projects.len() && old_projects[k].id@ == before[i].project_id@;
                        }
                    }
                }
                let p = start_project(c, m, &agent, &kind, meta, Ghost(cs));
                projects.push(p);
                proof {
                    assert(projects@ == old_projects.push(p));
                    assert forall|i: int| 0 <= i < projects@.len() implies project_holds(
                        #[trigger] projects@[i],
                        next,
                        meta@,
                    ) by {
                        if i < old_projects.len() {
                            assert(projects@[i] == old_projects[i]);
                            lemma_project_unaffected(old_projects[i], cs, m as int, meta@);
                        }
                    }
                    assert forall|mm: int| 0 <= mm < next.len() && counted_call(#[trigger] next[mm]) implies exists|i: int|
                        0 <= i < projects@.len() && projects@[i].id@ == next[mm].project_id@ by {
                        if mm < m {
                            assert(next[mm] == before[mm]);
                            let i = choose|i: int|
                                0 <= i < old_projects.len() && old_projects[i].id@ == before[mm].project_id@;
                            assert(projects@[i] == old_projects[i]);
                        } else {
                            assert(projects@[old_projects.len() as int] == p);
                        }
                    }
                }
            }
        }
        m = m + 1;
    }
    proof {
        assert(cs.take(calls.len() as int) == cs);
    }
    DashboardTally { totals, projects }
}


// ---------------------------------------------------------------------------
// The dashboard
// ---------------------------------------------------------------------------

/// Agents with the most active tokens first, then by name.
pub open spec fn agents_ranked(agents: Seq<AgentTally>) -> bool {
    forall|i: int, j: int|
        0 <= i < j < agents.len() ==> !ranks_before(
            breakdown_active(agents[j].tally.usage),
            agents[j].name@,
            breakdown_active(agents[i].tally.usage),
            agents[i].name@,
        )
}

/// Projects with the most active tokens first, then by name.
pub open spec fn projects_ranked(projects: Seq<ProjectTally>) -> bool {
    forall|i: int, j: int|
        0 <= i < j < projects.len() ==> !ranks_before(
            breakdown_active(projects[j].tally.usage),
            projects[j].name@,
            breakdown_active(projects[i].tally.usage),
            projects[i].name@,
        )
}

proof fn lemma_agents_permuted(
    a: Seq<AgentTally>,
    b: Seq<AgentTally>,
    pos: Seq<int>,
    cs: Seq<DashboardCall>,
    id: Seq<char>,
)
    requires
        agents_hold(a, cs, id),
        is_permutation(pos, a.len()),
        b.len() == a.len(),
        forall|i: int| 0 <= i < b.len() ==> #[trigger] b[i] == a[pos[i]],
    ensures
        agents_hold(b, cs, id),
{
    assert forall|i: int, j: int| 0 <= i < j < b.len() implies (b[i].name@, b[i].kind@) != (
        b[j].name@,
        b[j].kind@,
    ) by {
        assert(b[i] == a[pos[i]] && b[j] == a[pos[j]]);
        assert(pos[i] != pos[j]);
        assert(0 <= pos[i] < a.len() && 0 <= pos[j] < a.len());
        if pos[i] < pos[j] {
        } else {
        }
    }
    assert forall|i: int| 0 <= i < b.len() implies tally_holds(
        (#[trigger] b[i]).tally,
        cs,
        agent_calls(id, b[i].name@, b[i].kind@),
    ) && b[i].tally.members@.len() > 0 by {
        assert(b[i] == a[pos[i]]);
        assert(0 <= pos[i] < a.len());
    }
    assert forall|mm: int| 0 <= mm < cs.len() && project_calls(id)(#[trigger] cs[mm]) implies exists|i: int|
        0 <= i < b.len() && b[i].name@ == agent_of(cs[mm]) && b[i].kind@ == kind_of(cs[mm]) by {
        let k = choose|k: int|
            0 <= k < a.len() && a[k].name@ == agent_of(cs[mm]) && a[k].kind@ == kind_of(cs[mm]);
        assert(hits(pos, a.len(), k));
        let i = choose|i: int| 0 <= i < a.len() && #[trigger] pos[i] == k;
        assert(b[i] == a[k]);
    }
}

proof fn lemma_projects_permuted(
    a: Seq<ProjectTally>,
    b: Seq<ProjectTally>,
    pos: Seq<int>,
    cs: Seq<DashboardCall>,
    meta: Seq<ProjectMetadata>,
)
    requires
        projects_hold(a, cs, meta),
        is_permutation(pos, a.len()),
        b.len() == a.len(),
        forall|i: int| 0 <= i < b.len() ==> #[trigger] b[i] == a[pos[i]],
    ensures
        projects_hold(b, cs, meta),
{
    assert forall|i: int, j: int| 0 <= i < j < b.len() implies b[i].id@ != b[j].id@ by {
        assert(b[i] == a[pos[i]] && b[j] == a[pos[j]]);
        assert(pos[i] != pos[j]);
        assert(0 <= pos[i] < a.len() && 0 <= pos[j] < a.len());
    }
    assert forall|i: int| 0 <= i < b.len() implies project_holds(#[trigger] b[i], cs, meta) by {
        assert(b[i] == a[pos[i]]);
        assert(0 <= pos[i] < a.len());
    }
    assert forall|mm: int| 0 <= mm < cs.len() && counted_call(#[trigger] cs[mm]) implies exists|i: int|
        0 <= i < b.len() && b[i].id@ == cs[mm].project_id@ by {
        let k = choose|k: int| 0 <= k < a.len() && a[k].id@ == cs[mm].project_id@;
        assert(hits(pos, a.len(), k));
        let i = choose|i: int| 0 <= i < a.len() && #[trigger] pos[i] == k;
        assert(b[i] == a[k]);
    }
}

/// Orders agents by rank.
fn rank_agents(agents: Vec<AgentTally>) -> (res: (Vec<AgentTally>, Ghost<Seq<int>>))
    ensures
        agents_ranked(res.0@),
        is_permutation(res.1@, agents@.len()),
        res.0@.len() == agents@.len(),
        forall|i: int| 0 <= i < agents@.len() ==> #[trigger] res.0@[i] == agents@[res.1@[i]],
{
    let ghost input = agents@;
    let n = agents.len();
    let mut rest = agents;
    let mut ranked: Vec<Ranked<AgentTally>> = Vec::new();
    let mut k: usize = 0;
    while rest.len() > 0
        invariant
            k + rest@.len() == n,
            n == input.len(),
            rest@ == input.subrange(k as int, n as int),
            ranked@.len() == k,
            forall|i: int|
                0 <= i < k ==> (#[trigger] ranked@[i]).item == input[i] && ranked@[i].active
                    == breakdown_active(input[i].tally.usage) && ranked@[i].name@ == input[i].name@,
        decreases rest.len(),
    {
        let a = rest.remove(0);
        proof {
            assert(a == input[k as int]);
            assert(rest@ == input.subrange(k + 1, n as int));
        }
        let active = breakdown_active_wide(&a.tally.usage);
        let name = chars_of(a.name.as_str());
        ranked.push(Ranked { active, name, item: a });
        k = k + 1;
    }
    let (sorted, Ghost(pos)) = sort_ranked(ranked);
    let ghost sv = sorted@;
    let mut rest2 = sorted;
    let mut out: Vec<AgentTally> = Vec::new();
    let mut k2: usize = 0;
    while rest2.len() > 0
        invariant
            k2 + rest2@.len() == n,
            sv.len() == n,
            rest2@ == sv.subrange(k2 as int, n as int),
            out@.len() == k2,
            forall|i: int| 0 <= i < k2 ==> #[trigger] out@[i] == sv[i].item,
        decreases rest2.len(),
    {
        let r = rest2.remove(0);
        proof {
            assert(r == sv[k2 as int]);
            assert(rest2@ == sv.subrange(k2 + 1, n as int));
        }
        out.push(r.item);
        k2 = k2 + 1;
    }
    proof {
        assert forall|i: int| 0 <= i < n implies #[trigger] out@[i] == input[pos[i]] by {
            assert(sv[i] == ranked@[pos[i]]);
            assert(0 <= pos[i] < n);
        }
        assert forall|i: int, j: int| 0 <= i < j < out@.len() implies !ranks_before(
            breakdown_active(out@[j].tally.usage),
            out@[j].name@,
            breakdown_active(out@[i].tally.usage),
            out@[i].name@,
        ) by {
            assert(!ranked_lt(sv[j], sv[i]));
            assert(sv[i] == ranked@[pos[i]] && sv[j] == ranked@[pos[j]]);
            assert(0 <= pos[i] < n && 0 <= pos[j] < n);
        }
    }
    (out, Ghost(pos))
}

/// Orders projects by rank.
fn rank_projects(projects: Vec<ProjectTally>) -> (res: (Vec<ProjectTally>, Ghost<Seq<int>>))
    ensures
        projects_ranked(res.0@),
        is_permutation(res.1@, projects@.len()),
        res.0@.len() == projects@.len(),
        forall|i: int| 0 <= i < projects@.len() ==> #[trigger] res.0@[i] == projects@[res.1@[i]],
{
    let ghost input = projects@;
    let n = projects.len();
    let mut rest = projects;
    let mut ranked: Vec<Ranked<ProjectTally>> = Vec::new();
    let mut k: usize = 0;
    while rest.len() > 0
        invariant
            k + rest@.len() == n,
            n == input.len(),
            rest@ == input.subrange(k as int, n as int),
            ranked@.len() == k,
            forall|i: int|
                0 <= i < k ==> (#[trigger] ranked@[i]).item == input[i] && ranked@[i].active
                    == breakdown_active(input[i].tally.usage) && ranked@[i].name@ == input[i].name@,
        decreases rest.len(),
    {
        let p = rest.remove(0);
        proof {
            assert(p == input[k as int]);
            assert(rest@ == input.subrange(k + 1, n as int));
        }
        let active = breakdown_active_wide(&p.tally.usage);
        let name = chars_of(p.name.as_str());
        ranked.push(Ranked { active, name, item: p });
        k = k + 1;
    }
    let (sorted, Ghost(pos)) = sort_ranked(ranked);
    let ghost sv = sorted@;
    let mut rest2 = sorted;
    let mut out: Vec<ProjectTally> = Vec::new();
    let mut k2: usize = 0;
    while rest2.len() > 0
        invariant
            k2 + rest2@.len() == n,
            sv.len() == n,
            rest2@ == sv.subrange(k2 as int, n as int),
            out@.len() == k2,
            forall|i: int| 0 <= i < k2 ==> #[trigger] out@[i] == sv[i].item,
        decreases rest2.len(),
    {
        let r = rest2.remove(0);
        proof {
            assert(r == sv[k2 as int]);
            assert(rest2@ == sv.subrange(k2 + 1, n as int));
        }
        out.push(r.item);
        k2 = k2 + 1;
    }
    proof {
        assert forall|i: int| 0 <= i < n implies #[trigger] out@[i] == input[pos[i]] by {
            assert(sv[i] == ranked@[pos[i]]);
            assert(0 <= pos[i] < n);
        }
        assert forall|i: int, j: int| 0 <= i < j < out@.len() implies !ranks_before(
            breakdown_active(out@[j].tally.usage),
            out@[j].name@,
            breakdown_active(out@[i].tally.usage),
            out@[i].name@,
        ) by {
            assert(!ranked_lt(sv[j], sv[i]));
            assert(sv[i] == ranked@[pos[i]] && sv[j] == ranked@[pos[j]]);
            assert(0 <= pos[i] < n && 0 <= pos[j] < n);
        }
    }
    (out, Ghost(pos))
}

/// The dashboard of the calls: the totals of every counted call, one entry
/// per project and, within it, per agent and kind; projects and agents with
/// the most active tokens first, then by name. Compaction calls are left out.
pub fn aggregate_dashboard(calls: &Vec<DashboardCall>, meta: &Vec<ProjectMetadata>) -> (res:
    DashboardTally)
    ensures
        tally_holds(res.totals, calls@, all_calls()),
        projects_hold(res.projects@, calls@, meta@),
        projects_ranked(res.projects@),
        forall|i: int| 0 <= i < res.projects@.len() ==> agents_ranked(#[trigger] res.projects@[i].agents@),
        forall|i: int, j: int|
            0 <= i < j < res.projects@.len() ==> !ranks_before(
                (#[trigger] res.projects@[j]).tally.usage.input_tokens
                    + res.projects@[j].tally.usage.output_tokens
                    + res.projects@[j].tally.usage.reasoning_tokens,
                res.projects@[j].name@,
                (#[trigger] res.projects@[i]).tally.usage.input_tokens
                    + res.projects@[i].tally.usage.output_tokens
                    + res.projects@[i].tally.usage.reasoning_tokens,
                res.projects@[i].name@,
            ),
        forall|p: int, i: int, j: int|
            0 <= p < res.projects@.len() && 0 <= i < j < res.projects@[p].agents@.len()
                ==> !ranks_before(
                (#[trigger] res.projects@[p].agents@[j]).tally.usage.input_tokens
                    + res.projects@[p].agents@[j].tally.usage.output_tokens
                    + res.projects@[p].agents@[j].tally.usage.reasoning_tokens,
                res.projects@[p].agents@[j].name@,
                (#[trigger] res.projects@[p].agents@[i]).tally.usage.input_tokens
                    + res.projects@[p].agents@[i].tally.usage.output_tokens
                    + res.projects@[p].agents@[i].tally.usage.reasoning_tokens,
                res.projects@[p].agents@[i].name@,
            ),
{
    let DashboardTally { totals, projects } = accumulate(calls, meta);
    let ghost cs = calls@;
    let ghost input = projects@;
    let n = projects.len();
    let mut rest = projects;
    let mut with_agents: Vec<ProjectTally> = Vec::new();
    let mut k: usize = 0;
    while rest.len() > 0
        invariant
            k + rest@.len() == n,
            n == input.len(),
            cs == calls@,
            projects_hold(input, cs, meta@),
            rest@ == input.subrange(k as int, n as int),
            with_agents@.len() == k,
            forall|i: int|
                0 <= i < k ==> {
                    &&& (#[trigger] with_agents@[i]).id == input[i].id
                    &&& with_agents@[i].name == input[i].name
                    &&& with_agents@[i].path == input[i].path
                    &&& with_agents@[i].tally == input[i].tally
                    &&& project_holds(with_agents@[i], cs, meta@)
                    &&& agents_ranked(with_agents@[i].agents@)
                },
        decreases rest.len(),
    {
        let p = rest.remove(0);
        proof {
            assert(p == input[k as int]);
            assert(rest@ == input.subrange(k + 1, n as int));
        }
        let ProjectTally { id, name, path, tally, agents } = p;
        let ghost old_agents = agents@;
        let (ranked, Ghost(pos)) = rank_agents(agents);
        let q = ProjectTally { id, name, path, tally, agents: ranked };
        proof {
            assert(project_holds(input[k as int], cs, meta@));
            lemma_agents_permuted(old_agents, q.agents@, pos, cs, q.id@);
        }
        with_agents.push(q);
        k = k + 1;
    }
    proof {
        assert(projects_hold(with_agents@, cs, meta@)) by {
            assert forall|i: int, j: int| 0 <= i < j < with_agents@.len() implies with_agents@[i].id@
                != with_agents@[j].id@ by {
                assert(with_agents@[i].id == input[i].id && with_agents@[j].id == input[j].id);
            }
            assert forall|mm: int| 0 <= mm < cs.len() && counted_call(#[trigger] cs[mm]) implies exists|i: int|
                0 <= i < with_agents@.len() && with_agents@[i].id@ == cs[mm].project_id@ by {
                let i = choose|i: int| 0 <= i < input.len() && input[i].id@ == cs[mm].project_id@;
                assert(with_agents@[i].id == input[i].id);
            }
        }
    }
    let ghost before_rank = with_agents@;
    let (ranked, Ghost(pos)) = rank_projects(with_agents);
    proof {
        lemma_projects_permuted(before_rank, ranked@, pos, cs, meta@);
        assert forall|i: int| 0 <= i < ranked@.len() implies agents_ranked(
            #[trigger] ranked@[i].agents@,
        ) by {
            assert(ranked@[i] == before_rank[pos[i]]);
            assert(0 <= pos[i] < before_rank.len());
        }
        assert forall|i: int, j: int| 0 <= i < j < ranked@.len() implies !ranks_before(
            (#[trigger] ranked@[j]).tally.usage.input_tokens + ranked@[j].tally.usage.output_tokens
                + ranked@[j].tally.usage.reasoning_tokens,
            ranked@[j].name@,
            (#[trigger] ranked@[i]).tally.usage.input_tokens + ranked@[i].tally.usage.output_tokens
                + ranked@[i].tally.usage.reasoning_tokens,
            ranked@[i].name@,
        ) by {
            assert(projects_ranked(ranked@));
            assert(!ranks_before(
                breakdown_active(ranked@[j].tally.usage),
                ranked@[j].name@,
                breakdown_active(ranked@[i].tally.usage),
                ranked@[i].name@,
            ));
        }
        assert forall|p: int, i: int, j: int|
            0 <= p < ranked@.len() && 0 <= i < j < ranked@[p].agents@.len() implies !ranks_before(
            (#[trigger] ranked@[p].agents@[j]).tally.usage.input_tokens
                + ranked@[p].agents@[j].tally.usage.output_tokens
                + ranked@[p].agents@[j].tally.usage.reasoning_tokens,
            ranked@[p].agents@[j].name@,
            (#[trigger] ranked@[p].agents@[i]).tally.usage.input_tokens
                + ranked@[p].agents@[i].tally.usage.output_tokens
                + ranked@[p].agents@[i].tally.usage.reasoning_tokens,
            ranked@[p].agents@[i].name@,
        ) by {
            let ags = ranked@[p].agents@;
            assert(agents_ranked(ags));
            assert(!ranks_before(
                breakdown_active(ags[j].tally.usage),
                ags[j].name@,
                breakdown_active(ags[i].tally.usage),
                ags[i].name@,
            ));
        }
    }
    DashboardTally { totals, projects: ranked }
}

proof fn lemma_indices_where_contains(
    cs: Seq<DashboardCall>,
    pred: spec_fn(DashboardCall) -> bool,
    m: int,
)
    requires
        cs.len() <= usize::MAX,
        0 <= m < cs.len(),
    ensures
        indices_where(cs, pred).contains(m as usize) <==> pred(cs[m]),
    decreases cs.len(),
{
    let rest = cs.drop_last();
    let last = (cs.len() - 1) as int;
    lemma_indices_where_below(rest, pred);
    if m < last {
        assert(rest[m] == cs[m]);
        lemma_indices_where_contains(rest, pred, m);
        if pred(cs.last()) {
            let w = indices_where(rest, pred);
            let wp = w.push(last as usize);
            assert(wp.contains(m as usize) <==> w.contains(m as usize)) by {
                if wp.contains(m as usize) {
                    let k = choose|k: int| 0 <= k < wp.len() && #[trigger] wp[k] == m as usize;
                    if k < w.len() {
                        assert(w[k] == m as usize);
                    }
                }
                if w.contains(m as usize) {
                    let k = choose|k: int| 0 <= k < w.len() && #[trigger] w[k] == m as usize;
                    assert(wp[k] == m as usize);
                }
            }
        }
    } else {
        let w = indices_where(rest, pred);
        assert(!w.contains(m as usize));
        if pred(cs.last()) {
            assert(w.push(last as usize)[w.len() as int] == m as usize);
        } else {
        }
    }
}

proof fn lemma_indices_where_below(cs: Seq<DashboardCall>, pred: spec_fn(DashboardCall) -> bool)
    requires
        cs.len() <= usize::MAX,
    ensures
        forall|k: int| 0 <= k < indices_where(cs, pred).len() ==> (#[trigger] indices_where(cs, pred)[k]) < cs.len(),
    decreases cs.len(),
{
    if cs.len() > 0 {
        let rest = cs.drop_last();
        lemma_indices_where_below(rest, pred);
        let w = indices_where(rest, pred);
        let last = (cs.len() - 1) as usize;
        if pred(cs.last()) {
            assert(indices_where(cs, pred) == w.push(last));
            assert forall|k: int| 0 <= k < w.push(last).len() implies #[trigger] w.push(last)[k]
                < cs.len() by {
                if k < w.len() {
                    assert(w.push(last)[k] == w[k]);
                }
            }
        } else {
            assert(indices_where(cs, pred) == w);
        }
    }
}

proof fn lemma_one_project(
    calls: Seq<DashboardCall>,
    meta: Seq<ProjectMetadata>,
    report: DashboardTally,
    m: usize,
    i: int,
    j: int,
)
    requires
        calls.len() <= usize::MAX,
        projects_hold(report.projects@, calls, meta),
        0 <= i < report.projects@.len(),
        0 <= j < report.projects@.len(),
        report.projects@[i].tally.members@.contains(m as usize),
        report.projects@[j].tally.members@.contains(m as usize),
    ensures
        i == j,
{
    let ps = report.projects@;
    assert(project_holds(ps[i], calls, meta));
    assert(project_holds(ps[j], calls, meta));
    lemma_indices_where_below(calls, project_calls(ps[i].id@));
    let w = ps[i].tally.members@;
    let k = choose|k: int| 0 <= k < w.len() && w[k] == m;
    assert(w[k] < calls.len());
    lemma_indices_where_contains(calls, project_calls(ps[i].id@), m as int);
    lemma_indices_where_contains(calls, project_calls(ps[j].id@), m as int);
    if i < j {
        assert(ps[i].id@ != ps[j].id@);
    } else if j < i {
        assert(ps[j].id@ != ps[i].id@);
    }
}

proof fn lemma_one_agent(
    calls: Seq<DashboardCall>,
    meta: Seq<ProjectMetadata>,
    report: DashboardTally,
    m: int,
    i: int,
    a: int,
)
    requires
        calls.len() <= usize::MAX,
        projects_hold(report.projects@, calls, meta),
        0 <= m < calls.len(),
        0 <= i < report.projects@.len(),
        0 <= a < report.projects@[i].agents@.len(),
    ensures
        report.projects@[i].agents@[a].tally.members@.contains(m as usize) <==> (
        report.projects@[i].tally.members@.contains(m as usize) && agent_of(calls[m])
            =~= report.projects@[i].agents@[a].name@ && kind_of(calls[m])
            =~= report.projects@[i].agents@[a].kind@),
{
    let p = report.projects@[i];
    let ag = p.agents@[a];
    assert(project_holds(p, calls, meta));
    assert(agents_hold(p.agents@, calls, p.id@));
    assert(tally_holds(ag.tally, calls, agent_calls(p.id@, ag.name@, ag.kind@)));
    lemma_indices_where_contains(calls, project_calls(p.id@), m);
    lemma_indices_where_contains(calls, agent_calls(p.id@, ag.name@, ag.kind@), m);
}

/// Every counted call is among the totals and belongs to exactly one project
/// of the dashboard, the one with its project id, and within it to exactly
/// one agent, the one with its agent and kind; a compaction call belongs to
/// none of them.
pub proof fn law_dashboard_partitions_calls(
    calls: Seq<DashboardCall>,
    meta: Seq<ProjectMetadata>,
    report: DashboardTally,
)
    requires
        calls.len() <= usize::MAX,
        tally_holds(report.totals, calls, all_calls()),
        projects_hold(report.projects@, calls, meta),
    ensures
        forall|m: int|
            0 <= m < calls.len() ==> (report.totals.members@.contains(m as usize) <==> counted_call(
                #[trigger] calls[m],
            )),
        forall|m: int, i: int|
            0 <= m < calls.len() && 0 <= i < report.projects@.len() ==> ((
            #[trigger] report.projects@[i]).tally.members@.contains(m as usize) <==> counted_call(
                #[trigger] calls[m],
            ) && calls[m].project_id@ == report.projects@[i].id@),
        forall|m: usize, i: int, j: int|
            0 <= i < report.projects@.len() && 0 <= j < report.projects@.len()
                && (#[trigger] report.projects@[i].tally.members@.contains(m))
                && (#[trigger] report.projects@[j].tally.members@.contains(m)) ==> i == j,
{
    assert forall|m: int|
        0 <= m < calls.len() implies (report.totals.members@.contains(m as usize) <==> counted_call(
        #[trigger] calls[m],
    )) by {
        lemma_indices_where_contains(calls, all_calls(), m);
    }
    assert forall|m: int, i: int|
        0 <= m < calls.len() && 0 <= i < report.projects@.len() implies ((#[trigger] report.projects@[i]).tally.members@.contains(
        m as usize,
    ) <==> counted_call(#[trigger] calls[m]) && calls[m].project_id@ == report.projects@[i].id@) by {
        assert(project_holds(report.projects@[i], calls, meta));
        lemma_indices_where_contains(calls, project_calls(report.projects@[i].id@), m);
    }
    assert forall|m: usize, i: int, j: int|
        0 <= i < report.projects@.len() && 0 <= j < report.projects@.len()
            && (#[trigger] report.projects@[i].tally.members@.contains(m))
            && (#[trigger] report.projects@[j].tally.members@.contains(m)) implies i == j by {
        lemma_one_project(calls, meta, report, m, i, j);
    }
}


/// Call `m` is among the calls of agent `a` of project `i` of the dashboard.
pub open spec fn agent_has_call(report: DashboardTally, i: int, a: int, m: int) -> bool {
    report.projects@[i].agents@[a].tally.members@.contains(m as usize)
}

/// Within a project, a call belongs to exactly the agent with its agent name
/// and kind.
pub proof fn law_dashboard_agents_partition_project(
    calls: Seq<DashboardCall>,
    meta: Seq<ProjectMetadata>,
    report: DashboardTally,
)
    requires
        calls.len() <= usize::MAX,
        projects_hold(report.projects@, calls, meta),
    ensures
        forall|m: int, i: int, a: int|
            0 <= m < calls.len() && 0 <= i < report.projects@.len() && 0 <= a
                < report.projects@[i].agents@.len() ==> (#[trigger] agent_has_call(report, i, a, m) <==> (
            report.projects@[i].tally.members@.contains(m as usize) && agent_of(calls[m])
                =~= report.projects@[i].agents@[a].name@ && kind_of(calls[m])
                =~= report.projects@[i].agents@[a].kind@)),
{
    assert forall|m: int, i: int, a: int|
        0 <= m < calls.len() && 0 <= i < report.projects@.len() && 0 <= a
            < report.projects@[i].agents@.len() implies (#[trigger] agent_has_call(report, i, a, m) <==> (
        report.projects@[i].tally.members@.contains(m as usize) && agent_of(calls[m])
            =~= report.projects@[i].agents@[a].name@ && kind_of(calls[m])
            =~= report.projects@[i].agents@[a].kind@)) by {
        lemma_one_agent(calls, meta, report, m, i, a);
    }
}

/// The sessions that the calls belong to.
pub open spec fn sessions_of(cs: Seq<DashboardCall>) -> Set<Seq<char>>
    decreases cs.len(),
{
    if cs.len() == 0 {
        Set::empty()
    } else {
        sessions_of(cs.drop_last()).insert(cs.last().session_id@)
    }
}

proof fn lemma_sessions_of(cs: Seq<DashboardCall>)
    ensures
        sessions_of(cs).finite(),
        sessions_of(cs).len() <= cs.len(),
        forall|s: Seq<char>| sessions_of(cs).contains(s) <==> has_session(cs, s),
    decreases cs.len(),
{
    if cs.len() > 0 {
        let rest = cs.drop_last();
        lemma_sessions_of(rest);
        assert(rest.push(cs.last()) == cs);
        assert forall|s: Seq<char>| sessions_of(cs).contains(s) <==> has_session(cs, s) by {
            lemma_has_session_push(rest, cs.last(), s);
        }
    }
}

/// A breakdown counts each session once: its session count is the number
/// of distinct sessions among its calls.
pub proof fn law_sessions_counted_once(cs: Seq<DashboardCall>)
    requires
        cs.len() <= u64::MAX,
    ensures
        tally(cs).sessions == sessions_of(cs).len(),
    decreases cs.len(),
{
    lemma_sessions_of(cs);
    if cs.len() > 0 {
        let rest = cs.drop_last();
        law_sessions_counted_once(rest);
        lemma_sessions_of(rest);
        let id = cs.last().session_id@;
        if has_session(rest, id) {
            assert(sessions_of(rest).contains(id));
            assert(sessions_of(cs) == sessions_of(rest));
        } else {
            assert(!sessions_of(rest).contains(id));
            assert(sessions_of(cs).len() == sessions_of(rest).len() + 1);
        }
    }
}

/// The sum of one count over the calls that `pred` selects.
pub open spec fn call_sum(
    cs: Seq<DashboardCall>,
    pred: spec_fn(DashboardCall) -> bool,
    count: spec_fn(Usage) -> u64,
) -> int
    decreases cs.len(),
{
    if cs.len() == 0 {
        0
    } else {
        call_sum(cs.drop_last(), pred, count) + if pred(cs.last()) {
            count(cs.last().usage) as int
        } else {
            0
        }
    }
}

/// The sum of one field over the projects' breakdowns.
pub open spec fn projects_total(ps: Seq<ProjectTally>, field: spec_fn(BreakdownUsage) -> u64) -> int
    decreases ps.len(),
{
    if ps.len() == 0 {
        0
    } else {
        projects_total(ps.drop_last(), field) + field(ps.last().tally.usage) as int
    }
}

/// The sum of one count over the calls of each project in `ps`.
pub open spec fn per_project_sum(
    cs: Seq<DashboardCall>,
    ps: Seq<ProjectTally>,
    count: spec_fn(Usage) -> u64,
) -> int
    decreases ps.len(),
{
    if ps.len() == 0 {
        0
    } else {
        per_project_sum(cs, ps.drop_last(), count) + call_sum(
            cs,
            project_calls(ps.last().id@),
            count,
        )
    }
}

/// `field` of a breakdown adds `count` of each call, saturating.
pub open spec fn tracks(count: spec_fn(Usage) -> u64, field: spec_fn(BreakdownUsage) -> u64) -> bool {
    &&& field(zero_breakdown()) == 0
    &&& forall|b: BreakdownUsage, u: Usage, seen: bool|
        #![trigger field(step(b, u, seen))]
        field(step(b, u, seen)) == sat_add(field(b), count(u))
}

proof fn lemma_call_sum_nonnegative(
    cs: Seq<DashboardCall>,
    pred: spec_fn(DashboardCall) -> bool,
    count: spec_fn(Usage) -> u64,
)
    ensures
        call_sum(cs, pred, count) >= 0,
    decreases cs.len(),
{
    if cs.len() > 0 {
        lemma_call_sum_nonnegative(cs.drop_last(), pred, count);
    }
}

/// The breakdown of the selected calls holds their sum, capped.
proof fn lemma_tally_field(
    cs: Seq<DashboardCall>,
    pred: spec_fn(DashboardCall) -> bool,
    count: spec_fn(Usage) -> u64,
    field: spec_fn(BreakdownUsage) -> u64,
)
    requires
        tracks(count, field),
    ensures
        field(tally(select(cs, pred))) == crate::opencode::capped(call_sum(cs, pred, count)),
    decreases cs.len(),
{
    lemma_call_sum_nonnegative(cs, pred, count);
    if cs.len() > 0 {
        let rest = cs.drop_last();
        lemma_tally_field(rest, pred, count, field);
        lemma_call_sum_nonnegative(rest, pred, count);
        if pred(cs.last()) {
            let sel = select(rest, pred).push(cs.last());
            assert(sel.drop_last() == select(rest, pred));
            assert(sel.last() == cs.last());
            let b = tally(select(rest, pred));
            let seen = has_session(select(rest, pred), cs.last().session_id@);
            assert(field(step(b, cs.last().usage, seen)) == sat_add(field(b), count(cs.last().usage)));
        }
    }
}

/// A call adds its count to the project with its id and to no other.
proof fn lemma_one_project_counts(
    cs: Seq<DashboardCall>,
    ps: Seq<ProjectTally>,
    count: spec_fn(Usage) -> u64,
)
    requires
        cs.len() > 0,
        forall|i: int, j: int| 0 <= i < j < ps.len() ==> ps[i].id@ != ps[j].id@,
    ensures
        per_project_sum(cs, ps, count) == per_project_sum(cs.drop_last(), ps, count) + if counted_call(
            cs.last(),
        ) && exists|i: int| 0 <= i < ps.len() && ps[i].id@ == cs.last().project_id@ {
            count(cs.last().usage) as int
        } else {
            0
        },
    decreases ps.len(),
{
    if ps.len() > 0 {
        let front = ps.drop_last();
        assert forall|i: int, j: int| 0 <= i < j < front.len() implies front[i].id@ != front[j].id@ by {
            assert(front[i] == ps[i] && front[j] == ps[j]);
        }
        lemma_one_project_counts(cs, front, count);
        let c = cs.last();
        if exists|i: int| 0 <= i < front.len() && front[i].id@ == c.project_id@ {
            let i = choose|i: int| 0 <= i < front.len() && front[i].id@ == c.project_id@;
            assert(ps[i] == front[i]);
            assert(ps.last().id@ != c.project_id@);
        }
        if ps.last().id@ == c.project_id@ {
            assert(ps[ps.len() - 1] == ps.last());
        } else {
            if exists|i: int| 0 <= i < ps.len() && ps[i].id@ == c.project_id@ {
                let i = choose|i: int| 0 <= i < ps.len() && ps[i].id@ == c.project_id@;
                assert(i < ps.len() - 1);
                assert(front[i] == ps[i]);
            }
        }
    }
}

/// Where the projects have distinct ids and hold every counted call, their
/// sums add up to the sum over all counted calls.
proof fn lemma_projects_add_up(
    cs: Seq<DashboardCall>,
    ps: Seq<ProjectTally>,
    count: spec_fn(Usage) -> u64,
)
    requires
        forall|i: int, j: int| 0 <= i < j < ps.len() ==> ps[i].id@ != ps[j].id@,
        forall|m: int|
            0 <= m < cs.len() && counted_call(#[trigger] cs[m]) ==> exists|i: int|
                0 <= i < ps.len() && ps[i].id@ == cs[m].project_id@,
    ensures
        per_project_sum(cs, ps, count) == call_sum(cs, all_calls(), count),
    decreases cs.len(),
{
    if cs.len() == 0 {
        lemma_empty_per_project(cs, ps, count);
    } else {
        let rest = cs.drop_last();
        assert forall|m: int| 0 <= m < rest.len() && counted_call(#[trigger] rest[m]) implies exists|i: int|
            0 <= i < ps.len() && ps[i].id@ == rest[m].project_id@ by {
            assert(rest[m] == cs[m]);
        }
        lemma_projects_add_up(rest, ps, count);
        lemma_one_project_counts(cs, ps, count);
        if counted_call(cs.last()) {
            assert(cs[cs.len() - 1] == cs.last());
        }
    }
}

proof fn lemma_empty_per_project(
    cs: Seq<DashboardCall>,
    ps: Seq<ProjectTally>,
    count: spec_fn(Usage) -> u64,
)
    requires
        cs.len() == 0,
    ensures
        per_project_sum(cs, ps, count) == 0,
    decreases ps.len(),
{
    if ps.len() > 0 {
        lemma_empty_per_project(cs, ps.drop_last(), count);
    }
}

/// Where no project's own sum passes the largest `u64`, the field summed
/// over the projects is the sum of their calls' counts.
proof fn lemma_projects_total(
    cs: Seq<DashboardCall>,
    ps: Seq<ProjectTally>,
    meta: Seq<ProjectMetadata>,
    count: spec_fn(Usage) -> u64,
    field: spec_fn(BreakdownUsage) -> u64,
)
    requires
        tracks(count, field),
        forall|i: int| 0 <= i < ps.len() ==> project_holds(#[trigger] ps[i], cs, meta),
        per_project_sum(cs, ps, count) <= u64::MAX,
    ensures
        projects_total(ps, field) == per_project_sum(cs, ps, count),
    decreases ps.len(),
{
    if ps.len() > 0 {
        let front = ps.drop_last();
        assert forall|i: int| 0 <= i < front.len() implies project_holds(#[trigger] front[i], cs, meta) by {
            assert(front[i] == ps[i]);
        }
        let last = ps.last();
        assert(project_holds(ps[ps.len() - 1], cs, meta));
        lemma_call_sum_nonnegative(cs, project_calls(last.id@), count);
        lemma_per_project_nonnegative(cs, front, count);
        lemma_projects_total(cs, front, meta, count, field);
        lemma_tally_field(cs, project_calls(last.id@), count, field);
    }
}

proof fn lemma_per_project_nonnegative(
    cs: Seq<DashboardCall>,
    ps: Seq<ProjectTally>,
    count: spec_fn(Usage) -> u64,
)
    ensures
        per_project_sum(cs, ps, count) >= 0,
    decreases ps.len(),
{
    if ps.len() > 0 {
        lemma_per_project_nonnegative(cs, ps.drop_last(), count);
        lemma_call_sum_nonnegative(cs, project_calls(ps.last().id@), count);
    }
}

/// One field of the dashboard adds up: where the total of the counted
/// calls fits in a `u64`, the totals hold it and it is the sum of the
/// projects' breakdowns.
proof fn lemma_field_adds_up(
    cs: Seq<DashboardCall>,
    meta: Seq<ProjectMetadata>,
    report: DashboardTally,
    count: spec_fn(Usage) -> u64,
    field: spec_fn(BreakdownUsage) -> u64,
)
    requires
        tracks(count, field),
        tally_holds(report.totals, cs, all_calls()),
        projects_hold(report.projects@, cs, meta),
        call_sum(cs, all_calls(), count) <= u64::MAX,
    ensures
        field(report.totals.usage) == call_sum(cs, all_calls(), count),
        projects_total(report.projects@, field) == call_sum(cs, all_calls(), count),
{
    lemma_tally_field(cs, all_calls(), count, field);
    lemma_call_sum_nonnegative(cs, all_calls(), count);
    lemma_projects_add_up(cs, report.projects@, count);
    lemma_projects_total(cs, report.projects@, meta, count, field);
}

/// Where nothing overflows, the dashboard adds up: the totals' calls and
/// token counts are the sums over all counted calls, and the projects'
/// breakdowns sum to the totals.
pub proof fn law_dashboard_totals_add_up(
    calls: Seq<DashboardCall>,
    meta: Seq<ProjectMetadata>,
    report: DashboardTally,
)
    requires
        tally_holds(report.totals, calls, all_calls()),
        projects_hold(report.projects@, calls, meta),
        call_sum(calls, all_calls(), |u: Usage| u.messages) <= u64::MAX,
        call_sum(calls, all_calls(), |u: Usage| u.input_tokens) <= u64::MAX,
        call_sum(calls, all_calls(), |u: Usage| u.output_tokens) <= u64::MAX,
        call_sum(calls, all_calls(), |u: Usage| u.reasoning_tokens) <= u64::MAX,
        call_sum(calls, all_calls(), |u: Usage| u.cache_read_tokens) <= u64::MAX,
        call_sum(calls, all_calls(), |u: Usage| u.cache_write_tokens) <= u64::MAX,
    ensures
        report.totals.usage.calls == call_sum(calls, all_calls(), |u: Usage| u.messages),
        report.totals.usage.input_tokens == call_sum(calls, all_calls(), |u: Usage| u.input_tokens),
        report.totals.usage.output_tokens == call_sum(calls, all_calls(), |u: Usage| u.output_tokens),
        report.totals.usage.reasoning_tokens == call_sum(
            calls,
            all_calls(),
            |u: Usage| u.reasoning_tokens,
        ),
        report.totals.usage.cache_read_tokens == call_sum(
            calls,
            all_calls(),
            |u: Usage| u.cache_read_tokens,
        ),
        report.totals.usage.cache_write_tokens == call_sum(
            calls,
            all_calls(),
            |u: Usage| u.cache_write_tokens,
        ),
        projects_total(report.projects@, |b: BreakdownUsage| b.calls) == report.totals.usage.calls,
        projects_total(report.projects@, |b: BreakdownUsage| b.input_tokens)
            == report.totals.usage.input_tokens,
        projects_total(report.projects@, |b: BreakdownUsage| b.output_tokens)
            == report.totals.usage.output_tokens,
        projects_total(report.projects@, |b: BreakdownUsage| b.reasoning_tokens)
            == report.totals.usage.reasoning_tokens,
        projects_total(report.projects@, |b: BreakdownUsage| b.cache_read_tokens)
            == report.totals.usage.cache_read_tokens,
        projects_total(report.projects@, |b: BreakdownUsage| b.cache_write_tokens)
            == report.totals.usage.cache_write_tokens,
{
    lemma_field_adds_up(calls, meta, report, |u: Usage| u.messages, |b: BreakdownUsage| b.calls);
    lemma_field_adds_up(
        calls,
        meta,
        report,
        |u: Usage| u.input_tokens,
        |b: BreakdownUsage| b.input_tokens,
    );
    lemma_field_adds_up(
        calls,
        meta,
        report,
        |u: Usage| u.output_tokens,
        |b: BreakdownUsage| b.output_tokens,
    );
    lemma_field_adds_up(
        calls,
        meta,
        report,
        |u: Usage| u.reasoning_tokens,
        |b: BreakdownUsage| b.reasoning_tokens,
    );
    lemma_field_adds_up(
        calls,
        meta,
        report,
        |u: Usage| u.cache_read_tokens,
        |b: BreakdownUsage| b.cache_read_tokens,
    );
    lemma_field_adds_up(
        calls,
        meta,
        report,
        |u: Usage| u.cache_write_tokens,
        |b: BreakdownUsage| b.cache_write_tokens,
    );
}

/// Calls of one session belong to one project.
pub open spec fn sessions_stay_in_project(cs: Seq<DashboardCall>) -> bool {
    forall|a: int, b: int|
        0 <= a < cs.len() && 0 <= b < cs.len() && counted_call(#[trigger] cs[a]) && counted_call(
            #[trigger] cs[b],
        ) && cs[a].session_id@ == cs[b].session_id@ ==> cs[a].project_id@ == cs[b].project_id@
}

/// The sessions of the calls that `pred` selects.
pub open spec fn selected_sessions(
    cs: Seq<DashboardCall>,
    pred: spec_fn(DashboardCall) -> bool,
) -> Set<Seq<char>> {
    sessions_of(select(cs, pred))
}

proof fn lemma_select_len(cs: Seq<DashboardCall>, pred: spec_fn(DashboardCall) -> bool)
    ensures
        select(cs, pred).len() <= cs.len(),
    decreases cs.len(),
{
    if cs.len() > 0 {
        lemma_select_len(cs.drop_last(), pred);
    }
}

/// A session is among the selected calls exactly when a selected call has it.
proof fn lemma_selected_session(
    cs: Seq<DashboardCall>,
    pred: spec_fn(DashboardCall) -> bool,
    s: Seq<char>,
)
    ensures
        selected_sessions(cs, pred).finite(),
        selected_sessions(cs, pred).contains(s) <==> exists|m: int|
            0 <= m < cs.len() && pred(#[trigger] cs[m]) && cs[m].session_id@ == s,
    decreases cs.len(),
{
    lemma_sessions_of(select(cs, pred));
    if cs.len() > 0 {
        let rest = cs.drop_last();
        let c = cs.last();
        lemma_selected_session(rest, pred, s);
        lemma_sessions_of(select(rest, pred));
        if pred(c) {
            lemma_has_session_push(select(rest, pred), c, s);
        }
        if exists|m: int| 0 <= m < cs.len() && pred(#[trigger] cs[m]) && cs[m].session_id@ == s {
            let m = choose|m: int| 0 <= m < cs.len() && pred(#[trigger] cs[m]) && cs[m].session_id@ == s;
            if m < rest.len() {
                assert(rest[m] == cs[m]);
            } else {
                assert(cs[m] == c);
            }
        }
        if exists|m: int| 0 <= m < rest.len() && pred(#[trigger] rest[m]) && rest[m].session_id@ == s {
            let m = choose|m: int| 0 <= m < rest.len() && pred(#[trigger] rest[m]) && rest[m].session_id@ == s;
            assert(cs[m] == rest[m]);
        }
        if pred(c) && c.session_id@ == s {
            assert(cs[cs.len() - 1] == c);
        }
    } else {
        assert(select(cs, pred) == Seq::<DashboardCall>::empty());
    }
}

/// The sessions of the projects in `ps`, together.
pub open spec fn project_sessions(cs: Seq<DashboardCall>, ps: Seq<ProjectTally>) -> Set<Seq<char>>
    decreases ps.len(),
{
    if ps.len() == 0 {
        Set::empty()
    } else {
        project_sessions(cs, ps.drop_last()) + selected_sessions(cs, project_calls(ps.last().id@))
    }
}

proof fn lemma_project_sessions(
    cs: Seq<DashboardCall>,
    ps: Seq<ProjectTally>,
    meta: Seq<ProjectMetadata>,
)
    requires
        cs.len() <= u64::MAX,
        sessions_stay_in_project(cs),
        forall|i: int, j: int| 0 <= i < j < ps.len() ==> ps[i].id@ != ps[j].id@,
        forall|i: int| 0 <= i < ps.len() ==> project_holds(#[trigger] ps[i], cs, meta),
    ensures
        project_sessions(cs, ps).finite(),
        project_sessions(cs, ps).len() == projects_total(ps, |b: BreakdownUsage| b.sessions),
        forall|s: Seq<char>|
            project_sessions(cs, ps).contains(s) <==> exists|i: int|
                0 <= i < ps.len() && (#[trigger] selected_sessions(cs, project_calls(ps[i].id@))).contains(s),
    decreases ps.len(),
{
    if ps.len() > 0 {
        let front = ps.drop_last();
        let last = ps.last();
        assert forall|i: int, j: int| 0 <= i < j < front.len() implies front[i].id@ != front[j].id@ by {
            assert(front[i] == ps[i] && front[j] == ps[j]);
        }
        assert forall|i: int| 0 <= i < front.len() implies project_holds(#[trigger] front[i], cs, meta) by {
            assert(front[i] == ps[i]);
        }
        lemma_project_sessions(cs, front, meta);
        let u = project_sessions(cs, front);
        let own = selected_sessions(cs, project_calls(last.id@));
        lemma_sessions_of(select(cs, project_calls(last.id@)));
        assert(own.finite());
        assert(u.disjoint(own)) by {
            assert forall|x: Seq<char>| !(u.contains(x) && own.contains(x)) by {
                if u.contains(x) && own.contains(x) {
                    let i = choose|i: int|
                        0 <= i < front.len() && (#[trigger] selected_sessions(cs, project_calls(front[i].id@))).contains(x);
                    lemma_selected_session(cs, project_calls(front[i].id@), x);
                    lemma_selected_session(cs, project_calls(last.id@), x);
                    let a = choose|m: int|
                        0 <= m < cs.len() && project_calls(front[i].id@)(#[trigger] cs[m]) && cs[m].session_id@ == x;
                    let b = choose|m: int|
                        0 <= m < cs.len() && project_calls(last.id@)(#[trigger] cs[m]) && cs[m].session_id@ == x;
                    assert(cs[a].project_id@ == cs[b].project_id@);
                    assert(front[i] == ps[i]);
                    assert(ps[ps.len() - 1] == last);
                }
            }
        }
        vstd::set_lib::lemma_set_disjoint_lens(u, own);
        let p = ps[ps.len() - 1];
        assert(p == last);
        assert(project_holds(p, cs, meta));
        lemma_select_len(cs, project_calls(last.id@));
        law_sessions_counted_once(select(cs, project_calls(last.id@)));
        assert forall|x: Seq<char>|
            project_sessions(cs, ps).contains(x) <==> exists|i: int|
                0 <= i < ps.len() && (#[trigger] selected_sessions(cs, project_calls(ps[i].id@))).contains(x) by {
            if u.contains(x) {
                let i = choose|i: int|
                    0 <= i < front.len() && (#[trigger] selected_sessions(cs, project_calls(front[i].id@))).contains(x);
                assert(front[i] == ps[i]);
            }
            if exists|i: int|
                0 <= i < ps.len() && (#[trigger] selected_sessions(cs, project_calls(ps[i].id@))).contains(x) {
                let i = choose|i: int|
                    0 <= i < ps.len() && (#[trigger] selected_sessions(cs, project_calls(ps[i].id@))).contains(x);
                if i < front.len() {
                    assert(front[i] == ps[i]);
                }
            }
        }
    }
}

/// Where each session's calls belong to one project, each project's session
/// count is the number of its sessions and the projects' counts add up to
/// the totals': no session is counted under two projects.
pub proof fn law_dashboard_sessions_add_up(
    calls: Seq<DashboardCall>,
    meta: Seq<ProjectMetadata>,
    report: DashboardTally,
)
    requires
        calls.len() <= u64::MAX,
        sessions_stay_in_project(calls),
        tally_holds(report.totals, calls, all_calls()),
        projects_hold(report.projects@, calls, meta),
    ensures
        projects_total(report.projects@, |b: BreakdownUsage| b.sessions) == report.totals.usage.sessions,
{
    let ps = report.projects@;
    lemma_project_sessions(calls, ps, meta);
    let total = selected_sessions(calls, all_calls());
    lemma_select_len(calls, all_calls());
    law_sessions_counted_once(select(calls, all_calls()));
    lemma_sessions_of(select(calls, all_calls()));
    assert forall|x: Seq<char>| project_sessions(calls, ps).contains(x) <==> total.contains(x) by {
        lemma_selected_session(calls, all_calls(), x);
        if project_sessions(calls, ps).contains(x) {
            let i = choose|i: int|
                0 <= i < ps.len() && (#[trigger] selected_sessions(calls, project_calls(ps[i].id@))).contains(x);
            lemma_selected_session(calls, project_calls(ps[i].id@), x);
            let m = choose|m: int|
                0 <= m < calls.len() && project_calls(ps[i].id@)(#[trigger] calls[m]) && calls[m].session_id@ == x;
            assert(all_calls()(calls[m]));
        }
        if total.contains(x) {
            let m = choose|m: int| 0 <= m < calls.len() && all_calls()(#[trigger] calls[m]) && calls[m].session_id@ == x;
            assert(counted_call(calls[m]));
            let i = choose|i: int| 0 <= i < ps.len() && ps[i].id@ == calls[m].project_id@;
            lemma_selected_session(calls, project_calls(ps[i].id@), x);
            assert(project_calls(ps[i].id@)(calls[m]));
            assert(selected_sessions(calls, project_calls(ps[i].id@)).contains(x));
        }
    }
    assert(project_sessions(calls, ps) =~= total);
}

/// Projects ranked as the dashboard ranks them come in order of their input,
/// output and reasoning tokens, most first, ties by name.
pub proof fn law_projects_ranked_by_token_sum(projects: Seq<ProjectTally>)
    requires
        projects_ranked(projects),
    ensures
        forall|i: int, j: int|
            0 <= i < j < projects.len() ==> {
                let a = (#[trigger] projects[i]).tally.usage;
                let b = (#[trigger] projects[j]).tally.usage;
                a.input_tokens + a.output_tokens + a.reasoning_tokens > b.input_tokens
                    + b.output_tokens + b.reasoning_tokens || (a.input_tokens + a.output_tokens
                    + a.reasoning_tokens == b.input_tokens + b.output_tokens + b.reasoning_tokens
                    && !lex_lt(projects[j].name@, projects[i].name@))
            },
{
    assert forall|i: int, j: int| 0 <= i < j < projects.len() implies {
        let a = (#[trigger] projects[i]).tally.usage;
        let b = (#[trigger] projects[j]).tally.usage;
        a.input_tokens + a.output_tokens + a.reasoning_tokens > b.input_tokens + b.output_tokens
            + b.reasoning_tokens || (a.input_tokens + a.output_tokens + a.reasoning_tokens
            == b.input_tokens + b.output_tokens + b.reasoning_tokens && !lex_lt(
            projects[j].name@,
            projects[i].name@,
        ))
    } by {
        assert(!ranks_before(
            breakdown_active(projects[j].tally.usage),
            projects[j].name@,
            breakdown_active(projects[i].tally.usage),
            projects[i].name@,
        ));
    }
}

/// Agents ranked as the dashboard ranks them come in order of their input,
/// output and reasoning tokens, most first, ties by name.
pub proof fn law_agents_ranked_by_token_sum(agents: Seq<AgentTally>)
    requires
        agents_ranked(agents),
    ensures
        forall|i: int, j: int|
            0 <= i < j < agents.len() ==> {
                let a = (#[trigger] agents[i]).tally.usage;
                let b = (#[trigger] agents[j]).tally.usage;
                a.input_tokens + a.output_tokens + a.reasoning_tokens > b.input_tokens
                    + b.output_tokens + b.reasoning_tokens || (a.input_tokens + a.output_tokens
                    + a.reasoning_tokens == b.input_tokens + b.output_tokens + b.reasoning_tokens
                    && !lex_lt(agents[j].name@, agents[i].name@))
            },
{
    assert forall|i: int, j: int| 0 <= i < j < agents.len() implies {
        let a = (#[trigger] agents[i]).tally.usage;
        let b = (#[trigger] agents[j]).tally.usage;
        a.input_tokens + a.output_tokens + a.reasoning_tokens > b.input_tokens + b.output_tokens
            + b.reasoning_tokens || (a.input_tokens + a.output_tokens + a.reasoning_tokens
            == b.input_tokens + b.output_tokens + b.reasoning_tokens && !lex_lt(
            agents[j].name@,
            agents[i].name@,
        ))
    } by {
        assert(!ranks_before(
            breakdown_active(agents[j].tally.usage),
            agents[j].name@,
            breakdown_active(agents[i].tally.usage),
            agents[i].name@,
        ));
    }
}

/// Call `m` is counted under an agent named `name` in its own project.
pub open spec fn attributed_to(report: DashboardTally, calls: Seq<DashboardCall>, m: int, name: Seq<char>) -> bool {
    exists|i: int, a: int|
        0 <= i < report.projects@.len() && 0 <= a < report.projects@[i].agents@.len()
            && report.projects@[i].id@ == calls[m].project_id@
            && report.projects@[i].agents@[a].name@ == name && #[trigger] agent_has_call(report, i, a, m)
}

proof fn lemma_attributed(calls: Seq<DashboardCall>, meta: Seq<ProjectMetadata>, report: DashboardTally, m: int)
    requires
        calls.len() <= usize::MAX,
        projects_hold(report.projects@, calls, meta),
        0 <= m < calls.len(),
        counted_call(calls[m]),
    ensures
        attributed_to(report, calls, m, agent_of(calls[m])),
{
    let ps = report.projects@;
    let c = calls[m];
    assert(counted_call(calls[m]));
    let i = choose|i: int| 0 <= i < ps.len() && ps[i].id@ == c.project_id@;
    let p = ps[i];
    assert(project_holds(p, calls, meta));
    assert(agents_hold(p.agents@, calls, p.id@));
    assert(project_calls(p.id@)(calls[m]));
    let a = choose|a: int|
        0 <= a < p.agents@.len() && p.agents@[a].name@ == agent_of(calls[m]) && p.agents@[a].kind@
            == kind_of(calls[m]);
    lemma_indices_where_contains(calls, project_calls(p.id@), m);
    lemma_one_agent(calls, meta, report, m, i, a);
    assert(agent_has_call(report, i, a, m));
}

/// A call whose message names an agent is counted under that agent, whatever
/// its session names; the session's agent counts only where the message
/// names none, and `unknown` where neither does. Compaction calls are the
/// ones left out.
pub proof fn law_message_agent_wins(
    calls: Seq<DashboardCall>,
    meta: Seq<ProjectMetadata>,
    report: DashboardTally,
)
    requires
        calls.len() <= usize::MAX,
        projects_hold(report.projects@, calls, meta),
    ensures
        forall|m: int|
            0 <= m < calls.len() ==> ((#[trigger] calls[m]).message_agent is Some
                && calls[m].message_agent->0@ != "compaction"@ ==> attributed_to(
                report,
                calls,
                m,
                calls[m].message_agent->0@,
            )),
        forall|m: int|
            0 <= m < calls.len() && (#[trigger] calls[m]).message_agent is None ==> (
            calls[m].session_agent is Some && calls[m].session_agent->0@ != "compaction"@
                ==> attributed_to(report, calls, m, calls[m].session_agent->0@)),
        forall|m: int|
            0 <= m < calls.len() && (#[trigger] calls[m]).message_agent is None
                && calls[m].session_agent is None ==> attributed_to(report, calls, m, "unknown"@),
{
    assert forall|m: int| 0 <= m < calls.len() implies ((#[trigger] calls[m]).message_agent is Some
        && calls[m].message_agent->0@ != "compaction"@ ==> attributed_to(
        report,
        calls,
        m,
        calls[m].message_agent->0@,
    )) by {
        if calls[m].message_agent is Some && agent_of(calls[m]) != "compaction"@ {
            lemma_attributed(calls, meta, report, m);
        }
    }
    assert forall|m: int| 0 <= m < calls.len() && (#[trigger] calls[m]).message_agent is None implies (
    calls[m].session_agent is Some && calls[m].session_agent->0@ != "compaction"@ ==> attributed_to(
        report,
        calls,
        m,
        calls[m].session_agent->0@,
    )) by {
        if calls[m].session_agent is Some && agent_of(calls[m]) != "compaction"@ {
            lemma_attributed(calls, meta, report, m);
        }
    }
    assert forall|m: int|
        0 <= m < calls.len() && (#[trigger] calls[m]).message_agent is None
            && calls[m].session_agent is None implies attributed_to(report, calls, m, "unknown"@) by {
        reveal_strlit("unknown");
        reveal_strlit("compaction");
        assert("unknown"@.len() != "compaction"@.len());
        assert(agent_of(calls[m]) == "unknown"@);
        lemma_attributed(calls, meta, report, m);
    }
}

} // verus!
