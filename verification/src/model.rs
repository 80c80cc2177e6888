//! Token usage counters.
//!
//! Costs in US dollars are floating-point values and are kept beside these
//! counters by the caller; everything here is integer arithmetic.
use vstd::prelude::*;

verus! {

/// The token usage of one or more assistant messages.
#[derive(Clone, Copy, Debug, PartialEq, Eq)]
pub struct Usage {
    pub messages: u64,
    pub input_tokens: u64,
    pub output_tokens: u64,
    pub reasoning_tokens: u64,
    pub cache_read_tokens: u64,
    pub cache_write_tokens: u64,
}

impl Default for Usage {
    fn default() -> (res: Self)
        ensures
            res == zero_usage(),
    {
        Usage {
            messages: 0,
            input_tokens: 0,
            output_tokens: 0,
            reasoning_tokens: 0,
            cache_read_tokens: 0,
            cache_write_tokens: 0,
        }
    }
}

pub open spec fn zero_usage() -> Usage {
    Usage {
        messages: 0,
        input_tokens: 0,
        output_tokens: 0,
        reasoning_tokens: 0,
        cache_read_tokens: 0,
        cache_write_tokens: 0,
    }
}

/// `a + b`, capped at `u64::MAX` (`saturating_add`).
pub open spec fn sat_add(a: u64, b: u64) -> u64 {
    if a + b > u64::MAX {
        u64::MAX
    } else {
        (a + b) as u64
    }
}

pub open spec fn usage_active(u: Usage) -> int {
    u.input_tokens + u.output_tokens + u.reasoning_tokens
}

pub open spec fn usage_all(u: Usage) -> int {
    usage_active(u) + u.cache_read_tokens + u.cache_write_tokens
}

/// Field-wise sum of two usages, each field within `u64`.
pub open spec fn sums_fit(a: Usage, b: Usage) -> bool {
    &&& a.messages + b.messages <= u64::MAX
    &&& a.input_tokens + b.input_tokens <= u64::MAX
    &&& a.output_tokens + b.output_tokens <= u64::MAX
    &&& a.reasoning_tokens + b.reasoning_tokens <= u64::MAX
    &&& a.cache_read_tokens + b.cache_read_tokens <= u64::MAX
    &&& a.cache_write_tokens + b.cache_write_tokens <= u64::MAX
}

impl Usage {
    /// Input, output and reasoning tokens.
    pub fn active_tokens(&self) -> (res: u64)
        requires
            usage_active(*self) <= u64::MAX,
        ensures
            res == usage_active(*self),
            res == self.input_tokens + self.output_tokens + self.reasoning_tokens,
    {
        self.input_tokens + self.output_tokens + self.reasoning_tokens
    }

    /// Active tokens plus cache reads and writes.
    pub fn all_tokens(&self) -> (res: u64)
        requires
            usage_all(*self) <= u64::MAX,
        ensures
            res == usage_all(*self),
    {
        self.active_tokens() + self.cache_read_tokens + self.cache_write_tokens
    }

    /// Adds `other` field by field (`+=`).
    pub fn add_assign(&mut self, other: &Usage)
        requires
            sums_fit(*old(self), *other),
        ensures
            final(self).messages == old(self).messages + other.messages,
            final(self).input_tokens == old(self).input_tokens + other.input_tokens,
            final(self).output_tokens == old(self).output_tokens + other.output_tokens,
            final(self).reasoning_tokens == old(self).reasoning_tokens + other.reasoning_tokens,
            final(self).cache_read_tokens == old(self).cache_read_tokens + other.cache_read_tokens,
            final(self).cache_write_tokens == old(self).cache_write_tokens
                + other.cache_write_tokens,
    {
        self.messages = self.messages + other.messages;
        self.input_tokens = self.input_tokens + other.input_tokens;
        self.output_tokens = self.output_tokens + other.output_tokens;
        self.reasoning_tokens = self.reasoning_tokens + other.reasoning_tokens;
        self.cache_read_tokens = self.cache_read_tokens + other.cache_read_tokens;
        self.cache_write_tokens = self.cache_write_tokens + other.cache_write_tokens;
    }
}

/// Usage broken down by project or agent: calls, distinct sessions, tokens.
#[derive(Clone, Copy, Debug, PartialEq, Eq)]
pub struct BreakdownUsage {
    pub calls: u64,
    pub sessions: u64,
    pub input_tokens: u64,
    pub output_tokens: u64,
    pub reasoning_tokens: u64,
    pub cache_read_tokens: u64,
    pub cache_write_tokens: u64,
}

pub open spec fn zero_breakdown() -> BreakdownUsage {
    BreakdownUsage {
        calls: 0,
        sessions: 0,
        input_tokens: 0,
        output_tokens: 0,
        reasoning_tokens: 0,
        cache_read_tokens: 0,
        cache_write_tokens: 0,
    }
}

impl Default for BreakdownUsage {
    fn default() -> (res: Self)
        ensures
            res == zero_breakdown(),
    {
        BreakdownUsage {
            calls: 0,
            sessions: 0,
            input_tokens: 0,
            output_tokens: 0,
            reasoning_tokens: 0,
            cache_read_tokens: 0,
            cache_write_tokens: 0,
        }
    }
}

pub open spec fn breakdown_active(b: BreakdownUsage) -> int {
    b.input_tokens + b.output_tokens + b.reasoning_tokens
}

pub open spec fn breakdown_all(b: BreakdownUsage) -> int {
    breakdown_active(b) + b.cache_read_tokens + b.cache_write_tokens
}

/// `b` with the calls and tokens of `u` added, each saturating; the session
/// count is unchanged.
pub open spec fn breakdown_plus(b: BreakdownUsage, u: Usage) -> BreakdownUsage {
    BreakdownUsage {
        calls: sat_add(b.calls, u.messages),
        sessions: b.sessions,
        input_tokens: sat_add(b.input_tokens, u.input_tokens),
        output_tokens: sat_add(b.output_tokens, u.output_tokens),
        reasoning_tokens: sat_add(b.reasoning_tokens, u.reasoning_tokens),
        cache_read_tokens: sat_add(b.cache_read_tokens, u.cache_read_tokens),
        cache_write_tokens: sat_add(b.cache_write_tokens, u.cache_write_tokens),
    }
}

impl BreakdownUsage {
    /// Input, output and reasoning tokens.
    pub fn active_tokens(&self) -> (res: u64)
        requires
            breakdown_active(*self) <= u64::MAX,
        ensures
            res == breakdown_active(*self),
            res == self.input_tokens + self.output_tokens + self.reasoning_tokens,
    {
        self.input_tokens + self.output_tokens + self.reasoning_tokens
    }

    /// Active tokens plus cache reads and writes.
    pub fn all_tokens(&self) -> (res: u64)
        requires
            breakdown_all(*self) <= u64::MAX,
        ensures
            res == breakdown_all(*self),
    {
        self.active_tokens() + self.cache_read_tokens + self.cache_write_tokens
    }

    /// Adds the messages and tokens of `usage`, saturating at `u64::MAX`.
    pub fn add_usage(&mut self, usage: &Usage)
        ensures
            *final(self) == breakdown_plus(*old(self), *usage),
    {
        self.calls = self.calls.saturating_add(usage.messages);
        self.input_tokens = self.input_tokens.saturating_add(usage.input_tokens);
        self.output_tokens = self.output_tokens.saturating_add(usage.output_tokens);
        self.reasoning_tokens = self.reasoning_tokens.saturating_add(usage.reasoning_tokens);
        self.cache_read_tokens = self.cache_read_tokens.saturating_add(usage.cache_read_tokens);
        self.cache_write_tokens = self.cache_write_tokens.saturating_add(usage.cache_write_tokens);
    }
}

/// Exact active-token count of a breakdown, which cannot overflow here.
pub fn breakdown_active_wide(b: &BreakdownUsage) -> (res: u128)
    ensures
        res == breakdown_active(*b),
        res == b.input_tokens + b.output_tokens + b.reasoning_tokens,
{
    b.input_tokens as u128 + b.output_tokens as u128 + b.reasoning_tokens as u128
}

} // verus!
