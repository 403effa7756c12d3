use vstd::prelude::*;

verus! {

/// How many agent processes may be alive at once, given how many threads the
/// machine offers: one fewer, and at least one.
pub fn parallelism_bound(available: usize) -> (r: usize)
    ensures
        r >= 1,
        r == (if available >= 2 { available - 1 } else { 1 }),
{
    if available >= 2 {
        available - 1
    } else {
        1
    }
}

/// The number of agent processes that are alive, across all files, and the
/// bound it may never exceed. Every operation keeps the count within the bound.
pub struct UsedParallelism {
    used: usize,
    limit: usize,
}

impl UsedParallelism {
    /// The count is within the bound, and the bound is at least one.
    pub closed spec fn wf(&self) -> bool {
        1 <= self.limit && self.used <= self.limit
    }

    /// How many agent processes hold a slot.
    pub closed spec fn used_count(&self) -> nat {
        self.used as nat
    }

    /// The most that may hold a slot at once.
    pub closed spec fn limit_count(&self) -> nat {
        self.limit as nat
    }

    /// No slot is taken yet. A bound of 0 is raised to 1.
    pub fn new(limit: usize) -> (p: UsedParallelism)
        ensures
            p.wf(),
            p.used_count() == 0,
            p.limit_count() == (if limit == 0 { 1 } else { limit }),
    {
        UsedParallelism { used: 0, limit: if limit == 0 { 1 } else { limit } }
    }

    pub fn used(&self) -> (r: usize)
        ensures
            r == self.used_count(),
    {
        self.used
    }

    pub fn limit(&self) -> (r: usize)
        ensures
            r == self.limit_count(),
    {
        self.limit
    }
}

/// Takes a slot for a new agent process if one is free. The caller waits and
/// tries again when it returns `false`.
pub fn lock_used_parallelism_for_incrementing(p: &mut UsedParallelism) -> (acquired: bool)
    requires
        old(p).wf(),
    ensures
        final(p).wf(),
        acquired == (old(p).used_count() < old(p).limit_count()),
        final(p).limit_count() == old(p).limit_count(),
        acquired ==> final(p).used_count() == old(p).used_count() + 1,
        !acquired ==> final(p).used_count() == old(p).used_count(),
{
    if p.used < p.limit {
        p.used = p.used + 1;
        true
    } else {
        false
    }
}

/// Gives back the slot of an agent process whose output has been read.
pub fn decrement_used_parallelism(p: &mut UsedParallelism)
    requires
        old(p).wf(),
        old(p).used_count() > 0,
    ensures
        final(p).wf(),
        final(p).used_count() == old(p).used_count() - 1,
        final(p).limit_count() == old(p).limit_count(),
{
    p.used = p.used - 1;
}

/// At no time do more agent processes hold a slot than the bound allows,
/// and the bound is at least one.
pub proof fn lemma_used_within_limit(p: UsedParallelism)
    requires
        p.wf(),
    ensures
        1 <= p.limit_count(),
        p.used_count() <= p.limit_count(),
{
}

} // verus!
