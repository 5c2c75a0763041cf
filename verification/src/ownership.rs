//! Resource ownership and the priority-ceiling discipline.
//!
//! Ownership of a resource is derived by folding, in the model's fixed
//! enumeration order, over every access that carries a priority: the
//! first access makes the resource owned, a second priority makes it
//! contended with the running maximum as ceiling, and further accesses
//! at the single recorded priority make it co-owned. Accesses without a
//! priority (from init routines) never create or raise ownership.

use vstd::prelude::*;

use crate::ast::Access;

verus! {

/// Resource ownership, as derived by the analysis.
#[derive(Clone, Copy, Debug, PartialEq, Eq, Structural)]
pub enum Ownership {
    /// Owned by a single task.
    Owned {
        /// Priority of the task that owns this resource.
        priority: u8,
    },
    /// "Co-owned" by more than one task; all of them have the same
    /// priority, so execution over the resource is mutually exclusive by
    /// construction and no lock is needed.
    CoOwned {
        /// Priority of the tasks that co-own this resource.
        priority: u8,
    },
    /// Contended by tasks of two or more distinct priorities.
    Contended {
        /// Priority ceiling: the maximum priority among the contending
        /// accesses; never below any of them.
        ceiling: u8,
    },
}

/// Resource location: the core a used resource lives on.
#[derive(Clone, Copy, Debug, PartialEq, Eq, Structural)]
pub enum Location {
    /// A resource that resides on one core.
    Owned {
        /// Core on which this resource is located.
        core: u8,
    },
}

/// The larger of two priorities.
pub open spec fn max_u8(a: u8, b: u8) -> u8 {
    if a >= b {
        a
    } else {
        b
    }
}

/// The priority on record for an ownership state: the owning priority,
/// or the ceiling of a contended resource.
pub open spec fn level(o: Ownership) -> u8 {
    match o {
        Ownership::Owned { priority } => priority,
        Ownership::CoOwned { priority } => priority,
        Ownership::Contended { ceiling } => ceiling,
    }
}

/// One step of the ownership fold: the state after one more prioritized
/// access at priority `p`.
pub open spec fn ownership_step(o: Option<Ownership>, p: u8) -> Option<Ownership> {
    match o {
        None => Some(Ownership::Owned { priority: p }),
        Some(Ownership::Owned { priority: q }) => if q == p {
            Some(Ownership::CoOwned { priority: p })
        } else {
            Some(Ownership::Contended { ceiling: max_u8(q, p) })
        },
        Some(Ownership::CoOwned { priority: q }) => if q == p {
            o
        } else {
            Some(Ownership::Contended { ceiling: max_u8(q, p) })
        },
        Some(Ownership::Contended { ceiling: c }) => if c == p {
            o
        } else {
            Some(Ownership::Contended { ceiling: max_u8(c, p) })
        },
    }
}

/// The ownership state after the whole sequence `ps` of prioritized
/// accesses; `None` when no prioritized access has happened.
pub open spec fn ownership_of(ps: Seq<u8>) -> Option<Ownership>
    decreases ps.len(),
{
    if ps.len() == 0 {
        None
    } else {
        ownership_step(ownership_of(ps.drop_last()), ps.last())
    }
}

/// The priorities of the prioritized accesses to resource `r`, in
/// enumeration order.
pub open spec fn access_prios(accs: Seq<Access>, r: usize) -> Seq<u8>
    decreases accs.len(),
{
    if accs.len() == 0 {
        Seq::empty()
    } else {
        let rest = access_prios(accs.drop_last(), r);
        match accs.last().priority {
            Some(p) => if accs.last().resource == r {
                rest.push(p)
            } else {
                rest
            },
            None => rest,
        }
    }
}

/// What `Ownership::needs_lock` returns: a lock is needed exactly for a
/// contended resource accessed below its ceiling.
pub open spec fn spec_needs_lock(o: Ownership, priority: u8) -> bool {
    match o {
        Ownership::Contended { ceiling } => priority < ceiling,
        _ => false,
    }
}

/// The largest priority in a non-empty sequence.
pub open spec fn max_prio(ps: Seq<u8>) -> u8
    recommends
        ps.len() > 0,
    decreases ps.len(),
{
    if ps.len() <= 1 {
        ps[0]
    } else {
        max_u8(max_prio(ps.drop_last()), ps.last())
    }
}

/// Whether every priority in the sequence equals the first.
pub open spec fn all_same(ps: Seq<u8>) -> bool {
    forall|i: int| 0 <= i < ps.len() ==> #[trigger] ps[i] == ps[0]
}

impl Ownership {
    /// Whether a context running at `priority` must take a priority
    /// raising critical section to access this resource: only a
    /// contended resource accessed below its ceiling needs one;
    /// accessing exactly at the ceiling is already preemption-safe.
    pub fn needs_lock(&self, priority: u8) -> (r: bool)
        ensures
            r == spec_needs_lock(*self, priority),
    {
        match self {
            Ownership::Owned { .. } | Ownership::CoOwned { .. } => false,
            Ownership::Contended { ceiling } => priority < *ceiling,
        }
    }

    /// Whether this resource is exclusively owned.
    pub fn is_owned(&self) -> (r: bool)
        ensures
            r == (*self is Owned),
    {
        match self {
            Ownership::Owned { .. } => true,
            _ => false,
        }
    }
}

impl Location {
    /// The core the resource is located on.
    pub fn core_id(&self) -> (r: Option<u8>)
        ensures
            match *self {
                Location::Owned { core } => r == Some(core),
            },
    {
        match *self {
            Location::Owned { core } => Some(core),
        }
    }
}

/// The maximum of a non-empty priority sequence is one of its elements
/// and bounds all of them.
pub proof fn lemma_max_prio_props(ps: Seq<u8>)
    requires
        ps.len() > 0,
    ensures
        ps.contains(max_prio(ps)),
        forall|i: int| 0 <= i < ps.len() ==> ps[i] <= max_prio(ps),
    decreases ps.len(),
{
    if ps.len() == 1 {
        assert(ps.contains(max_prio(ps))) by {
            assert(ps[0] == max_prio(ps));
        }
        assert(forall|i: int| 0 <= i < ps.len() ==> ps[i] <= max_prio(ps));
    } else {
        let s0 = ps.drop_last();
        lemma_max_prio_props(s0);
        if max_prio(ps) == ps.last() {
            assert(ps[ps.len() - 1] == max_prio(ps));
        } else {
            let k = choose|k: int| 0 <= k < s0.len() && s0[k] == max_prio(s0);
            assert(ps[k] == max_prio(ps));
        }
        assert forall|i: int| 0 <= i < ps.len() implies ps[i] <= max_prio(ps) by {
            if i < s0.len() {
                assert(ps[i] == s0[i] && s0[i] <= max_prio(s0));
            }
        }
    }
}

/// A priority sequence whose elements all agree has its first element as
/// maximum.
pub proof fn lemma_max_prio_all_same(ps: Seq<u8>)
    requires
        ps.len() > 0,
        all_same(ps),
    ensures
        max_prio(ps) == ps[0],
    decreases ps.len(),
{
    if ps.len() > 1 {
        let s0 = ps.drop_last();
        assert(all_same(s0));
        lemma_max_prio_all_same(s0);
    }
}

/// Closed form of the ownership fold: one prioritized access makes a
/// resource owned, several at one priority make it co-owned, and two or
/// more distinct priorities make it contended with the maximum as
/// ceiling.
pub proof fn lemma_ownership_closed_form(ps: Seq<u8>)
    ensures
        ps.len() == 0 ==> ownership_of(ps) is None,
        ps.len() == 1 ==> ownership_of(ps) == Some(Ownership::Owned { priority: ps[0] }),
        ps.len() >= 2 && all_same(ps) ==> ownership_of(ps) == Some(
            Ownership::CoOwned { priority: ps[0] },
        ),
        !all_same(ps) ==> ownership_of(ps) == Some(
            Ownership::Contended { ceiling: max_prio(ps) },
        ),
    decreases ps.len(),
{
    if ps.len() == 0 {
        assert(all_same(ps));
    } else if ps.len() == 1 {
        assert(all_same(ps));
        assert(ownership_of(ps.drop_last()) is None);
    } else {
        let s0 = ps.drop_last();
        let a = ps.last();
        lemma_ownership_closed_form(s0);
        assert(s0[0] == ps[0]);
        if all_same(s0) && a == s0[0] {
            assert forall|i: int| 0 <= i < ps.len() implies #[trigger] ps[i] == ps[0] by {
                if i < s0.len() {
                    assert(ps[i] == s0[i] && s0[i] == s0[0]);
                } else {
                    assert(ps[i] == a);
                }
            }
        } else if all_same(s0) {
            // a differs from the single recorded priority: the resource
            // becomes contended at the running maximum.
            assert(!all_same(ps)) by {
                assert(ps[ps.len() - 1] == a && ps[0] == s0[0]);
            }
            lemma_max_prio_all_same(s0);
            if s0.len() == 1 {
                assert(ownership_of(ps) == Some(Ownership::Contended { ceiling: max_u8(s0[0], a) }));
            } else {
                assert(ownership_of(ps) == Some(Ownership::Contended { ceiling: max_u8(s0[0], a) }));
            }
            assert(max_prio(ps) == max_u8(max_prio(s0), a));
        } else {
            assert(!all_same(ps)) by {
                let k = choose|k: int| 0 <= k < s0.len() && #[trigger] s0[k] != s0[0];
                assert(ps[k] == s0[k] && ps[0] == s0[0]);
            }
            assert(ownership_of(s0) == Some(Ownership::Contended { ceiling: max_prio(s0) }));
            assert(max_prio(ps) == max_u8(max_prio(s0), a));
        }
    }
}

/// Law: the level on record never lies below an access priority that
/// produced it — an owned or co-owned resource records exactly its one
/// priority, and a contended ceiling dominates every access. A context
/// therefore never has to lower itself, and accessing exactly at the
/// ceiling needs no lock.
pub proof fn lemma_ceiling_dominates(ps: Seq<u8>, k: int)
    requires
        0 <= k < ps.len(),
    ensures
        ownership_of(ps) is Some,
        ps[k] <= level(ownership_of(ps)->Some_0),
{
    lemma_ownership_closed_form(ps);
    lemma_max_prio_props(ps);
    if all_same(ps) {
        assert(ps[k] == ps[0]);
    }
}

/// Law: a resource reached by exactly one prioritized access is owned by
/// that access's priority, and no priority ever needs a lock for it.
pub proof fn lemma_sole_access_owned(ps: Seq<u8>)
    requires
        ps.len() == 1,
    ensures
        ownership_of(ps) == Some(Ownership::Owned { priority: ps[0] }),
        forall|p: u8| !spec_needs_lock(ownership_of(ps)->Some_0, p),
{
    lemma_ownership_closed_form(ps);
}

/// Law: a resource accessed by two contexts at one common priority and
/// by nothing else is co-owned, and no priority ever needs a lock for
/// it.
pub proof fn lemma_two_equal_accesses_co_owned(ps: Seq<u8>)
    requires
        ps.len() == 2,
        ps[0] == ps[1],
    ensures
        ownership_of(ps) == Some(Ownership::CoOwned { priority: ps[0] }),
        forall|p: u8| !spec_needs_lock(ownership_of(ps)->Some_0, p),
{
    assert(all_same(ps));
    lemma_ownership_closed_form(ps);
}

/// Law: a resource accessed at exactly the priorities 2, 5 and 7 is
/// contended with ceiling 7; accesses at 2 and 5 need a lock, an access
/// at 7 does not.
pub proof fn lemma_three_priorities_contended(ps: Seq<u8>)
    requires
        ps.contains(2u8),
        ps.contains(5u8),
        ps.contains(7u8),
        forall|i: int| 0 <= i < ps.len() ==> (ps[i] == 2u8 || ps[i] == 5u8 || ps[i] == 7u8),
    ensures
        ownership_of(ps) == Some(Ownership::Contended { ceiling: 7u8 }),
        spec_needs_lock(ownership_of(ps)->Some_0, 2u8),
        spec_needs_lock(ownership_of(ps)->Some_0, 5u8),
        !spec_needs_lock(ownership_of(ps)->Some_0, 7u8),
{
    let i2 = choose|i: int| 0 <= i < ps.len() && ps[i] == 2u8;
    let i7 = choose|i: int| 0 <= i < ps.len() && ps[i] == 7u8;
    assert(!all_same(ps));
    lemma_ownership_closed_form(ps);
    lemma_max_prio_props(ps);
    assert(max_prio(ps) == 7u8) by {
        assert(ps[i7] <= max_prio(ps));
        let k = choose|k: int| 0 <= k < ps.len() && ps[k] == max_prio(ps);
        assert(ps[k] == 2u8 || ps[k] == 5u8 || ps[k] == 7u8);
    }
}

} // verus!
