//! Late-resource assignment and cross-core initialization barriers.
//!
//! Every init routine that lists an explicit late subset takes exactly
//! that subset out of the late-resource pool; at most one init routine
//! may omit an explicit list, and it receives everything left over. A
//! task that uses a late resource initialized by a different core needs
//! a one-shot startup barrier towards that core.

use vstd::prelude::*;

use crate::ast::App;
use crate::sets::{contains_usize, copy_usizes, insert_unique_u8, lemma_add_unique_contains,
    lemma_add_unique_no_duplicates};

verus! {

/// One core's share of the late resources: the subset its init routine
/// must produce.
#[derive(Clone, Debug)]
pub struct LateAssignment {
    /// The initializing core.
    pub core: u8,
    /// Identifiers of the late resources that core produces.
    pub resources: Vec<usize>,
}

/// Whether late resource `r` is assigned to the init routine of core
/// `c`: claimed explicitly by that core's init, or left unclaimed while
/// that core's init is the one implicit claimant.
pub open spec fn assigned_to(app: App, r: usize, c: u8) -> bool {
    app.is_late(r) && ((exists|i: int|
        #[trigger] app.init_claims(i, r) && app.inits@[i].core == c) || (!app.explicitly_claimed(r)
        && exists|i: int| #[trigger] app.implicit_claimant(i) && app.inits@[i].core == c))
}

/// Whether the assignment list `s` gives resource `r` to core `c`.
pub open spec fn assignment_has(s: Seq<LateAssignment>, c: u8, r: usize) -> bool {
    exists|k: int| 0 <= k < s.len() && (#[trigger] s[k]).core == c && s[k].resources@.contains(r)
}

/// Whether access `i` forces a startup barrier of its core towards the
/// initializing core `ini`: a prioritized access, from another core, to
/// a resource that `ini` initializes late.
pub open spec fn barrier_contribution(app: App, i: int, recv: u8, ini: u8) -> bool {
    let a = app.resource_accesses@[i];
    &&& a.core == recv
    &&& a.priority is Some
    &&& ini != recv
    &&& assigned_to(app, a.resource, ini)
}

/// Whether core `recv` must wait, before its tasks may run, until core
/// `ini` has produced its late resources.
pub open spec fn barrier_required(app: App, recv: u8, ini: u8) -> bool {
    exists|i: int|
        0 <= i < app.resource_accesses@.len() && #[trigger] barrier_contribution(
            app,
            i,
            recv,
            ini,
        )
}

/// Whether some init routine claims a late subset explicitly — used to
/// walk the pool of unclaimed late resources.
fn claimed_explicitly(app: &App, r: usize) -> (b: bool)
    ensures
        b == app.explicitly_claimed(r),
{
    let mut i: usize = 0;
    while i < app.inits.len()
        invariant
            i <= app.inits@.len(),
            forall|k: int| 0 <= k < i ==> !app.init_claims(k, r),
        decreases app.inits@.len() - i,
    {
        if contains_usize(&app.inits[i].late, r) {
            proof {
                assert(app.init_claims(i as int, r));
            }
            return true;
        }
        i = i + 1;
    }
    proof {
        if app.explicitly_claimed(r) {
            let k = choose|k: int| #[trigger] app.init_claims(k, r);
            assert(!app.init_claims(k, r));
        }
    }
    false
}

/// Whether any late resource is declared.
pub(crate) fn any_late(app: &App) -> (b: bool)
    ensures
        b == app.has_late(),
{
    let mut r: usize = 0;
    while r < app.resources.len()
        invariant
            r <= app.resources@.len(),
            forall|k: usize| k < r ==> !app.is_late(k),
        decreases app.resources@.len() - r,
    {
        if app.resources[r].late {
            proof {
                assert(app.is_late(r));
            }
            return true;
        }
        r = r + 1;
    }
    proof {
        if app.has_late() {
            let k = choose|k: usize| app.is_late(k);
            assert(!app.is_late(k));
        }
    }
    false
}

/// Partitions the late resources over the init routines: each explicit
/// late list is honoured as declared, and the one init routine without
/// an explicit list, if any, receives every late resource left
/// unclaimed (possibly none). Without late resources the assignment is
/// empty.
///
/// Entries appear in init declaration order — ascending by core — each
/// subset duplicate-free, and resource `r` is listed under core `c`
/// exactly when `assigned_to` says so.
pub fn assign_late_resources(app: &App) -> (r: Vec<LateAssignment>)
    requires
        app.wf(),
        app.has_late() ==> app.at_most_one_implicit(),
    ensures
        forall|k: int| 0 <= k < r@.len() ==> (#[trigger] r@[k]).resources@.no_duplicates(),
        forall|k1: int, k2: int|
            0 <= k1 < k2 < r@.len() ==> (#[trigger] r@[k1]).core != (#[trigger] r@[k2]).core,
        forall|k: int| 0 <= k < r@.len() ==> (#[trigger] r@[k]).core < app.cores,
        forall|c: u8, rr: usize| assignment_has(r@, c, rr) <==> assigned_to(*app, rr, c),
        !app.has_late() ==> r@.len() == 0,
{
    let mut out: Vec<LateAssignment> = Vec::new();
    if !any_late(app) {
        proof {
            assert forall|c: u8, rr: usize| assignment_has(out@, c, rr) <==> assigned_to(
                *app,
                rr,
                c,
            ) by {
                if assignment_has(out@, c, rr) {
                    let k = choose|k: int|
                        0 <= k < out@.len() && (#[trigger] out@[k]).core == c
                            && out@[k].resources@.contains(rr);
                }
                if assigned_to(*app, rr, c) {
                    assert(app.is_late(rr));
                }
            }
        }
        return out;
    }

    proof {
        assert(app.at_most_one_implicit());
    }

    // The pool: late resources no init routine claims explicitly, in
    // ascending identifier order.
    let mut pool: Vec<usize> = Vec::new();
    let mut rr: usize = 0;
    while rr < app.resources.len()
        invariant
            rr <= app.resources@.len(),
            forall|x: usize|
                pool@.contains(x) <==> x < rr && app.is_late(x) && !app.explicitly_claimed(x),
            forall|j: int, k: int| 0 <= j < k < pool@.len() ==> pool@[j] < pool@[k],
            forall|j: int| 0 <= j < pool@.len() ==> pool@[j] < rr,
        decreases app.resources@.len() - rr,
    {
        if app.resources[rr].late && !claimed_explicitly(app, rr) {
            let ghost before = pool@;
            pool.push(rr);
            proof {
                assert forall|x: usize| pool@.contains(x) <==> (x < rr + 1 && app.is_late(x)
                    && !app.explicitly_claimed(x)) by {
                    assert(pool@[pool@.len() - 1] == rr);
                    if pool@.contains(x) && x != rr {
                        let k = choose|k: int| 0 <= k < pool@.len() && pool@[k] == x;
                        assert(before[k] == x);
                        assert(before.contains(x));
                    }
                    if x == rr {
                        assert(pool@.contains(x));
                    }
                    if before.contains(x) {
                        let k = choose|k: int| 0 <= k < before.len() && before[k] == x;
                        assert(pool@[k] == x);
                    }
                }
            }
        }
        rr = rr + 1;
    }
    proof {
        assert forall|j: int, k: int|
            0 <= j < pool@.len() && 0 <= k < pool@.len() && j != k implies pool@[j] != pool@[k] by {
        }
        assert(pool@.no_duplicates());
    }

    // Hand each init routine its share, in declaration order.
    let mut pool_left = Some(pool);
    let mut i: usize = 0;
    while i < app.inits.len()
        invariant
            i <= app.inits@.len(),
            app.wf(),
            app.at_most_one_implicit(),
            pool_left is None <==> exists|k: int| 0 <= k < i && #[trigger] app.implicit_claimant(k),
            match pool_left {
                Some(p) => forall|x: usize|
                    p@.contains(x) <==> (app.is_late(x) && !app.explicitly_claimed(x)),
                None => true,
            },
            pool_left is Some ==> pool_left->0@.no_duplicates(),
            forall|k: int| 0 <= k < out@.len() ==> (#[trigger] out@[k]).resources@.no_duplicates(),
            forall|k: int|
                0 <= k < out@.len() ==> exists|m: int|
                    0 <= m < i && (#[trigger] out@[k]).core == app.inits@[m].core,
            forall|k1: int, k2: int|
                0 <= k1 < k2 < out@.len() ==> (#[trigger] out@[k1]).core
                    != (#[trigger] out@[k2]).core,
            forall|c: u8, x: usize|
                assignment_has(out@, c, x) <==> (app.is_late(x) && ((exists|m: int|
                    0 <= m < i && #[trigger] app.init_claims(m, x) && app.inits@[m].core == c) || (
                !app.explicitly_claimed(x) && exists|m: int|
                    0 <= m < i && #[trigger] app.implicit_claimant(m) && app.inits@[m].core == c))),
        decreases app.inits@.len() - i,
    {
        let ghost out_before = out@;
        let init = &app.inits[i];
        let mut pushed = false;
        if init.late.len() > 0 {
            out.push(LateAssignment { core: init.core, resources: copy_usizes(&init.late) });
            pushed = true;
            proof {
                let k = out@.len() - 1;
                assert(out@[k].core == init.core);
                assert forall|x: usize| out@[k].resources@.contains(x) implies app.is_late(x)
                    && app.init_claims(i as int, x) by {}
                assert(out@[k].resources@.no_duplicates()) by {
                    assert forall|j1: int, j2: int|
                        0 <= j1 < out@[k].resources@.len() && 0 <= j2 < out@[k].resources@.len()
                            && j1 != j2 implies out@[k].resources@[j1] != out@[k].resources@[j2] by {
                        assert(app.init_late_lists_wf());
                    }
                }
            }
        } else {
            match pool_left {
                Some(_) => {
                    let p = pool_left.take().unwrap();
                    proof {
                        assert(app.implicit_claimant(i as int));
                    }
                    out.push(LateAssignment { core: init.core, resources: p });
                    pushed = true;
                },
                None => {
                    proof {
                        // a second implicit claimant cannot exist
                        let m = choose|m: int|
                            0 <= m < i && #[trigger] app.implicit_claimant(m);
                        assert(app.implicit_claimant(i as int));
                        assert(m == i as int);
                        assert(false);
                    }
                },
            }
        }
        proof {
            if app.inits@[i as int].late@.len() > 0 {
                assert(!app.implicit_claimant(i as int));
            } else {
                assert(app.implicit_claimant(i as int));
            }
            if pushed {
                let k = out@.len() - 1;
                // the new entry's core is fresh: inits are core-ordered
                assert forall|k1: int| 0 <= k1 < k implies out@[k1].core != out@[k].core by {
                    let m = choose|m: int|
                        0 <= m < i && (#[trigger] out@[k1]).core == app.inits@[m].core;
                    assert(app.inits@[m].core < app.inits@[i as int].core);
                }
            }
            assert forall|c: u8, x: usize| assignment_has(out@, c, x) <==> (app.is_late(x) && ((
            exists|m: int|
                0 <= m < i + 1 && #[trigger] app.init_claims(m, x) && app.inits@[m].core == c) || (
            !app.explicitly_claimed(x) && exists|m: int|
                0 <= m < i + 1 && #[trigger] app.implicit_claimant(m) && app.inits@[m].core
                    == c))) by {
                if assignment_has(out@, c, x) {
                    let k = choose|k: int|
                        0 <= k < out@.len() && (#[trigger] out@[k]).core == c
                            && out@[k].resources@.contains(x);
                    if k < out_before.len() {
                        assert(out_before[k] == out@[k]);
                        assert(assignment_has(out_before, c, x));
                    } else {
                        // the entry pushed this round
                        if app.inits@[i as int].late@.len() > 0 {
                            assert(app.init_claims(i as int, x) && app.inits@[i as int].core == c);
                        } else {
                            assert(app.implicit_claimant(i as int));
                        }
                    }
                }
                if app.is_late(x) && exists|m: int|
                    0 <= m < i + 1 && #[trigger] app.init_claims(m, x) && app.inits@[m].core == c {
                    let m = choose|m: int|
                        0 <= m < i + 1 && #[trigger] app.init_claims(m, x) && app.inits@[m].core
                            == c;
                    if m < i {
                        assert(assignment_has(out_before, c, x));
                        let k = choose|k: int|
                            0 <= k < out_before.len() && (#[trigger] out_before[k]).core == c
                                && out_before[k].resources@.contains(x);
                        assert(out@[k] == out_before[k]);
                        assert(assignment_has(out@, c, x));
                    } else {
                        let k = out@.len() - 1;
                        assert(out@[k].core == c && out@[k].resources@.contains(x));
                        assert(assignment_has(out@, c, x));
                    }
                }
                if app.is_late(x) && !app.explicitly_claimed(x) && exists|m: int|
                    0 <= m < i + 1 && #[trigger] app.implicit_claimant(m) && app.inits@[m].core
                        == c {
                    let m = choose|m: int|
                        0 <= m < i + 1 && #[trigger] app.implicit_claimant(m) && app.inits@[m].core
                            == c;
                    if m < i {
                        assert(assignment_has(out_before, c, x));
                        let k = choose|k: int|
                            0 <= k < out_before.len() && (#[trigger] out_before[k]).core == c
                                && out_before[k].resources@.contains(x);
                        assert(out@[k] == out_before[k]);
                        assert(assignment_has(out@, c, x));
                    } else {
                        let k = out@.len() - 1;
                        assert(out@[k].core == c && out@[k].resources@.contains(x));
                        assert(assignment_has(out@, c, x));
                    }
                }
            }
        }
        i = i + 1;
    }
    proof {
        assert forall|k: int| 0 <= k < out@.len() implies (#[trigger] out@[k]).core
            < app.cores by {
            let m = choose|m: int|
                0 <= m < app.inits@.len() && (#[trigger] out@[k]).core == app.inits@[m].core;
            assert(app.inits@[m].core < app.cores);
        }
        assert forall|c: u8, x: usize| assignment_has(out@, c, x) <==> assigned_to(*app, x, c) by {
            if assigned_to(*app, x, c) {
                if exists|m: int| #[trigger] app.init_claims(m, x) && app.inits@[m].core == c {
                    let m = choose|m: int|
                        #[trigger] app.init_claims(m, x) && app.inits@[m].core == c;
                    assert(0 <= m < app.inits@.len());
                }
                if !app.explicitly_claimed(x) && exists|m: int|
                    #[trigger] app.implicit_claimant(m) && app.inits@[m].core == c {
                    let m = choose|m: int|
                        #[trigger] app.implicit_claimant(m) && app.inits@[m].core == c;
                    assert(0 <= m < app.inits@.len());
                }
            }
        }
    }
    out
}

/// Records, per receiving core, the initializer cores it must wait for:
/// `ini` appears under `recv` exactly when some prioritized access on
/// `recv` uses a resource late-initialized on `ini`. Same-core
/// initialization needs no barrier, the core's own startup order
/// already serializes it.
pub fn initialization_barriers(app: &App, late: &Vec<LateAssignment>) -> (r: Vec<Vec<u8>>)
    requires
        app.cores_bounded(),
        forall|c: u8, rr: usize| assignment_has(late@, c, rr) <==> assigned_to(*app, rr, c),
    ensures
        r@.len() == app.cores as int,
        forall|recv: int, ini: u8|
            0 <= recv < app.cores as int ==> (r@[recv]@.contains(ini) <==> barrier_required(
                *app,
                recv as u8,
                ini,
            )),
        forall|recv: int| 0 <= recv < app.cores as int ==> r@[recv]@.no_duplicates(),
{
    let mut barriers: Vec<Vec<u8>> = Vec::new();
    while barriers.len() < app.cores as usize
        invariant
            barriers@.len() <= app.cores as usize,
            forall|c: int| 0 <= c < barriers@.len() ==> barriers@[c]@ =~= Seq::<u8>::empty(),
        decreases app.cores as usize - barriers@.len(),
    {
        barriers.push(Vec::new());
    }

    let ghost accs = app.resource_accesses@;
    let mut i: usize = 0;
    while i < app.resource_accesses.len()
        invariant
            i <= accs.len(),
            accs == app.resource_accesses@,
            app.cores_bounded(),
            forall|c: u8, rr: usize| assignment_has(late@, c, rr) <==> assigned_to(*app, rr, c),
            barriers@.len() == app.cores as int,
            forall|recv: int, ini: u8|
                0 <= recv < app.cores as int ==> (barriers@[recv]@.contains(ini) <==> exists|j: int|
                    0 <= j < i && #[trigger] barrier_contribution(*app, j, recv as u8, ini)),
            forall|recv: int| 0 <= recv < app.cores as int ==> barriers@[recv]@.no_duplicates(),
        decreases accs.len() - i,
    {
        let a = app.resource_accesses[i];
        if a.priority.is_some() {
            let mut k: usize = 0;
            while k < late.len()
                invariant
                    k <= late@.len(),
                    accs == app.resource_accesses@,
                    i < accs.len(),
                    a == accs[i as int],
                    a.priority is Some,
                    app.cores_bounded(),
                    forall|c: u8, rr: usize|
                        assignment_has(late@, c, rr) <==> assigned_to(*app, rr, c),
                    barriers@.len() == app.cores as int,
                    forall|recv: int, ini: u8|
                        0 <= recv < app.cores as int ==> (barriers@[recv]@.contains(ini) <==> ((
                        exists|j: int|
                            0 <= j < i && #[trigger] barrier_contribution(*app, j, recv as u8, ini))
                            || (recv == a.core as int && exists|m: int|
                            0 <= m < k && (#[trigger] late@[m]).core == ini && ini != a.core
                                && late@[m].resources@.contains(a.resource)))),
                    forall|recv: int| 0 <= recv < app.cores as int ==> barriers@[recv]@.no_duplicates(),
                decreases late@.len() - k,
            {
                let entry = &late[k];
                if entry.core != a.core && contains_usize(&entry.resources, a.resource) {
                    let slot = &mut barriers[a.core as usize];
                    let ghost inner = slot@;
                    insert_unique_u8(slot, entry.core);
                    proof {
                        lemma_add_unique_no_duplicates(inner, entry.core);
                        assert forall|recv: int, ini: u8|
                            0 <= recv < app.cores as int implies (barriers@[recv]@.contains(ini)
                            <==> ((exists|j: int|
                            0 <= j < i && #[trigger] barrier_contribution(*app, j, recv as u8, ini))
                            || (recv == a.core as int && exists|m: int|
                            0 <= m < k + 1 && (#[trigger] late@[m]).core == ini && ini != a.core
                                && late@[m].resources@.contains(a.resource)))) by {
                            lemma_add_unique_contains(inner, entry.core, ini);
                            if recv == a.core as int && ini == entry.core {
                                assert((#[trigger] late@[k as int]).core == ini);
                            }
                        }
                    }
                }
                k = k + 1;
            }
        }
        proof {
            assert forall|recv: int, ini: u8|
                0 <= recv < app.cores as int implies (barriers@[recv]@.contains(ini) <==> exists|
                j: int,
            |
                0 <= j < i + 1 && #[trigger] barrier_contribution(*app, j, recv as u8, ini)) by {
                if barriers@[recv]@.contains(ini) {
                    if exists|j: int|
                        0 <= j < i && #[trigger] barrier_contribution(*app, j, recv as u8, ini) {
                    } else {
                        // recorded in this round: the entry found gives
                        // the assignment, so access i contributes
                        match a.priority {
                            Some(_) => {
                                let m = choose|m: int|
                                    0 <= m < late@.len() && (#[trigger] late@[m]).core == ini && ini
                                        != a.core && late@[m].resources@.contains(a.resource);
                                assert(assignment_has(late@, ini, a.resource));
                                assert(barrier_contribution(*app, i as int, recv as u8, ini));
                            },
                            None => {},
                        }
                    }
                } else {
                    if exists|j: int|
                        0 <= j < i + 1 && #[trigger] barrier_contribution(
                            *app,
                            j,
                            recv as u8,
                            ini,
                        ) {
                        let j = choose|j: int|
                            0 <= j < i + 1 && #[trigger] barrier_contribution(
                                *app,
                                j,
                                recv as u8,
                                ini,
                            );
                        if j == i {
                            assert(assigned_to(*app, a.resource, ini));
                            assert(assignment_has(late@, ini, a.resource));
                            let m = choose|m: int|
                                0 <= m < late@.len() && (#[trigger] late@[m]).core == ini
                                    && late@[m].resources@.contains(a.resource);
                            assert(false);
                        }
                    }
                }
            }
        }
        i = i + 1;
    }
    barriers
}

/// Law: the late-resource assignment partitions the late set. With at
/// most one implicit claimant, and either an implicit claimant present
/// or every late resource claimed explicitly, every late resource is
/// assigned to exactly one core, and only late resources are assigned
/// at all.
pub proof fn lemma_late_partition(app: App)
    requires
        app.wf(),
        app.at_most_one_implicit(),
        (exists|i: int| #[trigger] app.implicit_claimant(i)) || (forall|r: usize|
            app.is_late(r) ==> app.explicitly_claimed(r)),
    ensures
        forall|r: usize| app.is_late(r) ==> exists|c: u8| assigned_to(app, r, c),
        forall|r: usize, c1: u8, c2: u8|
            assigned_to(app, r, c1) && assigned_to(app, r, c2) ==> c1 == c2,
        forall|r: usize, c: u8| assigned_to(app, r, c) ==> app.is_late(r),
{
    assert forall|r: usize| app.is_late(r) implies exists|c: u8| assigned_to(app, r, c) by {
        if app.explicitly_claimed(r) {
            let i = choose|i: int| #[trigger] app.init_claims(i, r);
            let c = app.inits@[i].core;
            assert(assigned_to(app, r, c));
        } else {
            let i = choose|i: int| #[trigger] app.implicit_claimant(i);
            let c = app.inits@[i].core;
            assert(assigned_to(app, r, c));
        }
    }
    assert forall|r: usize, c1: u8, c2: u8|
        assigned_to(app, r, c1) && assigned_to(app, r, c2) implies c1 == c2 by {
        if app.explicitly_claimed(r) {
            let i1 = choose|i: int| #[trigger] app.init_claims(i, r) && app.inits@[i].core == c1;
            let i2 = choose|i: int| #[trigger] app.init_claims(i, r) && app.inits@[i].core == c2;
            assert(i1 == i2);
        } else {
            let i1 = choose|i: int|
                #[trigger] app.implicit_claimant(i) && app.inits@[i].core == c1;
            let i2 = choose|i: int|
                #[trigger] app.implicit_claimant(i) && app.inits@[i].core == c2;
            assert(i1 == i2);
        }
    }
}

/// Law: a prioritized access from a core other than the one that
/// initializes the late resource it touches forces an initialization
/// barrier from the accessing core towards the initializer.
pub proof fn lemma_cross_core_barrier(app: App, i: int, ini: u8)
    requires
        0 <= i < app.resource_accesses@.len(),
        app.resource_accesses@[i].priority is Some,
        assigned_to(app, app.resource_accesses@[i].resource, ini),
        ini != app.resource_accesses@[i].core,
    ensures
        barrier_required(app, app.resource_accesses@[i].core, ini),
{
    assert(barrier_contribution(app, i, app.resource_accesses@[i].core, ini));
}

/// Law: when every access touches only resources initialized on its own
/// core, no initialization barrier exists at all.
pub proof fn lemma_same_core_no_barrier(app: App)
    requires
        forall|i: int, c: u8|
            0 <= i < app.resource_accesses@.len() && #[trigger] assigned_to(
                app,
                app.resource_accesses@[i].resource,
                c,
            ) ==> c == app.resource_accesses@[i].core,
    ensures
        forall|recv: u8, ini: u8| !barrier_required(app, recv, ini),
{
    assert forall|recv: u8, ini: u8| !barrier_required(app, recv, ini) by {
        if barrier_required(app, recv, ini) {
            let i = choose|i: int|
                0 <= i < app.resource_accesses@.len() && #[trigger] barrier_contribution(
                    app,
                    i,
                    recv,
                    ini,
                );
            assert(assigned_to(app, app.resource_accesses@[i].resource, ini));
            assert(false);
        }
    }
}

} // verus!
