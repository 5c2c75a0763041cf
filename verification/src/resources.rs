//! The fold over the enumerated resource accesses: it derives each used
//! resource's location and ownership and collects the per-core set of
//! types that must tolerate concurrent access.

use vstd::prelude::*;

use crate::ast::{Access, App};
use crate::ownership::{access_prios, level, max_u8, ownership_of, ownership_step, Location,
    Ownership};
use crate::sets::insert_unique_u32;

verus! {

/// The location derived for resource `r` from the access prefix `accs`:
/// the core of the last access to it, or `None` for a resource that is
/// never accessed (a dead resource, dropped from code generation).
/// A well-formed model accesses one resource from one core only; this
/// fold makes the record explicit — the last access on record decides —
/// rather than hiding the overwrite.
pub open spec fn location_of(accs: Seq<Access>, r: usize) -> Option<Location>
    decreases accs.len(),
{
    if accs.len() == 0 {
        None
    } else if accs.last().resource == r {
        Some(Location::Owned { core: accs.last().core })
    } else {
        location_of(accs.drop_last(), r)
    }
}

/// Whether access `i` finds its resource already owned at a level other
/// than its own priority, and so turns (or keeps) the resource
/// contended.
pub open spec fn contention_trigger(app: App, i: int) -> bool {
    let a = app.resource_accesses@[i];
    match a.priority {
        Some(p) => match ownership_of(access_prios(app.resource_accesses@.take(i), a.resource)) {
            Some(o) => level(o) != p,
            None => false,
        },
        None => false,
    }
}

/// Whether access `i` demands concurrent-access safety of type `ty` on
/// core `c`: a shared access that meets contention may be read while a
/// higher-priority exclusive section is possible.
pub open spec fn sync_contribution(app: App, i: int, c: u8, ty: u32) -> bool {
    let a = app.resource_accesses@[i];
    &&& contention_trigger(app, i)
    &&& a.mode is Shared
    &&& a.core == c
    &&& app.declared(a.resource)
    &&& app.resources@[a.resource as int].ty == ty
}

/// Whether type `ty` must be safe to access concurrently on core `c`.
pub open spec fn sync_required(app: App, c: u8, ty: u32) -> bool {
    exists|i: int|
        0 <= i < app.resource_accesses@.len() && #[trigger] sync_contribution(app, i, c, ty)
}

/// Appending one access extends the priority trace of its resource (and
/// of no other) by its priority, when it has one.
pub proof fn lemma_access_prios_push(s: Seq<Access>, a: Access, r: usize)
    ensures
        access_prios(s.push(a), r) == (match a.priority {
            Some(p) => if a.resource == r {
                access_prios(s, r).push(p)
            } else {
                access_prios(s, r)
            },
            None => access_prios(s, r),
        }),
{
    assert(s.push(a).drop_last() =~= s);
    assert(s.push(a).last() == a);
}

/// Appending one access relocates its resource and no other.
pub proof fn lemma_location_push(s: Seq<Access>, a: Access, r: usize)
    ensures
        location_of(s.push(a), r) == (if a.resource == r {
            Some(Location::Owned { core: a.core })
        } else {
            location_of(s, r)
        }),
{
    assert(s.push(a).drop_last() =~= s);
    assert(s.push(a).last() == a);
}

/// Derives, in one pass over the enumerated accesses, the location and
/// the ownership of every resource and the per-core concurrent-access
/// safety sets.
///
/// The result triple holds, in order: the locations and the ownerships,
/// both indexed by resource identifier (`None` marks a dead or never
/// prioritized resource), and the safety sets indexed by core, each a
/// duplicate-free list in first-demand order.
pub fn analyze_resources(app: &App) -> (r: (Vec<Option<Location>>, Vec<Option<Ownership>>, Vec<
    Vec<u32>,
>))
    requires
        app.accesses_declared(),
        app.cores_bounded(),
    ensures
        r.0@.len() == app.resources@.len(),
        forall|k: int|
            0 <= k < app.resources@.len() ==> r.0@[k] == location_of(
                app.resource_accesses@,
                k as usize,
            ),
        r.1@.len() == app.resources@.len(),
        forall|k: int|
            0 <= k < app.resources@.len() ==> r.1@[k] == ownership_of(
                access_prios(app.resource_accesses@, k as usize),
            ),
        r.2@.len() == app.cores as int,
        forall|c: int, ty: u32|
            0 <= c < app.cores as int ==> (r.2@[c]@.contains(ty) <==> sync_required(
                *app,
                c as u8,
                ty,
            )),
        forall|c: int| 0 <= c < app.cores as int ==> r.2@[c]@.no_duplicates(),
{
    let n = app.resources.len();
    let mut locations: Vec<Option<Location>> = Vec::new();
    while locations.len() < n
        invariant
            locations@.len() <= n,
            forall|k: int| 0 <= k < locations@.len() ==> locations@[k] is None,
        decreases n - locations@.len(),
    {
        locations.push(None);
    }
    let mut ownerships: Vec<Option<Ownership>> = Vec::new();
    while ownerships.len() < n
        invariant
            ownerships@.len() <= n,
            forall|k: int| 0 <= k < ownerships@.len() ==> ownerships@[k] is None,
        decreases n - ownerships@.len(),
    {
        ownerships.push(None);
    }
    let mut sync_types: Vec<Vec<u32>> = Vec::new();
    while sync_types.len() < app.cores as usize
        invariant
            sync_types@.len() <= app.cores as usize,
            forall|c: int| 0 <= c < sync_types@.len() ==> sync_types@[c]@ =~= Seq::<u32>::empty(),
        decreases app.cores as usize - sync_types@.len(),
    {
        sync_types.push(Vec::new());
    }

    let ghost accs = app.resource_accesses@;
    let mut i: usize = 0;
    while i < app.resource_accesses.len()
        invariant
            i <= accs.len(),
            accs == app.resource_accesses@,
            app.accesses_declared(),
            app.cores_bounded(),
            n == app.resources@.len(),
            locations@.len() == n,
            ownerships@.len() == n,
            sync_types@.len() == app.cores as int,
            forall|k: int|
                0 <= k < n ==> locations@[k] == location_of(accs.take(i as int), k as usize),
            forall|k: int|
                0 <= k < n ==> ownerships@[k] == ownership_of(
                    access_prios(accs.take(i as int), k as usize),
                ),
            forall|c: int, ty: u32|
                0 <= c < app.cores as int ==> (sync_types@[c]@.contains(ty) <==> exists|j: int|
                    0 <= j < i as int && #[trigger] sync_contribution(*app, j, c as u8, ty)),
            forall|c: int| 0 <= c < app.cores as int ==> sync_types@[c]@.no_duplicates(),
        decreases accs.len() - i,
    {
        let ghost prefix = accs.take(i as int);
        let a = app.resource_accesses[i];
        proof {
            accs.lemma_take_succ_push(i as int);
            assert(accs.take(i as int + 1) == prefix.push(a));
        }

        // Location: the access's core takes the resource over.
        locations.set(a.resource, Some(Location::Owned { core: a.core }));
        proof {
            assert forall|k: int| 0 <= k < n implies locations@[k] == location_of(
                accs.take(i as int + 1),
                k as usize,
            ) by {
                lemma_location_push(prefix, a, k as usize);
            }
        }

        // Ownership: fold the access's priority in, when it has one.
        let ghost before = ownerships@;
        match a.priority {
            Some(p) => {
                match ownerships[a.resource] {
                    None => {
                        ownerships.set(a.resource, Some(Ownership::Owned { priority: p }));
                    },
                    Some(o) => {
                        let lvl = match o {
                            Ownership::Owned { priority } => priority,
                            Ownership::CoOwned { priority } => priority,
                            Ownership::Contended { ceiling } => ceiling,
                        };
                        if lvl != p {
                            let ceiling = if lvl >= p {
                                lvl
                            } else {
                                p
                            };
                            ownerships.set(a.resource, Some(Ownership::Contended { ceiling }));
                            assert(ownerships@[a.resource as int] == ownership_step(
                                before[a.resource as int],
                                p,
                            ));
                            // Contended shared access: the type must
                            // tolerate concurrent readers.
                            if a.mode.is_shared() {
                                let ty = app.resources[a.resource].ty;
                                let slot = &mut sync_types[a.core as usize];
                                let ghost inner = slot@;
                                insert_unique_u32(slot, ty);
                                proof {
                                    crate::sets::lemma_add_unique_no_duplicates(inner, ty);
                                    assert(sync_contribution(*app, i as int, a.core, ty));
                                    assert forall|c: int, t: u32|
                                        0 <= c < app.cores as int implies (
                                    sync_types@[c]@.contains(t) <==> exists|j: int|
                                        0 <= j < i as int + 1 && #[trigger] sync_contribution(
                                            *app,
                                            j,
                                            c as u8,
                                            t,
                                        )) by {
                                        crate::sets::lemma_add_unique_contains(inner, ty, t);
                                        if c == a.core as int {
                                            if sync_types@[c]@.contains(t) {
                                                if t == ty {
                                                    assert(sync_contribution(
                                                        *app,
                                                        i as int,
                                                        c as u8,
                                                        t,
                                                    ));
                                                }
                                            }
                                        }
                                    }
                                }
                            }
                        } else {
                            match o {
                                Ownership::Owned { priority } => {
                                    ownerships.set(
                                        a.resource,
                                        Some(Ownership::CoOwned { priority }),
                                    );
                                },
                                _ => {},
                            }
                        }
                    },
                }
                proof {
                    assert(ownerships@[a.resource as int] == ownership_step(
                        before[a.resource as int],
                        p,
                    ));
                }
            },
            None => {},
        }
        proof {
            assert forall|k: int| 0 <= k < n implies ownerships@[k] == ownership_of(
                access_prios(accs.take(i as int + 1), k as usize),
            ) by {
                lemma_access_prios_push(prefix, a, k as usize);
                match a.priority {
                    Some(p) => {
                        if a.resource == k as usize {
                            let ps = access_prios(prefix, k as usize).push(p);
                            assert(ps.drop_last() =~= access_prios(prefix, k as usize));
                        } else {
                            assert(ownerships@[k] == before[k]);
                        }
                    },
                    None => {},
                }
            }
            // An access without a priority, or one that leaves ownership
            // alone, changes no sync set.
            assert forall|c: int, t: u32| 0 <= c < app.cores as int implies (
            sync_types@[c]@.contains(t) <==> exists|j: int|
                0 <= j < i as int + 1 && #[trigger] sync_contribution(*app, j, c as u8, t)) by {
                if sync_types@[c]@.contains(t) {
                } else {
                    if exists|j: int|
                        0 <= j < i as int + 1 && #[trigger] sync_contribution(*app, j, c as u8, t) {
                        let j = choose|j: int|
                            0 <= j < i as int + 1 && #[trigger] sync_contribution(
                                *app,
                                j,
                                c as u8,
                                t,
                            );
                        assert(j < i as int);
                    }
                }
            }
        }
        i = i + 1;
    }
    proof {
        assert(accs.take(accs.len() as int) =~= accs);
    }
    (locations, ownerships, sync_types)
}

} // verus!
