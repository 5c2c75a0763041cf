//! Transfer-safety propagation: which data types must be safe to hand
//! from one execution context (priority level, core) to another.
//!
//! Three additive rules demand the capability: a late resource whose
//! owner is not the idle context (the priority-0 initializer hands the
//! value up), a resource an init routine asks to use whose owner is not
//! the idle context, and the payload of any spawned or scheduled task
//! whose call site runs on another core or at another priority — a call
//! from init always crosses, since init has no priority at all.

use vstd::prelude::*;

use crate::ast::{App, Call, SoftwareTask};
use crate::late::{assigned_to, assignment_has, LateAssignment};
use crate::ownership::{access_prios, ownership_of, Ownership};
use crate::sets::{insert_unique_u32, lemma_add_unique_contains, lemma_add_unique_no_duplicates,
    lemma_push_contains};

verus! {

/// One pending capability demand: type `ty` must be transfer-safe on
/// core `core`.
#[derive(Clone, Copy, Debug, PartialEq, Eq, Structural)]
pub struct Demand {
    /// The core the demand falls on.
    pub core: u8,
    /// The demanded type's identifier.
    pub ty: u32,
}

/// Whether the derived ownership of resource `r` is anything other than
/// sole ownership by the priority-0 (idle) context, while the resource
/// is owned at all.
pub open spec fn owner_not_idle(app: App, r: usize) -> bool {
    match ownership_of(access_prios(app.resource_accesses@, r)) {
        Some(o) => o != (Ownership::Owned { priority: 0u8 }),
        None => false,
    }
}

/// Whether late resource `r` demands transfer-safety of `ty` on core
/// `c`: `c` initializes it and its owner is not the idle context.
pub open spec fn late_send_contribution(app: App, r: usize, c: u8, ty: u32) -> bool {
    &&& assigned_to(app, r, c)
    &&& owner_not_idle(app, r)
    &&& app.resources@[r as int].ty == ty
}

/// Whether entry `j` of init routine `i`'s resource list demands
/// transfer-safety of `ty` on that init's core `c`.
pub open spec fn init_send_contribution(app: App, i: int, j: int, c: u8, ty: u32) -> bool {
    &&& 0 <= i < app.inits@.len()
    &&& 0 <= j < app.inits@[i].resources@.len()
    &&& app.inits@[i].core == c
    &&& {
        let r = app.inits@[i].resources@[j];
        &&& app.declared(r)
        &&& owner_not_idle(app, r)
        &&& app.resources@[r as int].ty == ty
    }
}

/// Whether a call site crosses an execution-context boundary towards
/// the dispatched task: another core, another priority, or a call from
/// init, which always crosses into a prioritized context.
pub open spec fn call_crosses_context(call: Call, t: SoftwareTask) -> bool {
    match call.priority {
        Some(p) => call.core != t.core || t.priority != p,
        None => true,
    }
}

/// Whether input `j` of the task dispatched by call `k` demands
/// transfer-safety of `ty` on core `c` (the calling and the dispatched
/// core both).
pub open spec fn message_send_contribution(
    calls: Seq<Call>,
    tasks: Seq<SoftwareTask>,
    k: int,
    j: int,
    c: u8,
    ty: u32,
) -> bool {
    &&& 0 <= k < calls.len()
    &&& calls[k].task < tasks.len()
    &&& {
        let t = tasks[calls[k].task as int];
        &&& call_crosses_context(calls[k], t)
        &&& (c == calls[k].core || c == t.core)
        &&& 0 <= j < t.inputs@.len()
        &&& t.inputs@[j] == ty
    }
}

/// Whether type `ty` must be transfer-safe on core `c`, by any of the
/// three rules, over spawn and schedule relationships alike.
pub open spec fn send_required(app: App, c: u8, ty: u32) -> bool {
    ||| exists|r: usize| #[trigger] late_send_contribution(app, r, c, ty)
    ||| exists|i: int, j: int| #[trigger] init_send_contribution(app, i, j, c, ty)
    ||| exists|k: int, j: int|
        #[trigger] message_send_contribution(
            app.spawn_calls@,
            app.software_tasks@,
            k,
            j,
            c,
            ty,
        )
    ||| exists|k: int, j: int|
        #[trigger] message_send_contribution(
            app.schedule_calls@,
            app.software_tasks@,
            k,
            j,
            c,
            ty,
        )
}

/// Collects the late-resource demands, walking the computed assignment.
fn collect_late_demands(app: &App, late: &Vec<LateAssignment>, ownerships: &Vec<Option<Ownership>>)
    -> (r: Vec<Demand>)
    requires
        ownerships@.len() == app.resources@.len(),
        forall|k: int|
            0 <= k < app.resources@.len() ==> ownerships@[k] == ownership_of(
                access_prios(app.resource_accesses@, k as usize),
            ),
        forall|c: u8, rr: usize| assignment_has(late@, c, rr) <==> assigned_to(*app, rr, c),
        forall|k: int| 0 <= k < late@.len() ==> (#[trigger] late@[k]).core < app.cores,
    ensures
        forall|c: u8, ty: u32|
            r@.contains(Demand { core: c, ty }) <==> exists|rr: usize|
                #[trigger] late_send_contribution(*app, rr, c, ty),
        forall|k: int| 0 <= k < r@.len() ==> (#[trigger] r@[k]).core < app.cores,
{
    let mut out: Vec<Demand> = Vec::new();
    let mut m: usize = 0;
    while m < late.len()
        invariant
            m <= late@.len(),
            ownerships@.len() == app.resources@.len(),
            forall|k: int|
                0 <= k < app.resources@.len() ==> ownerships@[k] == ownership_of(
                    access_prios(app.resource_accesses@, k as usize),
                ),
            forall|c: u8, rr: usize| assignment_has(late@, c, rr) <==> assigned_to(*app, rr, c),
            forall|k: int| 0 <= k < late@.len() ==> (#[trigger] late@[k]).core < app.cores,
            forall|c: u8, ty: u32|
                out@.contains(Demand { core: c, ty }) <==> exists|m2: int, j2: int|
                    0 <= m2 < m && #[trigger] entry_gives(late@, *app, m2, j2, c, ty),
            forall|k: int| 0 <= k < out@.len() ==> (#[trigger] out@[k]).core < app.cores,
        decreases late@.len() - m,
    {
        let entry = &late[m];
        let mut j: usize = 0;
        while j < entry.resources.len()
            invariant
                j <= entry.resources@.len(),
                entry == late@[m as int],
                m < late@.len(),
                ownerships@.len() == app.resources@.len(),
                forall|k: int|
                    0 <= k < app.resources@.len() ==> ownerships@[k] == ownership_of(
                        access_prios(app.resource_accesses@, k as usize),
                    ),
                forall|c: u8, rr: usize|
                    assignment_has(late@, c, rr) <==> assigned_to(*app, rr, c),
                forall|k: int| 0 <= k < late@.len() ==> (#[trigger] late@[k]).core < app.cores,
                forall|c: u8, ty: u32|
                    out@.contains(Demand { core: c, ty }) <==> ((exists|m2: int, j2: int|
                        0 <= m2 < m && #[trigger] entry_gives(late@, *app, m2, j2, c, ty)) || (
                    exists|j2: int|
                        0 <= j2 < j && #[trigger] entry_gives(late@, *app, m as int, j2, c, ty))),
                forall|k: int| 0 <= k < out@.len() ==> (#[trigger] out@[k]).core < app.cores,
            decreases entry.resources@.len() - j,
        {
            let rr = entry.resources[j];
            proof {
                assert(assignment_has(late@, entry.core, rr)) by {
                    assert((#[trigger] late@[m as int]).core == entry.core
                        && late@[m as int].resources@.contains(rr)) by {
                        assert(late@[m as int].resources@[j as int] == rr);
                    }
                }
                assert(assigned_to(*app, rr, entry.core));
                assert(rr < app.resources@.len());
            }
            let ghost before = out@;
            let mut hit = false;
            match ownerships[rr] {
                Some(o) => {
                    if o != (Ownership::Owned { priority: 0 }) {
                        out.push(Demand { core: entry.core, ty: app.resources[rr].ty });
                        hit = true;
                    }
                },
                None => {},
            }
            proof {
                assert forall|c: u8, ty: u32| out@.contains(Demand { core: c, ty }) <==> ((exists|
                    m2: int,
                    j2: int,
                |
                    0 <= m2 < m && #[trigger] entry_gives(late@, *app, m2, j2, c, ty)) || (exists|
                    j2: int,
                |
                    0 <= j2 < j + 1 && #[trigger] entry_gives(
                        late@,
                        *app,
                        m as int,
                        j2,
                        c,
                        ty,
                    ))) by {
                    if hit {
                        lemma_push_contains(
                            before,
                            Demand { core: late@[m as int].core, ty: app.resources@[rr as int].ty },
                            Demand { core: c, ty },
                        );
                        if c == late@[m as int].core && ty == app.resources@[rr as int].ty {
                            assert(entry_gives(late@, *app, m as int, j as int, c, ty));
                        }
                    }
                    if exists|j2: int|
                        0 <= j2 < j + 1 && #[trigger] entry_gives(
                            late@,
                            *app,
                            m as int,
                            j2,
                            c,
                            ty,
                        ) && !(exists|j2: int|
                        0 <= j2 < j && #[trigger] entry_gives(late@, *app, m as int, j2, c, ty)) {
                        let j2 = choose|j2: int|
                            0 <= j2 < j + 1 && #[trigger] entry_gives(
                                late@,
                                *app,
                                m as int,
                                j2,
                                c,
                                ty,
                            );
                        assert(j2 == j as int);
                        assert(hit && c == late@[m as int].core && ty
                            == app.resources@[rr as int].ty);
                        assert(out@.contains(Demand { core: c, ty }));
                    }
                }
            }
            j = j + 1;
        }
        proof {
            assert forall|c: u8, ty: u32| out@.contains(Demand { core: c, ty }) <==> exists|
                m2: int,
                j2: int,
            |
                0 <= m2 < m + 1 && #[trigger] entry_gives(late@, *app, m2, j2, c, ty) by {
                if exists|m2: int, j2: int|
                    0 <= m2 < m + 1 && #[trigger] entry_gives(late@, *app, m2, j2, c, ty) {
                    let (m2, j2) = choose|m2: int, j2: int|
                        0 <= m2 < m + 1 && #[trigger] entry_gives(late@, *app, m2, j2, c, ty);
                    if m2 == m as int {
                        assert(entry_gives(late@, *app, m as int, j2, c, ty));
                    }
                }
            }
        }
        m = m + 1;
    }
    proof {
        assert forall|c: u8, ty: u32| out@.contains(Demand { core: c, ty }) <==> exists|rr: usize|
            #[trigger] late_send_contribution(*app, rr, c, ty) by {
            if out@.contains(Demand { core: c, ty }) {
                let (m2, j2) = choose|m2: int, j2: int|
                    0 <= m2 < late@.len() && #[trigger] entry_gives(late@, *app, m2, j2, c, ty);
                let rr = late@[m2].resources@[j2];
                assert(assignment_has(late@, c, rr)) by {
                    assert((#[trigger] late@[m2]).core == c && late@[m2].resources@.contains(rr))
                        by {
                        assert(late@[m2].resources@[j2] == rr);
                    }
                }
                assert(late_send_contribution(*app, rr, c, ty));
            }
            if exists|rr: usize| #[trigger] late_send_contribution(*app, rr, c, ty) {
                let rr = choose|rr: usize| #[trigger] late_send_contribution(*app, rr, c, ty);
                assert(assignment_has(late@, c, rr));
                let m2 = choose|m2: int|
                    0 <= m2 < late@.len() && (#[trigger] late@[m2]).core == c
                        && late@[m2].resources@.contains(rr);
                let j2 = choose|j2: int|
                    0 <= j2 < late@[m2].resources@.len() && late@[m2].resources@[j2] == rr;
                assert(entry_gives(late@, *app, m2, j2, c, ty));
            }
        }
    }
    out
}

/// Whether position `j` of assignment entry `m` yields the demand
/// `(c, ty)` — the list-indexed face of `late_send_contribution`.
pub open spec fn entry_gives(
    late: Seq<LateAssignment>,
    app: App,
    m: int,
    j: int,
    c: u8,
    ty: u32,
) -> bool {
    &&& 0 <= m < late.len()
    &&& 0 <= j < late[m].resources@.len()
    &&& late[m].core == c
    &&& {
        let r = late[m].resources@[j];
        &&& r < app.resources@.len()
        &&& owner_not_idle(app, r)
        &&& app.resources@[r as int].ty == ty
    }
}

/// Collects the demands of the resources the init routines ask to use.
fn collect_init_demands(app: &App, ownerships: &Vec<Option<Ownership>>) -> (r: Vec<Demand>)
    requires
        app.wf(),
        ownerships@.len() == app.resources@.len(),
        forall|k: int|
            0 <= k < app.resources@.len() ==> ownerships@[k] == ownership_of(
                access_prios(app.resource_accesses@, k as usize),
            ),
    ensures
        forall|c: u8, ty: u32|
            r@.contains(Demand { core: c, ty }) <==> exists|i: int, j: int|
                #[trigger] init_send_contribution(*app, i, j, c, ty),
        forall|k: int| 0 <= k < r@.len() ==> (#[trigger] r@[k]).core < app.cores,
{
    let mut out: Vec<Demand> = Vec::new();
    let mut i: usize = 0;
    while i < app.inits.len()
        invariant
            i <= app.inits@.len(),
            app.wf(),
            ownerships@.len() == app.resources@.len(),
            forall|k: int|
                0 <= k < app.resources@.len() ==> ownerships@[k] == ownership_of(
                    access_prios(app.resource_accesses@, k as usize),
                ),
            forall|c: u8, ty: u32|
                out@.contains(Demand { core: c, ty }) <==> exists|i2: int, j2: int|
                    i2 < i && #[trigger] init_send_contribution(*app, i2, j2, c, ty),
            forall|k: int| 0 <= k < out@.len() ==> (#[trigger] out@[k]).core < app.cores,
        decreases app.inits@.len() - i,
    {
        let init = &app.inits[i];
        let mut j: usize = 0;
        while j < init.resources.len()
            invariant
                j <= init.resources@.len(),
                init == app.inits@[i as int],
                i < app.inits@.len(),
                app.wf(),
                ownerships@.len() == app.resources@.len(),
                forall|k: int|
                    0 <= k < app.resources@.len() ==> ownerships@[k] == ownership_of(
                        access_prios(app.resource_accesses@, k as usize),
                    ),
                forall|c: u8, ty: u32|
                    out@.contains(Demand { core: c, ty }) <==> ((exists|i2: int, j2: int|
                        i2 < i && #[trigger] init_send_contribution(*app, i2, j2, c, ty)) || (
                    exists|j2: int|
                        j2 < j && #[trigger] init_send_contribution(*app, i as int, j2, c, ty))),
                forall|k: int| 0 <= k < out@.len() ==> (#[trigger] out@[k]).core < app.cores,
            decreases init.resources@.len() - j,
        {
            let rr = init.resources[j];
            proof {
                assert(app.declared(app.inits@[i as int].resources@[j as int]));
            }
            let ghost before = out@;
            let mut hit = false;
            match ownerships[rr] {
                Some(o) => {
                    if o != (Ownership::Owned { priority: 0 }) {
                        out.push(Demand { core: init.core, ty: app.resources[rr].ty });
                        hit = true;
                    }
                },
                None => {},
            }
            proof {
                assert forall|c: u8, ty: u32| out@.contains(Demand { core: c, ty }) <==> ((exists|
                    i2: int,
                    j2: int,
                |
                    i2 < i && #[trigger] init_send_contribution(*app, i2, j2, c, ty)) || (exists|
                    j2: int,
                |
                    j2 < j + 1 && #[trigger] init_send_contribution(
                        *app,
                        i as int,
                        j2,
                        c,
                        ty,
                    ))) by {
                    if hit {
                        lemma_push_contains(
                            before,
                            Demand {
                                core: app.inits@[i as int].core,
                                ty: app.resources@[rr as int].ty,
                            },
                            Demand { core: c, ty },
                        );
                        if c == app.inits@[i as int].core && ty == app.resources@[rr as int].ty {
                            assert(init_send_contribution(*app, i as int, j as int, c, ty));
                        }
                    }
                    if exists|j2: int|
                        j2 < j + 1 && #[trigger] init_send_contribution(*app, i as int, j2, c, ty)
                        && !(exists|j2: int|
                        j2 < j && #[trigger] init_send_contribution(*app, i as int, j2, c, ty)) {
                        let j2 = choose|j2: int|
                            j2 < j + 1 && #[trigger] init_send_contribution(
                                *app,
                                i as int,
                                j2,
                                c,
                                ty,
                            );
                        assert(j2 == j as int);
                        assert(hit && c == app.inits@[i as int].core && ty
                            == app.resources@[rr as int].ty);
                        assert(out@.contains(Demand { core: c, ty }));
                    }
                }
            }
            j = j + 1;
        }
        proof {
            assert forall|c: u8, ty: u32| out@.contains(Demand { core: c, ty }) <==> exists|
                i2: int,
                j2: int,
            |
                i2 < i + 1 && #[trigger] init_send_contribution(*app, i2, j2, c, ty) by {
                if exists|i2: int, j2: int|
                    i2 < i + 1 && #[trigger] init_send_contribution(*app, i2, j2, c, ty) {
                    let (i2, j2) = choose|i2: int, j2: int|
                        i2 < i + 1 && #[trigger] init_send_contribution(*app, i2, j2, c, ty);
                    if i2 == i as int {
                        assert(init_send_contribution(*app, i as int, j2, c, ty));
                    }
                }
            }
        }
        i = i + 1;
    }
    out
}

/// Collects the message demands of one call list (spawn or schedule).
fn collect_message_demands(app: &App, calls: &Vec<Call>) -> (r: Vec<Demand>)
    requires
        app.cores_bounded(),
        forall|k: int|
            0 <= k < calls@.len() ==> (#[trigger] calls@[k]).task < app.software_tasks@.len(),
        forall|k: int| 0 <= k < calls@.len() ==> (#[trigger] calls@[k]).core < app.cores,
    ensures
        forall|c: u8, ty: u32|
            r@.contains(Demand { core: c, ty }) <==> exists|k: int, j: int|
                #[trigger] message_send_contribution(calls@, app.software_tasks@, k, j, c, ty),
        forall|k: int| 0 <= k < r@.len() ==> (#[trigger] r@[k]).core < app.cores,
{
    let mut out: Vec<Demand> = Vec::new();
    let mut k: usize = 0;
    while k < calls.len()
        invariant
            k <= calls@.len(),
            app.cores_bounded(),
            forall|k2: int|
                0 <= k2 < calls@.len() ==> (#[trigger] calls@[k2]).task
                    < app.software_tasks@.len(),
            forall|k2: int| 0 <= k2 < calls@.len() ==> (#[trigger] calls@[k2]).core < app.cores,
            forall|c: u8, ty: u32|
                out@.contains(Demand { core: c, ty }) <==> exists|k2: int, j2: int|
                    k2 < k && #[trigger] message_send_contribution(
                        calls@,
                        app.software_tasks@,
                        k2,
                        j2,
                        c,
                        ty,
                    ),
            forall|m: int| 0 <= m < out@.len() ==> (#[trigger] out@[m]).core < app.cores,
        decreases calls@.len() - k,
    {
        let call = calls[k];
        let t = &app.software_tasks[call.task];
        let crosses = match call.priority {
            Some(p) => call.core != t.core || t.priority != p,
            None => true,
        };
        if crosses {
            let mut j: usize = 0;
            while j < t.inputs.len()
                invariant
                    j <= t.inputs@.len(),
                    t == app.software_tasks@[call.task as int],
                    call == calls@[k as int],
                    k < calls@.len(),
                    call_crosses_context(call, *t),
                    app.cores_bounded(),
                    forall|k2: int|
                        0 <= k2 < calls@.len() ==> (#[trigger] calls@[k2]).task
                            < app.software_tasks@.len(),
                    forall|k2: int|
                        0 <= k2 < calls@.len() ==> (#[trigger] calls@[k2]).core < app.cores,
                    forall|c: u8, ty: u32|
                        out@.contains(Demand { core: c, ty }) <==> ((exists|k2: int, j2: int|
                            k2 < k && #[trigger] message_send_contribution(
                                calls@,
                                app.software_tasks@,
                                k2,
                                j2,
                                c,
                                ty,
                            )) || (exists|j2: int|
                            j2 < j && #[trigger] message_send_contribution(
                                calls@,
                                app.software_tasks@,
                                k as int,
                                j2,
                                c,
                                ty,
                            ))),
                    forall|m: int| 0 <= m < out@.len() ==> (#[trigger] out@[m]).core < app.cores,
                decreases t.inputs@.len() - j,
            {
                let ty = t.inputs[j];
                let ghost before = out@;
                out.push(Demand { core: call.core, ty });
                let ghost mid = out@;
                out.push(Demand { core: t.core, ty });
                proof {
                    assert forall|c: u8, ty2: u32| out@.contains(Demand { core: c, ty: ty2 })
                        <==> ((exists|k2: int, j2: int|
                        k2 < k && #[trigger] message_send_contribution(
                            calls@,
                            app.software_tasks@,
                            k2,
                            j2,
                            c,
                            ty2,
                        )) || (exists|j2: int|
                        j2 < j + 1 && #[trigger] message_send_contribution(
                            calls@,
                            app.software_tasks@,
                            k as int,
                            j2,
                            c,
                            ty2,
                        ))) by {
                        lemma_push_contains(
                            before,
                            Demand { core: call.core, ty },
                            Demand { core: c, ty: ty2 },
                        );
                        lemma_push_contains(
                            mid,
                            Demand { core: t.core, ty },
                            Demand { core: c, ty: ty2 },
                        );
                        if (c == call.core || c == t.core) && ty2 == ty {
                            assert(message_send_contribution(
                                calls@,
                                app.software_tasks@,
                                k as int,
                                j as int,
                                c,
                                ty2,
                            ));
                        }
                        if exists|j2: int|
                            j2 < j + 1 && #[trigger] message_send_contribution(
                                calls@,
                                app.software_tasks@,
                                k as int,
                                j2,
                                c,
                                ty2,
                            ) && !(exists|j2: int|
                            j2 < j && #[trigger] message_send_contribution(
                                calls@,
                                app.software_tasks@,
                                k as int,
                                j2,
                                c,
                                ty2,
                            )) {
                            let j2 = choose|j2: int|
                                j2 < j + 1 && #[trigger] message_send_contribution(
                                    calls@,
                                    app.software_tasks@,
                                    k as int,
                                    j2,
                                    c,
                                    ty2,
                                );
                            assert(j2 == j as int);
                            assert(ty2 == ty && (c == call.core || c == t.core));
                            assert(out@.contains(Demand { core: c, ty: ty2 }));
                        }
                    }
                }
                j = j + 1;
            }
        }
        proof {
            assert forall|c: u8, ty: u32| out@.contains(Demand { core: c, ty }) <==> exists|
                k2: int,
                j2: int,
            |
                k2 < k + 1 && #[trigger] message_send_contribution(
                    calls@,
                    app.software_tasks@,
                    k2,
                    j2,
                    c,
                    ty,
                ) by {
                if exists|k2: int, j2: int|
                    k2 < k + 1 && #[trigger] message_send_contribution(
                        calls@,
                        app.software_tasks@,
                        k2,
                        j2,
                        c,
                        ty,
                    ) {
                    let (k2, j2) = choose|k2: int, j2: int|
                        k2 < k + 1 && #[trigger] message_send_contribution(
                            calls@,
                            app.software_tasks@,
                            k2,
                            j2,
                            c,
                            ty,
                        );
                    if k2 == k as int {
                        assert(message_send_contribution(
                            calls@,
                            app.software_tasks@,
                            k as int,
                            j2,
                            c,
                            ty,
                        ));
                        assert(call_crosses_context(calls@[k as int], *t));
                    }
                }
            }
        }
        k = k + 1;
    }
    out
}

/// Sorts a list of demands into per-core, duplicate-free type sets.
fn bucket_demands(demands: &Vec<Demand>, cores: u8) -> (r: Vec<Vec<u32>>)
    requires
        forall|k: int| 0 <= k < demands@.len() ==> (#[trigger] demands@[k]).core < cores,
    ensures
        r@.len() == cores as int,
        forall|c: int, ty: u32|
            0 <= c < cores as int ==> (r@[c]@.contains(ty) <==> demands@.contains(
                Demand { core: c as u8, ty },
            )),
        forall|c: int| 0 <= c < cores as int ==> r@[c]@.no_duplicates(),
{
    let mut out: Vec<Vec<u32>> = Vec::new();
    while out.len() < cores as usize
        invariant
            out@.len() <= cores as usize,
            forall|c: int| 0 <= c < out@.len() ==> out@[c]@ =~= Seq::<u32>::empty(),
        decreases cores as usize - out@.len(),
    {
        out.push(Vec::new());
    }
    let mut k: usize = 0;
    while k < demands.len()
        invariant
            k <= demands@.len(),
            out@.len() == cores as int,
            forall|k2: int| 0 <= k2 < demands@.len() ==> (#[trigger] demands@[k2]).core < cores,
            forall|c: int, ty: u32|
                0 <= c < cores as int ==> (out@[c]@.contains(ty) <==> exists|k2: int|
                    0 <= k2 < k && #[trigger] demands@[k2] == (Demand { core: c as u8, ty })),
            forall|c: int| 0 <= c < cores as int ==> out@[c]@.no_duplicates(),
        decreases demands@.len() - k,
    {
        let d = demands[k];
        let slot = &mut out[d.core as usize];
        let ghost inner = slot@;
        insert_unique_u32(slot, d.ty);
        proof {
            lemma_add_unique_no_duplicates(inner, d.ty);
            assert forall|c: int, ty: u32| 0 <= c < cores as int implies (out@[c]@.contains(ty)
                <==> exists|k2: int|
                0 <= k2 < k + 1 && #[trigger] demands@[k2] == (Demand { core: c as u8, ty })) by {
                lemma_add_unique_contains(inner, d.ty, ty);
                if out@[c]@.contains(ty) {
                    if c == d.core as int && ty == d.ty {
                        assert(demands@[k as int] == (Demand { core: c as u8, ty }));
                    }
                } else {
                    if exists|k2: int|
                        0 <= k2 < k + 1 && #[trigger] demands@[k2] == (Demand {
                            core: c as u8,
                            ty,
                        }) {
                        let k2 = choose|k2: int|
                            0 <= k2 < k + 1 && #[trigger] demands@[k2] == (Demand {
                                core: c as u8,
                                ty,
                            });
                        assert(k2 < k as int);
                    }
                }
            }
        }
        k = k + 1;
    }
    proof {
        assert forall|c: int, ty: u32| 0 <= c < cores as int implies (out@[c]@.contains(ty)
            <==> demands@.contains(Demand { core: c as u8, ty })) by {
            if out@[c]@.contains(ty) {
                let k2 = choose|k2: int|
                    0 <= k2 < demands@.len() && #[trigger] demands@[k2] == (Demand {
                        core: c as u8,
                        ty,
                    });
                assert(demands@.contains(Demand { core: c as u8, ty }));
            }
            if demands@.contains(Demand { core: c as u8, ty }) {
                let k2 = choose|k2: int|
                    0 <= k2 < demands@.len() && demands@[k2] == (Demand { core: c as u8, ty });
                assert(demands@[k2] == (Demand { core: c as u8, ty }));
            }
        }
    }
    out
}

/// Computes, per core, the duplicate-free set of type identifiers that
/// must be transfer-safe, by the three rules together: `ty` appears
/// under core `c` exactly when `send_required` holds of them.
pub fn send_types(app: &App, late: &Vec<LateAssignment>, ownerships: &Vec<Option<Ownership>>) -> (r:
    Vec<Vec<u32>>)
    requires
        app.wf(),
        ownerships@.len() == app.resources@.len(),
        forall|k: int|
            0 <= k < app.resources@.len() ==> ownerships@[k] == ownership_of(
                access_prios(app.resource_accesses@, k as usize),
            ),
        forall|c: u8, rr: usize| assignment_has(late@, c, rr) <==> assigned_to(*app, rr, c),
        forall|k: int| 0 <= k < late@.len() ==> (#[trigger] late@[k]).core < app.cores,
    ensures
        r@.len() == app.cores as int,
        forall|c: int, ty: u32|
            0 <= c < app.cores as int ==> (r@[c]@.contains(ty) <==> send_required(
                *app,
                c as u8,
                ty,
            )),
        forall|c: int| 0 <= c < app.cores as int ==> r@[c]@.no_duplicates(),
{
    let mut demands = collect_late_demands(app, late, ownerships);
    let ghost d1 = demands@;
    let mut more = collect_init_demands(app, ownerships);
    let ghost d2 = more@;
    demands.append(&mut more);
    let ghost d12 = demands@;
    let mut spawns = collect_message_demands(app, &app.spawn_calls);
    let ghost d3 = spawns@;
    demands.append(&mut spawns);
    let ghost d123 = demands@;
    let mut schedules = collect_message_demands(app, &app.schedule_calls);
    let ghost d4 = schedules@;
    demands.append(&mut schedules);
    proof {
        assert(demands@ == d1 + d2 + d3 + d4);
        assert forall|c: u8, ty: u32| demands@.contains(Demand { core: c, ty }) <==> send_required(
            *app,
            c,
            ty,
        ) by {
            let d = Demand { core: c, ty };
            assert(demands@.contains(d) <==> (d1.contains(d) || d2.contains(d) || d3.contains(d)
                || d4.contains(d))) by {
                if d1.contains(d) || d2.contains(d) || d3.contains(d) || d4.contains(d) {
                    if d1.contains(d) {
                        let i = choose|i: int| 0 <= i < d1.len() && d1[i] == d;
                        assert(demands@[i] == d);
                    } else if d2.contains(d) {
                        let i = choose|i: int| 0 <= i < d2.len() && d2[i] == d;
                        assert(demands@[d1.len() + i] == d);
                    } else if d3.contains(d) {
                        let i = choose|i: int| 0 <= i < d3.len() && d3[i] == d;
                        assert(demands@[d1.len() + d2.len() + i] == d);
                    } else {
                        let i = choose|i: int| 0 <= i < d4.len() && d4[i] == d;
                        assert(demands@[d1.len() + d2.len() + d3.len() + i] == d);
                    }
                }
                if demands@.contains(d) {
                    let i = choose|i: int| 0 <= i < demands@.len() && demands@[i] == d;
                    if i < d1.len() {
                        assert(d1[i] == d);
                    } else if i < d1.len() + d2.len() {
                        assert(d2[i - d1.len()] == d);
                    } else if i < d1.len() + d2.len() + d3.len() {
                        assert(d3[i - d1.len() - d2.len()] == d);
                    } else {
                        assert(d4[i - d1.len() - d2.len() - d3.len()] == d);
                    }
                }
            }
        }
        assert forall|k: int| 0 <= k < demands@.len() implies (#[trigger] demands@[k]).core
            < app.cores by {
            if k < d1.len() {
                assert(demands@[k] == d1[k]);
            } else if k < d1.len() + d2.len() {
                assert(demands@[k] == d2[k - d1.len()]);
            } else if k < d1.len() + d2.len() + d3.len() {
                assert(demands@[k] == d3[k - d1.len() - d2.len()]);
            } else {
                assert(demands@[k] == d4[k - d1.len() - d2.len() - d3.len()]);
            }
        }
    }
    bucket_demands(&demands, app.cores)
}

/// Law: a spawn or schedule call towards its task's own core and
/// priority contributes nothing to the transfer-safety sets.
pub proof fn lemma_local_call_adds_nothing(calls: Seq<Call>, tasks: Seq<SoftwareTask>, k: int)
    requires
        0 <= k < calls.len(),
        calls[k].task < tasks.len(),
        calls[k].priority == Some(tasks[calls[k].task as int].priority),
        calls[k].core == tasks[calls[k].task as int].core,
    ensures
        forall|j: int, c: u8, ty: u32| !message_send_contribution(calls, tasks, k, j, c, ty),
{
}

/// Law: a spawn or schedule call at the dispatched task's own core and
/// priority crosses no execution-context boundary, while any call
/// towards a different priority or core, or from init, does cross one.
pub proof fn lemma_local_same_priority_call(call: Call, t: SoftwareTask)
    ensures
        (call.priority == Some(t.priority) && call.core == t.core) ==> !call_crosses_context(
            call,
            t,
        ),
        (call.priority is Some && call.priority != Some(t.priority)) ==> call_crosses_context(
            call,
            t,
        ),
        call.core != t.core ==> call_crosses_context(call, t),
        call.priority is None ==> call_crosses_context(call, t),
{
}

} // verus!
