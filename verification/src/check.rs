//! The validation pass: rejects structurally invalid application
//! models before any analysis runs, and never mutates the model.
//!
//! Checks, in order: every accessed resource is declared; no resource
//! mixes shared and exclusive access; late resources demand an init
//! routine, and at most one init routine may leave its late list
//! implicit; no hardware task binds an interrupt reserved for software
//! dispatch. Each error carries the index of the offending declaration.

use vstd::prelude::*;

use crate::ast::App;
use crate::sets::contains_u32;

verus! {

/// A model error, with the offending declaration's position.
#[derive(Clone, Copy, Debug, PartialEq, Eq, Structural)]
pub enum Error {
    /// The access at this index names a resource that was never
    /// declared.
    UndeclaredResource {
        /// Index into the enumerated resource accesses.
        access: usize,
    },
    /// The shared access at this index hits a resource that some
    /// prioritized context accesses exclusively; the protocol cannot
    /// reconcile the two disciplines on one resource.
    MixedAccess {
        /// Index into the enumerated resource accesses.
        access: usize,
    },
    /// Late resources exist, so an init routine must be declared.
    LateResourcesWithoutInit,
    /// Late resources exist and a second init routine omits its
    /// explicit late list; only one may claim the leftovers.
    MultipleImplicitClaimants {
        /// Index of the second such init routine.
        init: usize,
    },
    /// The hardware task at this index binds an interrupt line that is
    /// reserved as a software-dispatch interrupt.
    DispatcherCollision {
        /// Index into the hardware task declarations.
        task: usize,
    },
}

/// Whether access `i` names an undeclared resource.
pub open spec fn undeclared_at(app: App, i: int) -> bool {
    0 <= i < app.resource_accesses@.len() && !app.declared(app.resource_accesses@[i].resource)
}

/// Whether some access names an undeclared resource.
pub open spec fn some_undeclared(app: App) -> bool {
    exists|i: int| #[trigger] undeclared_at(app, i)
}

/// Whether some prioritized context accesses resource `r` exclusively.
/// Init accesses carry no priority and never take a lock, so they are
/// left out of this accumulation.
pub open spec fn exclusive_elsewhere(app: App, r: usize) -> bool {
    exists|j: int|
        0 <= j < app.resource_accesses@.len() && (#[trigger] app.resource_accesses@[j]).resource
            == r && app.resource_accesses@[j].priority is Some
            && app.resource_accesses@[j].mode is Exclusive
}

/// Whether access `i` is a shared access to a resource that is also
/// accessed exclusively by a prioritized context.
pub open spec fn mixed_at(app: App, i: int) -> bool {
    0 <= i < app.resource_accesses@.len() && app.resource_accesses@[i].mode is Shared
        && exclusive_elsewhere(app, app.resource_accesses@[i].resource)
}

/// Whether some resource receives both shared and prioritized
/// exclusive access.
pub open spec fn some_mixed(app: App) -> bool {
    exists|i: int| #[trigger] mixed_at(app, i)
}

/// Whether late resources exist with no init routine to produce them.
pub open spec fn late_without_init(app: App) -> bool {
    app.has_late() && app.inits@.len() == 0
}

/// Whether init routine `i` is an implicit late claimant with an
/// earlier one before it, while late resources exist.
pub open spec fn second_implicit_at(app: App, i: int) -> bool {
    app.has_late() && app.implicit_claimant(i) && exists|j: int|
        0 <= j < i && #[trigger] app.implicit_claimant(j)
}

/// Whether two init routines both leave their late list implicit while
/// late resources exist.
pub open spec fn some_second_implicit(app: App) -> bool {
    exists|i: int| #[trigger] second_implicit_at(app, i)
}

/// Whether hardware task `t` binds a reserved dispatcher interrupt.
pub open spec fn collision_at(app: App, t: int) -> bool {
    0 <= t < app.hardware_tasks@.len() && app.dispatchers@.contains(
        app.hardware_tasks@[t].binds,
    )
}

/// Whether some hardware task binds a reserved dispatcher interrupt.
pub open spec fn some_collision(app: App) -> bool {
    exists|t: int| #[trigger] collision_at(app, t)
}

/// Whether the model passes every validation check.
pub open spec fn valid(app: App) -> bool {
    &&& !some_undeclared(app)
    &&& !some_mixed(app)
    &&& !late_without_init(app)
    &&& !some_second_implicit(app)
    &&& !some_collision(app)
}

/// Whether some prioritized context accesses resource `r` exclusively
/// — the executable face of `exclusive_elsewhere`.
fn has_exclusive_access(app: &App, r: usize) -> (b: bool)
    ensures
        b == exclusive_elsewhere(*app, r),
{
    let mut j: usize = 0;
    while j < app.resource_accesses.len()
        invariant
            j <= app.resource_accesses@.len(),
            forall|k: int|
                0 <= k < j ==> !((#[trigger] app.resource_accesses@[k]).resource == r
                    && app.resource_accesses@[k].priority is Some
                    && app.resource_accesses@[k].mode is Exclusive),
        decreases app.resource_accesses@.len() - j,
    {
        let a = &app.resource_accesses[j];
        if a.resource == r && a.priority.is_some() && a.mode.is_exclusive() {
            return true;
        }
        j = j + 1;
    }
    false
}

/// Validates the model: returns `Ok` exactly on a model that passes
/// every check, and otherwise the first violation, in check order —
/// undeclared resources, then mixed access, then the late-resource
/// checks, then dispatcher collisions — each with the least offending
/// index.
pub fn app(model: &App) -> (r: Result<(), Error>)
    ensures
        r is Ok <==> valid(*model),
        match r {
            Ok(()) => true,
            Err(e) => match e {
                Error::UndeclaredResource { access } => undeclared_at(*model, access as int) && (
                forall|j: int| 0 <= j < access as int ==> !undeclared_at(*model, j)),
                Error::MixedAccess { access } => !some_undeclared(*model) && mixed_at(
                    *model,
                    access as int,
                ) && (forall|j: int| 0 <= j < access as int ==> !mixed_at(*model, j)),
                Error::LateResourcesWithoutInit => !some_undeclared(*model) && !some_mixed(*model)
                    && late_without_init(*model),
                Error::MultipleImplicitClaimants { init } => !some_undeclared(*model)
                    && !some_mixed(*model) && !late_without_init(*model) && second_implicit_at(
                    *model,
                    init as int,
                ) && (forall|j: int| 0 <= j < init as int ==> !second_implicit_at(*model, j)),
                Error::DispatcherCollision { task } => !some_undeclared(*model) && !some_mixed(
                    *model,
                ) && !late_without_init(*model) && !some_second_implicit(*model) && collision_at(
                    *model,
                    task as int,
                ) && (forall|j: int| 0 <= j < task as int ==> !collision_at(*model, j)),
            },
        },
{
    // Every referenced resource must be declared.
    let mut i: usize = 0;
    while i < model.resource_accesses.len()
        invariant
            i <= model.resource_accesses@.len(),
            forall|j: int| 0 <= j < i ==> !undeclared_at(*model, j),
        decreases model.resource_accesses@.len() - i,
    {
        if model.resource_accesses[i].resource >= model.resources.len() {
            proof {
                assert(undeclared_at(*model, i as int));
            }
            return Err(Error::UndeclaredResource { access: i });
        }
        i = i + 1;
    }
    proof {
        if some_undeclared(*model) {
            let j = choose|j: int| #[trigger] undeclared_at(*model, j);
            assert(!undeclared_at(*model, j));
        }
    }

    // No resource may see both shared and prioritized exclusive access.
    let mut i: usize = 0;
    while i < model.resource_accesses.len()
        invariant
            i <= model.resource_accesses@.len(),
            !some_undeclared(*model),
            forall|j: int| 0 <= j < i ==> !mixed_at(*model, j),
        decreases model.resource_accesses@.len() - i,
    {
        let a = &model.resource_accesses[i];
        if a.mode.is_shared() {
            let shared_resource = a.resource;
            if has_exclusive_access(model, shared_resource) {
                proof {
                    assert(mixed_at(*model, i as int));
                }
                return Err(Error::MixedAccess { access: i });
            }
        }
        i = i + 1;
    }
    proof {
        if some_mixed(*model) {
            let j = choose|j: int| #[trigger] mixed_at(*model, j);
            assert(!mixed_at(*model, j));
        }
    }

    // Late resources demand an init routine, and at most one implicit
    // late claimant.
    if crate::late::any_late(model) {
        if model.inits.len() == 0 {
            return Err(Error::LateResourcesWithoutInit);
        }
        let mut seen_implicit = false;
        let mut i: usize = 0;
        while i < model.inits.len()
            invariant
                i <= model.inits@.len(),
                model.has_late(),
                model.inits@.len() > 0,
                !some_undeclared(*model),
                !some_mixed(*model),
                seen_implicit <==> exists|j: int| 0 <= j < i && #[trigger] model.implicit_claimant(
                    j,
                ),
                forall|j: int| 0 <= j < i ==> !second_implicit_at(*model, j),
            decreases model.inits@.len() - i,
        {
            if model.inits[i].late.len() == 0 {
                proof {
                    assert(model.implicit_claimant(i as int));
                }
                if seen_implicit {
                    proof {
                        assert(second_implicit_at(*model, i as int));
                    }
                    return Err(Error::MultipleImplicitClaimants { init: i });
                }
                seen_implicit = true;
            } else {
                proof {
                    assert(!model.implicit_claimant(i as int));
                }
            }
            i = i + 1;
        }
        proof {
            if some_second_implicit(*model) {
                let j = choose|j: int| #[trigger] second_implicit_at(*model, j);
                assert(!second_implicit_at(*model, j));
            }
        }
    } else {
        proof {
            // without late resources no claimant check applies
            if some_second_implicit(*model) {
                let j = choose|j: int| #[trigger] second_implicit_at(*model, j);
                assert(model.has_late());
            }
        }
    }

    // Reserved dispatcher interrupts cannot serve hardware tasks.
    let mut t: usize = 0;
    while t < model.hardware_tasks.len()
        invariant
            t <= model.hardware_tasks@.len(),
            !some_undeclared(*model),
            !some_mixed(*model),
            !late_without_init(*model),
            !some_second_implicit(*model),
            forall|j: int| 0 <= j < t ==> !collision_at(*model, j),
        decreases model.hardware_tasks@.len() - t,
    {
        if contains_u32(&model.dispatchers, model.hardware_tasks[t].binds) {
            proof {
                assert(collision_at(*model, t as int));
            }
            return Err(Error::DispatcherCollision { task: t });
        }
        t = t + 1;
    }
    proof {
        if some_collision(*model) {
            let j = choose|j: int| #[trigger] collision_at(*model, j);
            assert(!collision_at(*model, j));
        }
    }
    Ok(())
}

/// Law: a model with late resources and two init routines that both
/// omit an explicit late list fails validation.
pub proof fn lemma_two_implicit_rejected(app: App, i: int, j: int)
    requires
        app.has_late(),
        i != j,
        app.implicit_claimant(i),
        app.implicit_claimant(j),
    ensures
        !valid(app),
{
    if i < j {
        assert(second_implicit_at(app, j));
    } else {
        assert(second_implicit_at(app, i));
    }
}

/// Law: a model where one context reads a resource shared while a
/// prioritized context holds it exclusive fails validation with a
/// mixed-access error.
pub proof fn lemma_mixed_access_rejected(app: App, i: int, j: int)
    requires
        0 <= i < app.resource_accesses@.len(),
        0 <= j < app.resource_accesses@.len(),
        app.resource_accesses@[i].mode is Shared,
        app.resource_accesses@[j].mode is Exclusive,
        app.resource_accesses@[j].priority is Some,
        app.resource_accesses@[i].resource == app.resource_accesses@[j].resource,
    ensures
        !valid(app),
{
    assert(exclusive_elsewhere(app, app.resource_accesses@[i].resource));
    assert(mixed_at(app, i));
}

/// Law: a model with a hardware task bound to a reserved dispatcher
/// interrupt fails validation.
pub proof fn lemma_dispatcher_collision_rejected(app: App, t: int)
    requires
        0 <= t < app.hardware_tasks@.len(),
        app.dispatchers@.contains(app.hardware_tasks@[t].binds),
    ensures
        !valid(app),
{
    assert(collision_at(app, t));
}

} // verus!
