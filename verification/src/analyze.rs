//! The analysis entry point: one pass over a validated application
//! model yields the complete, immutable concurrency plan that code
//! generation consumes.

use vstd::prelude::*;

use crate::ast::{App, HardwareTask, Idle, Init, SoftwareTask};
use crate::late::{assign_late_resources, assigned_to, assignment_has, barrier_required};
use crate::ownership::{access_prios, ownership_of};
use crate::resources::{analyze_resources, location_of, sync_required};
use crate::send::{send_required, send_types};
use crate::sets::add_unique;
use crate::topology::{build_topology, channel_ceiling, channel_keys, channel_tasks, fq_ceiling,
    fq_keys, sum_capacities, tq_ceiling, tq_cores, tq_priority, tq_tasks};

pub use crate::late::LateAssignment;
pub use crate::ownership::{Location, Ownership};
pub use crate::topology::{Channel, ChannelEntry, FreeQueueEntry, TimerQueue, TimerQueueEntry};

verus! {

/// The cores named by the init routines, extending `base`, each core
/// on first encounter.
pub open spec fn add_init_cores(base: Seq<u8>, inits: Seq<Init>) -> Seq<u8>
    decreases inits.len(),
{
    if inits.len() == 0 {
        base
    } else {
        add_unique(add_init_cores(base, inits.drop_last()), inits.last().core)
    }
}

/// The cores named by the idle routines, extending `base`.
pub open spec fn add_idle_cores(base: Seq<u8>, idles: Seq<Idle>) -> Seq<u8>
    decreases idles.len(),
{
    if idles.len() == 0 {
        base
    } else {
        add_unique(add_idle_cores(base, idles.drop_last()), idles.last().core)
    }
}

/// The cores named by the hardware tasks, extending `base`.
pub open spec fn add_hardware_cores(base: Seq<u8>, tasks: Seq<HardwareTask>) -> Seq<u8>
    decreases tasks.len(),
{
    if tasks.len() == 0 {
        base
    } else {
        add_unique(add_hardware_cores(base, tasks.drop_last()), tasks.last().core)
    }
}

/// The cores named by the software tasks, extending `base`.
pub open spec fn add_software_cores(base: Seq<u8>, tasks: Seq<SoftwareTask>) -> Seq<u8>
    decreases tasks.len(),
{
    if tasks.len() == 0 {
        base
    } else {
        add_unique(add_software_cores(base, tasks.drop_last()), tasks.last().core)
    }
}

/// The cores that have been assigned at least one task, init routine
/// or idle routine, each on first encounter over the declarations.
pub open spec fn used_cores(app: App) -> Seq<u8> {
    add_software_cores(
        add_hardware_cores(
            add_idle_cores(add_init_cores(Seq::empty(), app.inits@), app.idles@),
            app.hardware_tasks@,
        ),
        app.software_tasks@,
    )
}

/// The result of analyzing an application model.
pub struct Analysis {
    /// Cores that have been assigned at least one task, init routine
    /// or idle routine.
    pub used_cores: Vec<u8>,
    /// The message channels, each keyed by (receiver core, dispatch
    /// priority, sender core).
    pub channels: Vec<ChannelEntry>,
    /// The free queues, each keyed by (task, sender core).
    pub free_queues: Vec<FreeQueueEntry>,
    /// Which core's init routine produces which late resources.
    pub late_resources: Vec<LateAssignment>,
    /// Location of every used resource, indexed by resource identifier;
    /// `None` marks a dead (never accessed) resource that code
    /// generation drops.
    pub locations: Vec<Option<Location>>,
    /// Derived ownership of every resource reached by a prioritized
    /// access, indexed by resource identifier.
    pub ownerships: Vec<Option<Ownership>>,
    /// Per core, the type identifiers that must be safe to hand to
    /// another execution context.
    pub send_types: Vec<Vec<u32>>,
    /// Per core, the type identifiers that must be safe to access
    /// concurrently.
    pub sync_types: Vec<Vec<u32>>,
    /// Per receiving core, the initializer cores whose late resources
    /// it must wait for at startup.
    pub initialization_barriers: Vec<Vec<u8>>,
    /// The timer queues, one per scheduling core.
    pub timer_queues: Vec<TimerQueueEntry>,
}

/// What the analysis record says of the model it was derived from:
/// every field pinned to its defining fold or membership condition.
pub open spec fn analysis_matches(app: App, a: Analysis) -> bool {
    // late-resource assignment: the partition of the late set
    &&& forall|k: int|
        0 <= k < a.late_resources@.len() ==> (
        #[trigger] a.late_resources@[k]).resources@.no_duplicates()
    &&& forall|k1: int, k2: int|
        0 <= k1 < k2 < a.late_resources@.len() ==> (#[trigger] a.late_resources@[k1]).core != (
        #[trigger] a.late_resources@[k2]).core
    &&& forall|c: u8, rr: usize|
        assignment_has(a.late_resources@, c, rr) <==> assigned_to(app, rr, c)
    &&& (!app.has_late() ==> a.late_resources@.len() == 0)
    // locations and ownerships, indexed by resource
    &&& a.locations@.len() == app.resources@.len()
    &&& forall|r: int|
        0 <= r < app.resources@.len() ==> a.locations@[r] == location_of(
            app.resource_accesses@,
            r as usize,
        )
    &&& a.ownerships@.len() == app.resources@.len()
    &&& forall|r: int|
        0 <= r < app.resources@.len() ==> a.ownerships@[r] == ownership_of(
            access_prios(app.resource_accesses@, r as usize),
        )
    // capability sets, indexed by core
    &&& a.sync_types@.len() == app.cores as int
    &&& forall|c: int, ty: u32|
        0 <= c < app.cores as int ==> ((#[trigger] a.sync_types@[c]@.contains(ty))
            <==> sync_required(app, c as u8, ty))
    &&& forall|c: int| 0 <= c < app.cores as int ==> a.sync_types@[c]@.no_duplicates()
    &&& a.send_types@.len() == app.cores as int
    &&& forall|c: int, ty: u32|
        0 <= c < app.cores as int ==> ((#[trigger] a.send_types@[c]@.contains(ty))
            <==> send_required(app, c as u8, ty))
    &&& forall|c: int| 0 <= c < app.cores as int ==> a.send_types@[c]@.no_duplicates()
    // initialization barriers, indexed by receiving core
    &&& a.initialization_barriers@.len() == app.cores as int
    &&& forall|recv: int, ini: u8|
        0 <= recv < app.cores as int ==> ((#[trigger] a.initialization_barriers@[recv]@.contains(
            ini,
        )) <==> barrier_required(app, recv as u8, ini))
    &&& forall|recv: int|
        0 <= recv < app.cores as int ==> a.initialization_barriers@[recv]@.no_duplicates()
    // channels
    &&& a.channels@.len() == channel_keys(app).len()
    &&& forall|k: int|
        0 <= k < a.channels@.len() ==> ((#[trigger] a.channels@[k]).receiver,
        a.channels@[k].priority, a.channels@[k].sender) == channel_keys(app)[k]
    &&& forall|k: int|
        0 <= k < a.channels@.len() ==> (#[trigger] a.channels@[k]).channel.tasks@ == channel_tasks(
            app,
            a.channels@[k].receiver,
            a.channels@[k].priority,
            a.channels@[k].sender,
        )
    &&& forall|k: int|
        0 <= k < a.channels@.len() ==> (#[trigger] a.channels@[k]).channel.ceiling
            == channel_ceiling(
            app,
            a.channels@[k].receiver,
            a.channels@[k].priority,
            a.channels@[k].sender,
        )
    &&& forall|k: int|
        0 <= k < a.channels@.len() ==> (#[trigger] a.channels@[k]).channel.capacity as int
            == sum_capacities(
            channel_tasks(
                app,
                a.channels@[k].receiver,
                a.channels@[k].priority,
                a.channels@[k].sender,
            ),
            app.software_tasks@,
        )
    &&& forall|k: int|
        0 <= k < a.channels@.len() ==> (#[trigger] a.channels@[k]).channel.tasks@.no_duplicates()
    &&& forall|k: int|
        0 <= k < a.channels@.len() ==> (#[trigger] a.channels@[k]).channel.tasks@.len() > 0
    // free queues
    &&& a.free_queues@.len() == fq_keys(app).len()
    &&& forall|k: int|
        0 <= k < a.free_queues@.len() ==> ((#[trigger] a.free_queues@[k]).task,
        a.free_queues@[k].sender) == fq_keys(app)[k]
    &&& forall|k: int|
        0 <= k < a.free_queues@.len() ==> (#[trigger] a.free_queues@[k]).ceiling == fq_ceiling(
            app,
            a.free_queues@[k].task,
            a.free_queues@[k].sender,
        )
    // timer queues
    &&& a.timer_queues@.len() == tq_cores(app).len()
    &&& forall|k: int|
        0 <= k < a.timer_queues@.len() ==> (#[trigger] a.timer_queues@[k]).core == tq_cores(app)[k]
    &&& forall|k: int|
        0 <= k < a.timer_queues@.len() ==> (#[trigger] a.timer_queues@[k]).queue.tasks@
            == tq_tasks(app, a.timer_queues@[k].core)
    &&& forall|k: int|
        0 <= k < a.timer_queues@.len() ==> (#[trigger] a.timer_queues@[k]).queue.priority
            == tq_priority(app, a.timer_queues@[k].core)
    &&& forall|k: int|
        0 <= k < a.timer_queues@.len() ==> (#[trigger] a.timer_queues@[k]).queue.ceiling
            == tq_ceiling(app, a.timer_queues@[k].core)
    &&& forall|k: int|
        0 <= k < a.timer_queues@.len() ==> (#[trigger] a.timer_queues@[k]).queue.capacity as int
            == sum_capacities(tq_tasks(app, a.timer_queues@[k].core), app.software_tasks@)
    &&& forall|k: int|
        0 <= k < a.timer_queues@.len() ==> (
        #[trigger] a.timer_queues@[k]).queue.tasks@.no_duplicates()
    // used cores
    &&& a.used_cores@ == used_cores(app)
}

/// Collects the used cores in declaration order: init routines, idle
/// routines, hardware tasks, software tasks.
fn collect_used_cores(app: &App) -> (r: Vec<u8>)
    ensures
        r@ == used_cores(*app),
{
    let mut out: Vec<u8> = Vec::new();
    let mut i: usize = 0;
    while i < app.inits.len()
        invariant
            i <= app.inits@.len(),
            out@ == add_init_cores(Seq::<u8>::empty(), app.inits@.take(i as int)),
        decreases app.inits@.len() - i,
    {
        proof {
            app.inits@.lemma_take_succ_push(i as int);
            assert(app.inits@.take(i as int + 1).drop_last() =~= app.inits@.take(i as int));
        }
        crate::sets::insert_unique_u8(&mut out, app.inits[i].core);
        i = i + 1;
    }
    proof {
        assert(app.inits@.take(app.inits@.len() as int) =~= app.inits@);
    }
    let ghost base1 = out@;
    let mut i: usize = 0;
    while i < app.idles.len()
        invariant
            i <= app.idles@.len(),
            out@ == add_idle_cores(base1, app.idles@.take(i as int)),
            base1 == add_init_cores(Seq::<u8>::empty(), app.inits@),
        decreases app.idles@.len() - i,
    {
        proof {
            app.idles@.lemma_take_succ_push(i as int);
            assert(app.idles@.take(i as int + 1).drop_last() =~= app.idles@.take(i as int));
        }
        crate::sets::insert_unique_u8(&mut out, app.idles[i].core);
        i = i + 1;
    }
    proof {
        assert(app.idles@.take(app.idles@.len() as int) =~= app.idles@);
    }
    let ghost base2 = out@;
    let mut i: usize = 0;
    while i < app.hardware_tasks.len()
        invariant
            i <= app.hardware_tasks@.len(),
            out@ == add_hardware_cores(base2, app.hardware_tasks@.take(i as int)),
            base2 == add_idle_cores(add_init_cores(Seq::<u8>::empty(), app.inits@), app.idles@),
        decreases app.hardware_tasks@.len() - i,
    {
        proof {
            app.hardware_tasks@.lemma_take_succ_push(i as int);
            assert(app.hardware_tasks@.take(i as int + 1).drop_last() =~= app.hardware_tasks@.take(
                i as int,
            ));
        }
        crate::sets::insert_unique_u8(&mut out, app.hardware_tasks[i].core);
        i = i + 1;
    }
    proof {
        assert(app.hardware_tasks@.take(app.hardware_tasks@.len() as int)
            =~= app.hardware_tasks@);
    }
    let ghost base3 = out@;
    let mut i: usize = 0;
    while i < app.software_tasks.len()
        invariant
            i <= app.software_tasks@.len(),
            out@ == add_software_cores(base3, app.software_tasks@.take(i as int)),
            base3 == add_hardware_cores(
                add_idle_cores(add_init_cores(Seq::<u8>::empty(), app.inits@), app.idles@),
                app.hardware_tasks@,
            ),
        decreases app.software_tasks@.len() - i,
    {
        proof {
            app.software_tasks@.lemma_take_succ_push(i as int);
            assert(app.software_tasks@.take(i as int + 1).drop_last() =~= app.software_tasks@.take(
                i as int,
            ));
        }
        crate::sets::insert_unique_u8(&mut out, app.software_tasks[i].core);
        i = i + 1;
    }
    proof {
        assert(app.software_tasks@.take(app.software_tasks@.len() as int)
            =~= app.software_tasks@);
    }
    out
}

/// Analyzes a well-formed, validated application model and returns the
/// complete concurrency plan: ownership and location of every
/// resource, the late-resource partition with its cross-core startup
/// barriers, the two per-core capability sets, and the sized message
/// topology.
///
/// The task-count bound keeps every capacity sum representable.
pub fn app(model: &App) -> (a: Analysis)
    requires
        model.wf(),
        model.accesses_declared(),
        model.has_late() ==> model.at_most_one_implicit(),
        model.software_tasks@.len() <= 0xFFFF_FFFFusize,
    ensures
        analysis_matches(*model, a),
{
    let late_resources = assign_late_resources(model);
    let (locations, ownerships, sync_types) = analyze_resources(model);
    let initialization_barriers = crate::late::initialization_barriers(model, &late_resources);
    let send_types = send_types(model, &late_resources, &ownerships);
    let (channels, free_queues, timer_queues) = build_topology(model);
    let used_cores = collect_used_cores(model);
    Analysis {
        used_cores,
        channels,
        free_queues,
        late_resources,
        locations,
        ownerships,
        send_types,
        sync_types,
        initialization_barriers,
        timer_queues,
    }
}

} // verus!
