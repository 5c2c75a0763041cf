//! The application model: the immutable input of the analysis.
//!
//! Cores are numbered `0 .. cores`. Resources, software tasks and
//! hardware tasks are identified by their index in the respective
//! declaration list; data types and interrupt lines are identified by
//! opaque numeric identifiers chosen by the caller.

use vstd::prelude::*;

verus! {

/// How a context accesses a resource.
#[derive(Clone, Copy, Debug, PartialEq, Eq, Structural)]
pub enum Mode {
    /// Read-write access; demands mutual exclusion.
    Exclusive,
    /// Read-only access; may be concurrent with other shared accesses.
    Shared,
}

impl Mode {
    /// Whether this is the exclusive (read-write) mode.
    pub fn is_exclusive(&self) -> (r: bool)
        ensures
            r == (*self is Exclusive),
    {
        matches!(self, Mode::Exclusive)
    }

    /// Whether this is the shared (read-only) mode.
    pub fn is_shared(&self) -> (r: bool)
        ensures
            r == (*self is Shared),
    {
        matches!(self, Mode::Shared)
    }
}

/// A declared resource.
#[derive(Clone, Copy, Debug, PartialEq, Eq, Structural)]
pub struct Resource {
    /// Identifier of the resource's data type.
    pub ty: u32,
    /// Whether the resource's value is produced late, by an init routine,
    /// rather than given at declaration time.
    pub late: bool,
}

/// A software task: dispatched through a message channel by spawn or
/// schedule calls.
#[derive(Clone, Debug)]
pub struct SoftwareTask {
    /// The core the task runs on.
    pub core: u8,
    /// The task's fixed dispatch priority; higher preempts lower.
    pub priority: u8,
    /// How many pending messages the task's queue must hold.
    pub capacity: u8,
    /// Type identifiers of the task's input payload.
    pub inputs: Vec<u32>,
}

/// A hardware task: bound to an interrupt line.
#[derive(Clone, Copy, Debug, PartialEq, Eq, Structural)]
pub struct HardwareTask {
    /// The core the task runs on.
    pub core: u8,
    /// The task's fixed priority; higher preempts lower.
    pub priority: u8,
    /// Identifier of the interrupt line the task is bound to.
    pub binds: u32,
}

/// A per-core initialization routine. It runs before any task, at no
/// fixed priority.
#[derive(Clone, Debug)]
pub struct Init {
    /// The core the routine runs on.
    pub core: u8,
    /// Resource identifiers of the late resources this routine claims to
    /// produce. An empty list means the routine claims whatever late
    /// resources are left unclaimed by the other init routines.
    pub late: Vec<usize>,
    /// Resource identifiers of the (early) resources the routine asks to
    /// use while it runs.
    pub resources: Vec<usize>,
}

/// A per-core idle routine; it runs at priority 0 when no task is ready.
#[derive(Clone, Copy, Debug, PartialEq, Eq, Structural)]
pub struct Idle {
    /// The core the routine runs on.
    pub core: u8,
}

/// One resource access, as enumerated over every task, init and idle
/// declaration of the application.
#[derive(Clone, Copy, Debug)]
pub struct Access {
    /// The core the accessing context runs on.
    pub core: u8,
    /// The accessing context's priority; `None` exactly when the access
    /// originates from an init routine, which has no fixed priority and
    /// never takes a lock.
    pub priority: Option<u8>,
    /// The accessed resource's identifier.
    pub resource: usize,
    /// The access mode.
    pub mode: Mode,
}

/// One spawn or schedule call site.
#[derive(Clone, Copy, Debug)]
pub struct Call {
    /// The core the calling context runs on.
    pub core: u8,
    /// The calling context's priority; `None` exactly when the call
    /// originates from an init routine.
    pub priority: Option<u8>,
    /// The dispatched software task's identifier.
    pub task: usize,
}

/// The application model. Immutable during analysis.
#[derive(Clone, Debug)]
pub struct App {
    /// Number of cores; core identifiers are `0 .. cores`.
    pub cores: u8,
    /// Resource declarations, identified by index.
    pub resources: Vec<Resource>,
    /// Software task declarations, identified by index.
    pub software_tasks: Vec<SoftwareTask>,
    /// Hardware task declarations, identified by index.
    pub hardware_tasks: Vec<HardwareTask>,
    /// Init routines, at most one per core, in ascending core order.
    pub inits: Vec<Init>,
    /// Idle routines.
    pub idles: Vec<Idle>,
    /// Interrupt lines reserved to multiplex software-task dispatch.
    pub dispatchers: Vec<u32>,
    /// Every resource access of the application, in the fixed order the
    /// model enumerates them (stable over tasks, then init and idle use).
    pub resource_accesses: Vec<Access>,
    /// Every spawn call site, in the model's fixed enumeration order.
    pub spawn_calls: Vec<Call>,
    /// Every schedule call site, in the model's fixed enumeration order.
    pub schedule_calls: Vec<Call>,
}

impl App {
    /// Whether `r` is a declared resource identifier.
    pub open spec fn declared(self, r: usize) -> bool {
        r < self.resources@.len()
    }

    /// Whether `r` is a declared late resource.
    pub open spec fn is_late(self, r: usize) -> bool {
        self.declared(r) && self.resources@[r as int].late
    }

    /// Whether any late resource is declared.
    pub open spec fn has_late(self) -> bool {
        exists|r: usize| self.is_late(r)
    }

    /// Whether every enumerated access names a declared resource.
    pub open spec fn accesses_declared(self) -> bool {
        forall|i: int|
            0 <= i < self.resource_accesses@.len() ==> self.declared(
                #[trigger] self.resource_accesses@[i].resource,
            )
    }

    /// Whether init routine `i` claims late resource `r` explicitly.
    pub open spec fn init_claims(self, i: int, r: usize) -> bool {
        0 <= i < self.inits@.len() && self.inits@[i].late@.contains(r)
    }

    /// Whether some init routine claims late resource `r` explicitly.
    pub open spec fn explicitly_claimed(self, r: usize) -> bool {
        exists|i: int| #[trigger] self.init_claims(i, r)
    }

    /// Whether init routine `i` exists and omits an explicit late list,
    /// so that it implicitly claims every late resource left over.
    pub open spec fn implicit_claimant(self, i: int) -> bool {
        0 <= i < self.inits@.len() && self.inits@[i].late@.len() == 0
    }

    /// Whether at most one init routine omits an explicit late list.
    pub open spec fn at_most_one_implicit(self) -> bool {
        forall|i: int, j: int|
            #[trigger] self.implicit_claimant(i) && #[trigger] self.implicit_claimant(j) ==> i == j
    }

    /// Whether every spawn and schedule call dispatches a declared
    /// software task.
    pub open spec fn calls_declared(self) -> bool {
        &&& forall|i: int|
            0 <= i < self.spawn_calls@.len() ==> (#[trigger] self.spawn_calls@[i]).task
                < self.software_tasks@.len()
        &&& forall|i: int|
            0 <= i < self.schedule_calls@.len() ==> (#[trigger] self.schedule_calls@[i]).task
                < self.software_tasks@.len()
    }

    /// Whether every core named anywhere in the model is in `0 .. cores`.
    pub open spec fn cores_bounded(self) -> bool {
        &&& forall|i: int|
            0 <= i < self.inits@.len() ==> (#[trigger] self.inits@[i]).core < self.cores
        &&& forall|i: int|
            0 <= i < self.idles@.len() ==> (#[trigger] self.idles@[i]).core < self.cores
        &&& forall|i: int|
            0 <= i < self.hardware_tasks@.len() ==> (#[trigger] self.hardware_tasks@[i]).core
                < self.cores
        &&& forall|i: int|
            0 <= i < self.software_tasks@.len() ==> (#[trigger] self.software_tasks@[i]).core
                < self.cores
        &&& forall|i: int|
            0 <= i < self.resource_accesses@.len() ==> (#[trigger] self.resource_accesses@[i]).core
                < self.cores
        &&& forall|i: int|
            0 <= i < self.spawn_calls@.len() ==> (#[trigger] self.spawn_calls@[i]).core < self.cores
        &&& forall|i: int|
            0 <= i < self.schedule_calls@.len() ==> (#[trigger] self.schedule_calls@[i]).core
                < self.cores
    }

    /// Whether the init routines are declared in strictly ascending core
    /// order, so that there is at most one per core.
    pub open spec fn inits_ordered(self) -> bool {
        forall|i: int, j: int|
            0 <= i < j < self.inits@.len() ==> (#[trigger] self.inits@[i]).core
                < (#[trigger] self.inits@[j]).core
    }

    /// Whether every explicit late list names only declared late
    /// resources, in strictly ascending order.
    pub open spec fn init_late_lists_wf(self) -> bool {
        forall|i: int|
            0 <= i < self.inits@.len() ==> {
                let l = (#[trigger] self.inits@[i]).late@;
                &&& forall|j: int| 0 <= j < l.len() ==> self.is_late(#[trigger] l[j])
                &&& forall|j: int, k: int| 0 <= j < k < l.len() ==> l[j] < l[k]
            }
    }

    /// Whether no late resource is claimed explicitly by two init
    /// routines.
    pub open spec fn init_late_lists_disjoint(self) -> bool {
        forall|i: int, j: int, r: usize|
            #[trigger] self.init_claims(i, r) && #[trigger] self.init_claims(j, r) ==> i == j
    }

    /// Structural well-formedness of the model, as the parsing layer
    /// guarantees it: bounded cores, ordered init routines, well-formed
    /// and disjoint late lists, declared call targets and declared init
    /// resource lists.
    pub open spec fn wf(self) -> bool {
        &&& self.cores_bounded()
        &&& self.inits_ordered()
        &&& self.init_late_lists_wf()
        &&& self.init_late_lists_disjoint()
        &&& self.calls_declared()
        &&& forall|i: int, j: int|
            0 <= i < self.inits@.len() && 0 <= j < (#[trigger] self.inits@[i]).resources@.len()
                ==> self.declared(#[trigger] self.inits@[i].resources@[j])
    }
}

} // verus!
