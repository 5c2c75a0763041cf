//! Message topology: the spawn channels, their free queues and the
//! per-core timer queues, with ceilings and capacities.
//!
//! A channel is keyed by (receiving core, dispatch priority, sending
//! core); a free queue by (task, sending core); a timer queue by the
//! scheduling core. Spawn calls and schedule calls route through the
//! same channels and free queues — a scheduled dispatch is a producer
//! like any other, reaching the channel through its core's
//! timer-dispatch handler — while schedule calls alone build the timer
//! queues. Prioritized call sites raise the ceilings they contend for;
//! call sites from init (no priority) are recorded without raising
//! anything, except that a schedule call always raises the channel to
//! its timer handler's priority.

use vstd::prelude::*;

use crate::ast::{App, Call, SoftwareTask};
use crate::ownership::max_u8;
use crate::sets::{add_unique, insert_unique_usize, lemma_add_unique_contains,
    lemma_add_unique_no_duplicates};

verus! {

/// A message channel between a sending core and a dispatch priority of
/// a receiving core.
#[derive(Clone, Debug)]
pub struct Channel {
    /// The channel capacity: the exact sum of the declared capacities
    /// of the tasks routed through it.
    pub capacity: u64,
    /// The (sender side) priority ceiling of the channel; `None` while
    /// only init call sites, which contend with nothing, produce into
    /// it.
    pub ceiling: Option<u8>,
    /// The tasks that can be dispatched through this channel, in first
    /// routing order, without duplicates.
    pub tasks: Vec<usize>,
}

/// One channel, together with its key.
#[derive(Clone, Debug)]
pub struct ChannelEntry {
    /// The receiving core.
    pub receiver: u8,
    /// The dispatch priority on the receiving core.
    pub priority: u8,
    /// The sending core.
    pub sender: u8,
    /// The channel itself.
    pub channel: Channel,
}

/// The free queue returning consumed message slots of one task to one
/// sending core; its capacity is symmetric with the channel's and not
/// recorded.
#[derive(Clone, Copy, Debug)]
pub struct FreeQueueEntry {
    /// The dispatched task whose slots return through this queue.
    pub task: usize,
    /// The sending core.
    pub sender: u8,
    /// The priority ceiling; `None` while only init call sites use it.
    pub ceiling: Option<u8>,
}

/// The timer queue of one scheduling core.
#[derive(Clone, Debug)]
pub struct TimerQueue {
    /// The capacity: the exact sum of the declared capacities of the
    /// schedulable tasks.
    pub capacity: u64,
    /// The priority ceiling of the queue.
    pub ceiling: u8,
    /// Priority of the timer-dispatch handler: at least as high as the
    /// highest-priority task it can release.
    pub priority: u8,
    /// The tasks that can be scheduled on this queue, in first
    /// scheduling order, without duplicates.
    pub tasks: Vec<usize>,
}

impl Default for TimerQueue {
    /// An empty timer queue; handler priority and ceiling start at 1.
    fn default() -> (r: Self)
        ensures
            r.capacity == 0,
            r.ceiling == 1,
            r.priority == 1,
            r.tasks@ == Seq::<usize>::empty(),
    {
        let r = TimerQueue { capacity: 0, ceiling: 1, priority: 1, tasks: Vec::new() };
        proof {
            assert(r.tasks@ =~= Seq::<usize>::empty());
        }
        r
    }
}

/// One timer queue, together with its core.
#[derive(Clone, Debug)]
pub struct TimerQueueEntry {
    /// The scheduling core.
    pub core: u8,
    /// The timer queue itself.
    pub queue: TimerQueue,
}

/// Whether `call` routes through the channel keyed by receiver `rc`,
/// dispatch priority `dp` and sender `sc`.
pub open spec fn routes(call: Call, tasks: Seq<SoftwareTask>, rc: u8, dp: u8, sc: u8) -> bool {
    &&& call.task < tasks.len()
    &&& tasks[call.task as int].core == rc
    &&& tasks[call.task as int].priority == dp
    &&& call.core == sc
}

/// The channel keys of `base` extended by those of `calls`, each key in
/// first-encounter order.
pub open spec fn channel_keys_from(
    base: Seq<(u8, u8, u8)>,
    calls: Seq<Call>,
    tasks: Seq<SoftwareTask>,
) -> Seq<(u8, u8, u8)>
    decreases calls.len(),
{
    if calls.len() == 0 {
        base
    } else {
        let rest = channel_keys_from(base, calls.drop_last(), tasks);
        let call = calls.last();
        if call.task < tasks.len() {
            add_unique(
                rest,
                (tasks[call.task as int].core, tasks[call.task as int].priority, call.core),
            )
        } else {
            rest
        }
    }
}

/// The channel keys of the whole application: spawn calls first, then
/// schedule calls.
pub open spec fn channel_keys(app: App) -> Seq<(u8, u8, u8)> {
    channel_keys_from(
        channel_keys_from(Seq::empty(), app.spawn_calls@, app.software_tasks@),
        app.schedule_calls@,
        app.software_tasks@,
    )
}

/// The tasks of `base` extended by every task of `calls` routed through
/// the channel `(rc, dp, sc)`, in first routing order.
pub open spec fn routed_tasks_from(
    base: Seq<usize>,
    calls: Seq<Call>,
    tasks: Seq<SoftwareTask>,
    rc: u8,
    dp: u8,
    sc: u8,
) -> Seq<usize>
    decreases calls.len(),
{
    if calls.len() == 0 {
        base
    } else {
        let rest = routed_tasks_from(base, calls.drop_last(), tasks, rc, dp, sc);
        if routes(calls.last(), tasks, rc, dp, sc) {
            add_unique(rest, calls.last().task)
        } else {
            rest
        }
    }
}

/// The tasks routed through channel `(rc, dp, sc)` by the whole
/// application.
pub open spec fn channel_tasks(app: App, rc: u8, dp: u8, sc: u8) -> Seq<usize> {
    routed_tasks_from(
        routed_tasks_from(Seq::empty(), app.spawn_calls@, app.software_tasks@, rc, dp, sc),
        app.schedule_calls@,
        app.software_tasks@,
        rc,
        dp,
        sc,
    )
}

/// A running maximum over an optional ceiling.
pub open spec fn opt_max(o: Option<u8>, p: u8) -> Option<u8> {
    match o {
        None => Some(p),
        Some(q) => Some(max_u8(q, p)),
    }
}

/// The channel ceiling after the prioritized spawn call sites of
/// `calls` routed through `(rc, dp, sc)` have contended for it.
pub open spec fn spawn_ceiling_from(
    base: Option<u8>,
    calls: Seq<Call>,
    tasks: Seq<SoftwareTask>,
    rc: u8,
    dp: u8,
    sc: u8,
) -> Option<u8>
    decreases calls.len(),
{
    if calls.len() == 0 {
        base
    } else {
        let rest = spawn_ceiling_from(base, calls.drop_last(), tasks, rc, dp, sc);
        if routes(calls.last(), tasks, rc, dp, sc) {
            match calls.last().priority {
                Some(p) => opt_max(rest, p),
                None => rest,
            }
        } else {
            rest
        }
    }
}

/// The priority of core `c`'s timer-dispatch handler after the
/// schedule calls of `calls`: the maximum priority of the tasks it
/// releases, and at least 1.
pub open spec fn tq_priority_from(calls: Seq<Call>, tasks: Seq<SoftwareTask>, c: u8) -> u8
    decreases calls.len(),
{
    if calls.len() == 0 {
        1u8
    } else {
        let rest = tq_priority_from(calls.drop_last(), tasks, c);
        let call = calls.last();
        if call.core == c && call.task < tasks.len() {
            max_u8(rest, tasks[call.task as int].priority)
        } else {
            rest
        }
    }
}

/// The priority of core `c`'s timer-dispatch handler.
pub open spec fn tq_priority(app: App, c: u8) -> u8 {
    tq_priority_from(app.schedule_calls@, app.software_tasks@, c)
}

/// The channel ceiling after the schedule call sites of `calls` routed
/// through `(rc, dp, sc)` have contended for it: each raises the
/// channel to its own core's timer handler priority.
pub open spec fn sched_ceiling_from(
    app: App,
    base: Option<u8>,
    calls: Seq<Call>,
    rc: u8,
    dp: u8,
    sc: u8,
) -> Option<u8>
    decreases calls.len(),
{
    if calls.len() == 0 {
        base
    } else {
        let rest = sched_ceiling_from(app, base, calls.drop_last(), rc, dp, sc);
        if routes(calls.last(), app.software_tasks@, rc, dp, sc) {
            opt_max(rest, tq_priority(app, calls.last().core))
        } else {
            rest
        }
    }
}

/// The final ceiling of channel `(rc, dp, sc)`: prioritized spawners
/// first, then every scheduling timer handler.
pub open spec fn channel_ceiling(app: App, rc: u8, dp: u8, sc: u8) -> Option<u8> {
    sched_ceiling_from(
        app,
        spawn_ceiling_from(None, app.spawn_calls@, app.software_tasks@, rc, dp, sc),
        app.schedule_calls@,
        rc,
        dp,
        sc,
    )
}

/// The free-queue keys of `base` extended by those of `calls`:
/// (task, sending core), in first-encounter order.
pub open spec fn fq_keys_from(base: Seq<(usize, u8)>, calls: Seq<Call>) -> Seq<(usize, u8)>
    decreases calls.len(),
{
    if calls.len() == 0 {
        base
    } else {
        add_unique(
            fq_keys_from(base, calls.drop_last()),
            (calls.last().task, calls.last().core),
        )
    }
}

/// The free-queue keys of the whole application.
pub open spec fn fq_keys(app: App) -> Seq<(usize, u8)> {
    fq_keys_from(fq_keys_from(Seq::empty(), app.spawn_calls@), app.schedule_calls@)
}

/// The free-queue ceiling of `(task, sender)` after the prioritized
/// call sites of `calls` have contended for it.
pub open spec fn fq_ceiling_from(
    base: Option<u8>,
    calls: Seq<Call>,
    task: usize,
    sender: u8,
) -> Option<u8>
    decreases calls.len(),
{
    if calls.len() == 0 {
        base
    } else {
        let rest = fq_ceiling_from(base, calls.drop_last(), task, sender);
        let call = calls.last();
        if call.task == task && call.core == sender {
            match call.priority {
                Some(p) => opt_max(rest, p),
                None => rest,
            }
        } else {
            rest
        }
    }
}

/// The final free-queue ceiling of `(task, sender)`.
pub open spec fn fq_ceiling(app: App, task: usize, sender: u8) -> Option<u8> {
    fq_ceiling_from(fq_ceiling_from(None, app.spawn_calls@, task, sender), app.schedule_calls@, task, sender)
}

/// The scheduling cores, in first-encounter order.
pub open spec fn tq_cores_from(base: Seq<u8>, calls: Seq<Call>) -> Seq<u8>
    decreases calls.len(),
{
    if calls.len() == 0 {
        base
    } else {
        add_unique(tq_cores_from(base, calls.drop_last()), calls.last().core)
    }
}

/// The cores that own a timer queue.
pub open spec fn tq_cores(app: App) -> Seq<u8> {
    tq_cores_from(Seq::empty(), app.schedule_calls@)
}

/// The tasks schedulable on core `c`'s timer queue, in first scheduling
/// order.
pub open spec fn tq_tasks_from(base: Seq<usize>, calls: Seq<Call>, c: u8) -> Seq<usize>
    decreases calls.len(),
{
    if calls.len() == 0 {
        base
    } else {
        let rest = tq_tasks_from(base, calls.drop_last(), c);
        if calls.last().core == c {
            add_unique(rest, calls.last().task)
        } else {
            rest
        }
    }
}

/// The tasks schedulable on core `c`'s timer queue.
pub open spec fn tq_tasks(app: App, c: u8) -> Seq<usize> {
    tq_tasks_from(Seq::empty(), app.schedule_calls@, c)
}

/// The ceiling of core `c`'s timer queue after the prioritized
/// schedule call sites of `calls` have contended for it.
pub open spec fn tq_ceiling_from(base: u8, calls: Seq<Call>, c: u8) -> u8
    decreases calls.len(),
{
    if calls.len() == 0 {
        base
    } else {
        let rest = tq_ceiling_from(base, calls.drop_last(), c);
        let call = calls.last();
        if call.core == c {
            match call.priority {
                Some(p) => max_u8(rest, p),
                None => rest,
            }
        } else {
            rest
        }
    }
}

/// The final ceiling of core `c`'s timer queue: at least the handler's
/// priority, raised by every prioritized scheduler on that core.
pub open spec fn tq_ceiling(app: App, c: u8) -> u8 {
    tq_ceiling_from(tq_priority(app, c), app.schedule_calls@, c)
}

/// The sum of the declared capacities of the listed tasks.
pub open spec fn sum_capacities(ts: Seq<usize>, tasks: Seq<SoftwareTask>) -> int
    decreases ts.len(),
{
    if ts.len() == 0 {
        0
    } else {
        sum_capacities(ts.drop_last(), tasks) + (if ts.last() < tasks.len() {
            tasks[ts.last() as int].capacity as int
        } else {
            0
        })
    }
}

/// Every partial capacity sum is bounded by 255 per listed task.
pub proof fn lemma_sum_capacities_bound(ts: Seq<usize>, tasks: Seq<SoftwareTask>)
    ensures
        0 <= sum_capacities(ts, tasks) <= 255 * ts.len(),
    decreases ts.len(),
{
    if ts.len() > 0 {
        lemma_sum_capacities_bound(ts.drop_last(), tasks);
    }
}

/// A duplicate-free sequence of indices below `n` has at most `n`
/// elements.
pub proof fn lemma_distinct_bounded_len(s: Seq<usize>, n: int)
    requires
        s.no_duplicates(),
        forall|i: int| 0 <= i < s.len() ==> s[i] < n,
        0 <= n,
    ensures
        s.len() <= n,
{
    let f = |x: usize| x as int;
    let si = s.map_values(f);
    s.lemma_no_duplicates_injective(f);
    si.unique_seq_to_set();
    let range = vstd::set_lib::set_int_range(0, n);
    vstd::set_lib::lemma_int_range(0, n);
    assert(si.to_set().subset_of(range)) by {
        assert forall|x: int| si.to_set().contains(x) implies range.contains(x) by {
            let k = choose|k: int| 0 <= k < si.len() && si[k] == x;
            assert(s[k] < n);
        }
    }
    vstd::set_lib::lemma_len_subset(si.to_set(), range);
}

/// Law: removing one listed task from a channel or timer queue lowers
/// the capacity sum by exactly that task's declared capacity.
pub proof fn lemma_capacity_of_removed(ts: Seq<usize>, tasks: Seq<SoftwareTask>, k: int)
    requires
        0 <= k < ts.len(),
        ts[k] < tasks.len(),
    ensures
        sum_capacities(ts.remove(k), tasks) == sum_capacities(ts, tasks) - tasks[
            ts[k] as int
        ].capacity,
    decreases ts.len(),
{
    if k == ts.len() - 1 {
        assert(ts.remove(k) =~= ts.drop_last());
    } else {
        assert(ts.remove(k).drop_last() =~= ts.drop_last().remove(k));
        assert(ts.remove(k).last() == ts.last());
        lemma_capacity_of_removed(ts.drop_last(), tasks, k);
    }
}

/// The position of core `c`'s timer queue, if one exists yet.
fn find_tq(tqs: &Vec<TimerQueueEntry>, c: u8) -> (r: Option<usize>)
    ensures
        match r {
            Some(ix) => ix < tqs@.len() && tqs@[ix as int].core == c,
            None => forall|m: int| 0 <= m < tqs@.len() ==> tqs@[m].core != c,
        },
{
    let mut i: usize = 0;
    while i < tqs.len()
        invariant
            i <= tqs@.len(),
            forall|m: int| 0 <= m < i ==> tqs@[m].core != c,
        decreases tqs@.len() - i,
    {
        if tqs[i].core == c {
            return Some(i);
        }
        i = i + 1;
    }
    None
}

/// Builds the timer queues from the schedule calls: every scheduling
/// core receives a queue holding its schedulable tasks, with the
/// handler priority raised to the highest schedulee and the ceiling
/// equal to that priority; prioritized schedulers contend only later,
/// once the channels exist.
fn timer_pass(app: &App) -> (tqs: Vec<TimerQueueEntry>)
    requires
        app.calls_declared(),
    ensures
        tqs@.len() == tq_cores(*app).len(),
        forall|k: int| 0 <= k < tqs@.len() ==> (#[trigger] tqs@[k]).core == tq_cores(*app)[k],
        forall|k1: int, k2: int|
            0 <= k1 < k2 < tqs@.len() ==> (#[trigger] tqs@[k1]).core != (#[trigger] tqs@[k2]).core,
        forall|k: int|
            0 <= k < tqs@.len() ==> (#[trigger] tqs@[k]).queue.tasks@ == tq_tasks(
                *app,
                tqs@[k].core,
            ),
        forall|k: int|
            0 <= k < tqs@.len() ==> (#[trigger] tqs@[k]).queue.priority == tq_priority(
                *app,
                tqs@[k].core,
            ),
        forall|k: int|
            0 <= k < tqs@.len() ==> (#[trigger] tqs@[k]).queue.ceiling == tqs@[k].queue.priority,
        forall|k: int| 0 <= k < tqs@.len() ==> (#[trigger] tqs@[k]).queue.capacity == 0,
        forall|k: int|
            0 <= k < tqs@.len() ==> (#[trigger] tqs@[k]).queue.tasks@.no_duplicates(),
        forall|k: int, j: int|
            0 <= k < tqs@.len() && 0 <= j < (#[trigger] tqs@[k]).queue.tasks@.len()
                ==> (#[trigger] tqs@[k].queue.tasks@[j]) < app.software_tasks@.len(),
        forall|k: int| 0 <= k < tqs@.len() ==> (#[trigger] tqs@[k]).queue.tasks@.len() > 0,
{
    let ghost scheds = app.schedule_calls@;
    let ghost tasks = app.software_tasks@;
    let mut tqs: Vec<TimerQueueEntry> = Vec::new();
    let mut i: usize = 0;
    while i < app.schedule_calls.len()
        invariant
            i <= scheds.len(),
            scheds == app.schedule_calls@,
            tasks == app.software_tasks@,
            app.calls_declared(),
            tqs@.len() == tq_cores_from(Seq::empty(), scheds.take(i as int)).len(),
            forall|k: int|
                0 <= k < tqs@.len() ==> (#[trigger] tqs@[k]).core == tq_cores_from(
                    Seq::empty(),
                    scheds.take(i as int),
                )[k],
            forall|k1: int, k2: int|
                0 <= k1 < k2 < tqs@.len() ==> (#[trigger] tqs@[k1]).core
                    != (#[trigger] tqs@[k2]).core,
            forall|k: int|
                0 <= k < tqs@.len() ==> (#[trigger] tqs@[k]).queue.tasks@ == tq_tasks_from(
                    Seq::empty(),
                    scheds.take(i as int),
                    tqs@[k].core,
                ),
            forall|k: int|
                0 <= k < tqs@.len() ==> (#[trigger] tqs@[k]).queue.priority == tq_priority_from(
                    scheds.take(i as int),
                    tasks,
                    tqs@[k].core,
                ),
            forall|k: int|
                0 <= k < tqs@.len() ==> (#[trigger] tqs@[k]).queue.ceiling
                    == tqs@[k].queue.priority,
            forall|k: int| 0 <= k < tqs@.len() ==> (#[trigger] tqs@[k]).queue.capacity == 0,
            forall|k: int|
                0 <= k < tqs@.len() ==> (#[trigger] tqs@[k]).queue.tasks@.no_duplicates(),
            forall|k: int, j: int|
                0 <= k < tqs@.len() && 0 <= j < (#[trigger] tqs@[k]).queue.tasks@.len()
                    ==> (#[trigger] tqs@[k].queue.tasks@[j]) < tasks.len(),
            forall|k: int| 0 <= k < tqs@.len() ==> (#[trigger] tqs@[k]).queue.tasks@.len() > 0,
        decreases scheds.len() - i,
    {
        let call = app.schedule_calls[i];
        let ghost prefix = scheds.take(i as int);
        proof {
            scheds.lemma_take_succ_push(i as int);
            assert(scheds.take(i as int + 1) == prefix.push(call));
            assert(scheds.take(i as int + 1).drop_last() =~= prefix);
            assert(tq_cores_from(Seq::empty(), scheds.take(i as int + 1)) == add_unique(
                tq_cores_from(Seq::empty(), prefix),
                call.core,
            ));
            assert forall|c: u8|
                tq_tasks_from(Seq::empty(), scheds.take(i as int + 1), c) == (if call.core == c {
                    add_unique(tq_tasks_from(Seq::empty(), prefix, c), call.task)
                } else {
                    tq_tasks_from(Seq::empty(), prefix, c)
                }) by {}
            assert forall|c: u8|
                tq_priority_from(scheds.take(i as int + 1), tasks, c) == (if call.core == c {
                    max_u8(
                        tq_priority_from(prefix, tasks, c),
                        tasks[call.task as int].priority,
                    )
                } else {
                    tq_priority_from(prefix, tasks, c)
                }) by {
                assert(call.task < tasks.len());
            }
        }
        let ghost cores_before = tq_cores_from(Seq::empty(), prefix);
        let ix = match find_tq(&tqs, call.core) {
            Some(ix) => ix,
            None => {
                proof {
                    // the core is new: its key extends the core list
                    assert forall|m: int|
                        0 <= m < cores_before.len() implies cores_before[m] != call.core by {
                        assert(tqs@[m].core == cores_before[m]);
                    }
                    if cores_before.contains(call.core) {
                        let m = choose|m: int|
                            0 <= m < cores_before.len() && cores_before[m] == call.core;
                        assert(false);
                    }
                }
                tqs.push(TimerQueueEntry { core: call.core, queue: TimerQueue::default() });
                proof {
                    assert(tq_tasks_from(Seq::empty(), prefix, call.core) =~= Seq::<
                        usize,
                    >::empty()) by {
                        lemma_tq_tasks_of_absent_core(prefix, call.core, cores_before);
                    }
                    assert(tq_priority_from(prefix, tasks, call.core) == 1) by {
                        lemma_tq_priority_of_absent_core(prefix, tasks, call.core, cores_before);
                    }
                }
                tqs.len() - 1
            },
        };
        proof {
            assert(add_unique(cores_before, call.core).len() == tqs@.len());
        }
        let t_prio = app.software_tasks[call.task].priority;
        let e = &mut tqs[ix];
        let ghost entry_tasks = e.queue.tasks@;
        insert_unique_usize(&mut e.queue.tasks, call.task);
        if t_prio > e.queue.priority {
            e.queue.priority = t_prio;
        }
        e.queue.ceiling = e.queue.priority;
        proof {
            lemma_add_unique_no_duplicates(entry_tasks, call.task);
            assert(tqs@[ix as int].queue.tasks@ == add_unique(entry_tasks, call.task));
            assert forall|k: int| 0 <= k < tqs@.len() implies (#[trigger] tqs@[k]).queue.tasks@
                == tq_tasks_from(Seq::empty(), scheds.take(i as int + 1), tqs@[k].core) by {
                if k != ix as int {
                    assert(tqs@[k].core != call.core);
                }
            }
            assert forall|k: int, j: int|
                0 <= k < tqs@.len() && 0 <= j < (#[trigger] tqs@[k]).queue.tasks@.len()
                    implies (#[trigger] tqs@[k].queue.tasks@[j]) < tasks.len() by {
                if k == ix as int && !entry_tasks.contains(call.task) && j == tqs@[
                    k
                ].queue.tasks@.len() - 1 {
                    assert(tqs@[k].queue.tasks@[j] == call.task);
                }
            }
        }
        i = i + 1;
    }
    proof {
        assert(scheds.take(scheds.len() as int) =~= scheds);
    }
    tqs
}

/// A core outside the listed scheduling cores schedules nothing.
proof fn lemma_tq_tasks_of_absent_core(calls: Seq<Call>, c: u8, cores: Seq<u8>)
    requires
        cores == tq_cores_from(Seq::<u8>::empty(), calls),
        !cores.contains(c),
    ensures
        tq_tasks_from(Seq::empty(), calls, c) == Seq::<usize>::empty(),
    decreases calls.len(),
{
    if calls.len() > 0 {
        let rest_cores = tq_cores_from(Seq::<u8>::empty(), calls.drop_last());
        lemma_add_unique_contains(rest_cores, calls.last().core, c);
        assert(!rest_cores.contains(c)) by {
            if rest_cores.contains(c) {
                assert(add_unique(rest_cores, calls.last().core).contains(c));
            }
        }
        lemma_tq_tasks_of_absent_core(calls.drop_last(), c, rest_cores);
        assert(calls.last().core != c) by {
            if calls.last().core == c {
                assert(add_unique(rest_cores, calls.last().core).contains(c)) by {
                    lemma_add_unique_contains(rest_cores, c, c);
                }
            }
        }
    }
}

/// A core outside the listed scheduling cores keeps the base handler
/// priority 1.
proof fn lemma_tq_priority_of_absent_core(
    calls: Seq<Call>,
    tasks: Seq<SoftwareTask>,
    c: u8,
    cores: Seq<u8>,
)
    requires
        cores == tq_cores_from(Seq::<u8>::empty(), calls),
        !cores.contains(c),
    ensures
        tq_priority_from(calls, tasks, c) == 1,
    decreases calls.len(),
{
    if calls.len() > 0 {
        let rest_cores = tq_cores_from(Seq::<u8>::empty(), calls.drop_last());
        assert(!rest_cores.contains(c)) by {
            if rest_cores.contains(c) {
                lemma_add_unique_contains(rest_cores, calls.last().core, c);
            }
        }
        lemma_tq_priority_of_absent_core(calls.drop_last(), tasks, c, rest_cores);
        assert(calls.last().core != c) by {
            if calls.last().core == c {
                lemma_add_unique_contains(rest_cores, c, c);
            }
        }
    }
}

/// The position of the channel keyed `(rc, dp, sc)`, if one exists yet.
fn find_channel(chs: &Vec<ChannelEntry>, rc: u8, dp: u8, sc: u8) -> (r: Option<usize>)
    ensures
        match r {
            Some(ix) => ix < chs@.len() && chs@[ix as int].receiver == rc && chs@[
                ix as int
            ].priority == dp && chs@[ix as int].sender == sc,
            None => forall|m: int|
                0 <= m < chs@.len() ==> !((#[trigger] chs@[m]).receiver == rc && chs@[m].priority
                    == dp && chs@[m].sender == sc),
        },
{
    let mut i: usize = 0;
    while i < chs.len()
        invariant
            i <= chs@.len(),
            forall|m: int|
                0 <= m < i ==> !((#[trigger] chs@[m]).receiver == rc && chs@[m].priority == dp
                    && chs@[m].sender == sc),
        decreases chs@.len() - i,
    {
        if chs[i].receiver == rc && chs[i].priority == dp && chs[i].sender == sc {
            return Some(i);
        }
        i = i + 1;
    }
    None
}

/// The position of the free queue keyed `(task, sender)`, if one
/// exists yet.
fn find_fq(fqs: &Vec<FreeQueueEntry>, task: usize, sender: u8) -> (r: Option<usize>)
    ensures
        match r {
            Some(ix) => ix < fqs@.len() && fqs@[ix as int].task == task && fqs@[
                ix as int
            ].sender == sender,
            None => forall|m: int|
                0 <= m < fqs@.len() ==> !((#[trigger] fqs@[m]).task == task && fqs@[m].sender
                    == sender),
        },
{
    let mut i: usize = 0;
    while i < fqs.len()
        invariant
            i <= fqs@.len(),
            forall|m: int|
                0 <= m < i ==> !((#[trigger] fqs@[m]).task == task && fqs@[m].sender == sender),
        decreases fqs@.len() - i,
    {
        if fqs[i].task == task && fqs[i].sender == sender {
            return Some(i);
        }
        i = i + 1;
    }
    None
}

/// A key outside the listed channel keys is routed by no call: its
/// task list stays at the base and prioritized spawners leave its
/// ceiling alone.
proof fn lemma_channel_absent_key(
    calls: Seq<Call>,
    tasks: Seq<SoftwareTask>,
    keys: Seq<(u8, u8, u8)>,
    rc: u8,
    dp: u8,
    sc: u8,
)
    requires
        keys == channel_keys_from(Seq::<(u8, u8, u8)>::empty(), calls, tasks),
        !keys.contains((rc, dp, sc)),
    ensures
        routed_tasks_from(Seq::empty(), calls, tasks, rc, dp, sc) == Seq::<usize>::empty(),
        spawn_ceiling_from(None, calls, tasks, rc, dp, sc) is None,
    decreases calls.len(),
{
    if calls.len() > 0 {
        let call = calls.last();
        let rest_keys = channel_keys_from(Seq::<(u8, u8, u8)>::empty(), calls.drop_last(), tasks);
        assert(!rest_keys.contains((rc, dp, sc))) by {
            if rest_keys.contains((rc, dp, sc)) {
                if call.task < tasks.len() {
                    lemma_add_unique_contains(
                        rest_keys,
                        (tasks[call.task as int].core, tasks[call.task as int].priority, call.core),
                        (rc, dp, sc),
                    );
                }
            }
        }
        lemma_channel_absent_key(calls.drop_last(), tasks, rest_keys, rc, dp, sc);
        assert(!routes(call, tasks, rc, dp, sc)) by {
            if routes(call, tasks, rc, dp, sc) {
                lemma_add_unique_contains(rest_keys, (rc, dp, sc), (rc, dp, sc));
            }
        }
    }
}

/// A key outside the listed free-queue keys is used by no call: its
/// ceiling stays at the base.
proof fn lemma_fq_absent_key(calls: Seq<Call>, keys: Seq<(usize, u8)>, task: usize, sender: u8)
    requires
        keys == fq_keys_from(Seq::<(usize, u8)>::empty(), calls),
        !keys.contains((task, sender)),
    ensures
        fq_ceiling_from(None, calls, task, sender) is None,
    decreases calls.len(),
{
    if calls.len() > 0 {
        let call = calls.last();
        let rest_keys = fq_keys_from(Seq::<(usize, u8)>::empty(), calls.drop_last());
        assert(!rest_keys.contains((task, sender))) by {
            if rest_keys.contains((task, sender)) {
                lemma_add_unique_contains(rest_keys, (call.task, call.core), (task, sender));
            }
        }
        lemma_fq_absent_key(calls.drop_last(), rest_keys, task, sender);
        assert(!(call.task == task && call.core == sender)) by {
            if call.task == task && call.core == sender {
                lemma_add_unique_contains(rest_keys, (task, sender), (task, sender));
            }
        }
    }
}

/// Builds the channels and free queues from the spawn calls: every
/// spawn call routes its task through the channel towards the task's
/// core and priority, and prioritized spawners raise both ceilings.
fn spawn_pass(app: &App) -> (r: (Vec<ChannelEntry>, Vec<FreeQueueEntry>))
    requires
        app.calls_declared(),
    ensures
        ({
            let chs = r.0@;
            let spawns = app.spawn_calls@;
            let tasks = app.software_tasks@;
            &&& chs.len() == channel_keys_from(Seq::empty(), spawns, tasks).len()
            &&& forall|k: int|
                0 <= k < chs.len() ==> ((#[trigger] chs[k]).receiver, chs[k].priority,
                chs[k].sender) == channel_keys_from(Seq::empty(), spawns, tasks)[k]
            &&& forall|k1: int, k2: int|
                0 <= k1 < k2 < chs.len() ==> !((#[trigger] chs[k1]).receiver == (
                #[trigger] chs[k2]).receiver && chs[k1].priority == chs[k2].priority && chs[
                    k1
                ].sender == chs[k2].sender)
            &&& forall|k: int|
                0 <= k < chs.len() ==> (#[trigger] chs[k]).channel.tasks@ == routed_tasks_from(
                    Seq::empty(),
                    spawns,
                    tasks,
                    chs[k].receiver,
                    chs[k].priority,
                    chs[k].sender,
                )
            &&& forall|k: int|
                0 <= k < chs.len() ==> (#[trigger] chs[k]).channel.ceiling == spawn_ceiling_from(
                    None,
                    spawns,
                    tasks,
                    chs[k].receiver,
                    chs[k].priority,
                    chs[k].sender,
                )
            &&& forall|k: int| 0 <= k < chs.len() ==> (#[trigger] chs[k]).channel.capacity == 0
            &&& forall|k: int|
                0 <= k < chs.len() ==> (#[trigger] chs[k]).channel.tasks@.no_duplicates()
            &&& forall|k: int, j: int|
                0 <= k < chs.len() && 0 <= j < (#[trigger] chs[k]).channel.tasks@.len() ==> (
                #[trigger] chs[k].channel.tasks@[j]) < tasks.len()
            &&& forall|k: int| 0 <= k < chs.len() ==> (#[trigger] chs[k]).channel.tasks@.len() > 0
        }),
        ({
            let fqs = r.1@;
            let spawns = app.spawn_calls@;
            &&& fqs.len() == fq_keys_from(Seq::empty(), spawns).len()
            &&& forall|k: int|
                0 <= k < fqs.len() ==> ((#[trigger] fqs[k]).task, fqs[k].sender) == fq_keys_from(
                    Seq::empty(),
                    spawns,
                )[k]
            &&& forall|k1: int, k2: int|
                0 <= k1 < k2 < fqs.len() ==> !((#[trigger] fqs[k1]).task == (
                #[trigger] fqs[k2]).task && fqs[k1].sender == fqs[k2].sender)
            &&& forall|k: int|
                0 <= k < fqs.len() ==> (#[trigger] fqs[k]).ceiling == fq_ceiling_from(
                    None,
                    spawns,
                    fqs[k].task,
                    fqs[k].sender,
                )
        }),
{
    let ghost spawns = app.spawn_calls@;
    let ghost tasks = app.software_tasks@;
    let mut chs: Vec<ChannelEntry> = Vec::new();
    let mut fqs: Vec<FreeQueueEntry> = Vec::new();
    let mut i: usize = 0;
    while i < app.spawn_calls.len()
        invariant
            i <= spawns.len(),
            spawns == app.spawn_calls@,
            tasks == app.software_tasks@,
            app.calls_declared(),
            chs@.len() == channel_keys_from(Seq::empty(), spawns.take(i as int), tasks).len(),
            forall|k: int|
                0 <= k < chs@.len() ==> ((#[trigger] chs@[k]).receiver, chs@[k].priority,
                chs@[k].sender) == channel_keys_from(Seq::empty(), spawns.take(i as int), tasks)[k],
            forall|k1: int, k2: int|
                0 <= k1 < k2 < chs@.len() ==> !((#[trigger] chs@[k1]).receiver == (
                #[trigger] chs@[k2]).receiver && chs@[k1].priority == chs@[k2].priority
                    && chs@[k1].sender == chs@[k2].sender),
            forall|k: int|
                0 <= k < chs@.len() ==> (#[trigger] chs@[k]).channel.tasks@ == routed_tasks_from(
                    Seq::empty(),
                    spawns.take(i as int),
                    tasks,
                    chs@[k].receiver,
                    chs@[k].priority,
                    chs@[k].sender,
                ),
            forall|k: int|
                0 <= k < chs@.len() ==> (#[trigger] chs@[k]).channel.ceiling == spawn_ceiling_from(
                    None,
                    spawns.take(i as int),
                    tasks,
                    chs@[k].receiver,
                    chs@[k].priority,
                    chs@[k].sender,
                ),
            forall|k: int| 0 <= k < chs@.len() ==> (#[trigger] chs@[k]).channel.capacity == 0,
            forall|k: int|
                0 <= k < chs@.len() ==> (#[trigger] chs@[k]).channel.tasks@.no_duplicates(),
            forall|k: int, j: int|
                0 <= k < chs@.len() && 0 <= j < (#[trigger] chs@[k]).channel.tasks@.len() ==> (
                #[trigger] chs@[k].channel.tasks@[j]) < tasks.len(),
            forall|k: int| 0 <= k < chs@.len() ==> (#[trigger] chs@[k]).channel.tasks@.len() > 0,
            fqs@.len() == fq_keys_from(Seq::empty(), spawns.take(i as int)).len(),
            forall|k: int|
                0 <= k < fqs@.len() ==> ((#[trigger] fqs@[k]).task, fqs@[k].sender)
                    == fq_keys_from(Seq::empty(), spawns.take(i as int))[k],
            forall|k1: int, k2: int|
                0 <= k1 < k2 < fqs@.len() ==> !((#[trigger] fqs@[k1]).task == (
                #[trigger] fqs@[k2]).task && fqs@[k1].sender == fqs@[k2].sender),
            forall|k: int|
                0 <= k < fqs@.len() ==> (#[trigger] fqs@[k]).ceiling == fq_ceiling_from(
                    None,
                    spawns.take(i as int),
                    fqs@[k].task,
                    fqs@[k].sender,
                ),
        decreases spawns.len() - i,
    {
        let call = app.spawn_calls[i];
        let ghost prefix = spawns.take(i as int);
        let rc = app.software_tasks[call.task].core;
        let dp = app.software_tasks[call.task].priority;
        let sc = call.core;
        proof {
            spawns.lemma_take_succ_push(i as int);
            assert(spawns.take(i as int + 1) == prefix.push(call));
            assert(spawns.take(i as int + 1).drop_last() =~= prefix);
            assert(channel_keys_from(Seq::empty(), spawns.take(i as int + 1), tasks) == add_unique(
                channel_keys_from(Seq::empty(), prefix, tasks),
                (rc, dp, sc),
            ));
            assert(fq_keys_from(Seq::empty(), spawns.take(i as int + 1)) == add_unique(
                fq_keys_from(Seq::empty(), prefix),
                (call.task, call.core),
            ));
            assert forall|a: u8, b: u8, c: u8|
                routed_tasks_from(Seq::empty(), spawns.take(i as int + 1), tasks, a, b, c) == (
                if routes(call, tasks, a, b, c) {
                    add_unique(routed_tasks_from(Seq::empty(), prefix, tasks, a, b, c), call.task)
                } else {
                    routed_tasks_from(Seq::empty(), prefix, tasks, a, b, c)
                }) by {}
            assert forall|a: u8, b: u8, c: u8|
                spawn_ceiling_from(None, spawns.take(i as int + 1), tasks, a, b, c) == (if routes(
                    call,
                    tasks,
                    a,
                    b,
                    c,
                ) {
                    match call.priority {
                        Some(p) => opt_max(spawn_ceiling_from(None, prefix, tasks, a, b, c), p),
                        None => spawn_ceiling_from(None, prefix, tasks, a, b, c),
                    }
                } else {
                    spawn_ceiling_from(None, prefix, tasks, a, b, c)
                }) by {}
            assert forall|t: usize, s: u8|
                fq_ceiling_from(None, spawns.take(i as int + 1), t, s) == (if call.task == t
                    && call.core == s {
                    match call.priority {
                        Some(p) => opt_max(fq_ceiling_from(None, prefix, t, s), p),
                        None => fq_ceiling_from(None, prefix, t, s),
                    }
                } else {
                    fq_ceiling_from(None, prefix, t, s)
                }) by {}
            assert(routes(call, tasks, rc, dp, sc));
        }
        let ghost chan_keys_before = channel_keys_from(Seq::empty(), prefix, tasks);
        let cix = match find_channel(&chs, rc, dp, sc) {
            Some(ix) => ix,
            None => {
                proof {
                    if chan_keys_before.contains((rc, dp, sc)) {
                        let m = choose|m: int|
                            0 <= m < chan_keys_before.len() && chan_keys_before[m] == (rc, dp, sc);
                        assert(((#[trigger] chs@[m]).receiver, chs@[m].priority, chs@[m].sender)
                            == chan_keys_before[m]);
                        assert(false);
                    }
                    lemma_channel_absent_key(prefix, tasks, chan_keys_before, rc, dp, sc);
                }
                chs.push(
                    ChannelEntry {
                        receiver: rc,
                        priority: dp,
                        sender: sc,
                        channel: Channel { capacity: 0, ceiling: None, tasks: Vec::new() },
                    },
                );
                proof {
                    assert(chs@[chs@.len() - 1].channel.tasks@ =~= Seq::<usize>::empty());
                }
                chs.len() - 1
            },
        };
        proof {
            assert(add_unique(chan_keys_before, (rc, dp, sc)).len() == chs@.len());
        }
        let e = &mut chs[cix];
        let ghost entry_tasks = e.channel.tasks@;
        insert_unique_usize(&mut e.channel.tasks, call.task);
        match call.priority {
            Some(p) => {
                e.channel.ceiling = match e.channel.ceiling {
                    None => Some(p),
                    Some(q) => if q >= p {
                        Some(q)
                    } else {
                        Some(p)
                    },
                };
            },
            None => {},
        }
        proof {
            lemma_add_unique_no_duplicates(entry_tasks, call.task);
            assert forall|k: int| 0 <= k < chs@.len() implies (#[trigger] chs@[k]).channel.tasks@
                == routed_tasks_from(
                Seq::empty(),
                spawns.take(i as int + 1),
                tasks,
                chs@[k].receiver,
                chs@[k].priority,
                chs@[k].sender,
            ) by {
                if k != cix as int {
                    assert(!routes(call, tasks, chs@[k].receiver, chs@[k].priority, chs@[k].sender));
                }
            }
            assert forall|k: int| 0 <= k < chs@.len() implies (#[trigger] chs@[k]).channel.ceiling
                == spawn_ceiling_from(
                None,
                spawns.take(i as int + 1),
                tasks,
                chs@[k].receiver,
                chs@[k].priority,
                chs@[k].sender,
            ) by {
                if k != cix as int {
                    assert(!routes(call, tasks, chs@[k].receiver, chs@[k].priority, chs@[k].sender));
                }
            }
            assert forall|k: int, j: int|
                0 <= k < chs@.len() && 0 <= j < (#[trigger] chs@[k]).channel.tasks@.len() implies (
            #[trigger] chs@[k].channel.tasks@[j]) < tasks.len() by {
                if k == cix as int && !entry_tasks.contains(call.task) && j == chs@[
                    k
                ].channel.tasks@.len() - 1 {
                    assert(chs@[k].channel.tasks@[j] == call.task);
                }
            }
        }
        let ghost fq_keys_before = fq_keys_from(Seq::empty(), prefix);
        let fix = match find_fq(&fqs, call.task, call.core) {
            Some(ix) => ix,
            None => {
                proof {
                    if fq_keys_before.contains((call.task, call.core)) {
                        let m = choose|m: int|
                            0 <= m < fq_keys_before.len() && fq_keys_before[m] == (
                            call.task,
                            call.core,
                            );
                        assert(((#[trigger] fqs@[m]).task, fqs@[m].sender) == fq_keys_before[m]);
                        assert(false);
                    }
                    lemma_fq_absent_key(prefix, fq_keys_before, call.task, call.core);
                }
                fqs.push(FreeQueueEntry { task: call.task, sender: call.core, ceiling: None });
                fqs.len() - 1
            },
        };
        proof {
            assert(add_unique(fq_keys_before, (call.task, call.core)).len() == fqs@.len());
        }
        match call.priority {
            Some(p) => {
                let f = &mut fqs[fix];
                f.ceiling = match f.ceiling {
                    None => Some(p),
                    Some(q) => if q >= p {
                        Some(q)
                    } else {
                        Some(p)
                    },
                };
            },
            None => {},
        }
        proof {
            assert forall|k: int| 0 <= k < fqs@.len() implies (#[trigger] fqs@[k]).ceiling
                == fq_ceiling_from(
                None,
                spawns.take(i as int + 1),
                fqs@[k].task,
                fqs@[k].sender,
            ) by {
                if k != fix as int {
                    assert(!(call.task == fqs@[k].task && call.core == fqs@[k].sender));
                }
            }
        }
        i = i + 1;
    }
    proof {
        assert(spawns.take(spawns.len() as int) =~= spawns);
    }
    (chs, fqs)
}

/// A key outside the extended channel-key list was neither in the base
/// list nor routed by any of the calls.
proof fn lemma_chan_keys_no_route(
    base: Seq<(u8, u8, u8)>,
    calls: Seq<Call>,
    tasks: Seq<SoftwareTask>,
    rc: u8,
    dp: u8,
    sc: u8,
)
    requires
        !channel_keys_from(base, calls, tasks).contains((rc, dp, sc)),
    ensures
        !base.contains((rc, dp, sc)),
        forall|j: int| 0 <= j < calls.len() ==> !routes(#[trigger] calls[j], tasks, rc, dp, sc),
    decreases calls.len(),
{
    if calls.len() > 0 {
        let call = calls.last();
        let rest = channel_keys_from(base, calls.drop_last(), tasks);
        assert(!rest.contains((rc, dp, sc))) by {
            if rest.contains((rc, dp, sc)) {
                if call.task < tasks.len() {
                    lemma_add_unique_contains(
                        rest,
                        (tasks[call.task as int].core, tasks[call.task as int].priority, call.core),
                        (rc, dp, sc),
                    );
                }
            }
        }
        lemma_chan_keys_no_route(base, calls.drop_last(), tasks, rc, dp, sc);
        assert(!routes(call, tasks, rc, dp, sc)) by {
            if routes(call, tasks, rc, dp, sc) {
                lemma_add_unique_contains(rest, (rc, dp, sc), (rc, dp, sc));
            }
        }
        assert forall|j: int|
            0 <= j < calls.len() implies !routes(#[trigger] calls[j], tasks, rc, dp, sc) by {
            if j < calls.len() - 1 {
                assert(calls.drop_last()[j] == calls[j]);
            }
        }
    }
}

/// Calls that never route a key leave its task list alone.
proof fn lemma_routed_tasks_unrouted(
    base: Seq<usize>,
    calls: Seq<Call>,
    tasks: Seq<SoftwareTask>,
    rc: u8,
    dp: u8,
    sc: u8,
)
    requires
        forall|j: int| 0 <= j < calls.len() ==> !routes(#[trigger] calls[j], tasks, rc, dp, sc),
    ensures
        routed_tasks_from(base, calls, tasks, rc, dp, sc) == base,
    decreases calls.len(),
{
    if calls.len() > 0 {
        assert forall|j: int|
            0 <= j < calls.len() - 1 implies !routes(
            #[trigger] calls.drop_last()[j],
            tasks,
            rc,
            dp,
            sc,
        ) by {
            assert(calls.drop_last()[j] == calls[j]);
        }
        lemma_routed_tasks_unrouted(base, calls.drop_last(), tasks, rc, dp, sc);
        assert(!routes(calls[calls.len() - 1], tasks, rc, dp, sc));
    }
}

/// Calls that never route a key leave its scheduled ceiling alone.
proof fn lemma_sched_ceiling_unrouted(
    app: App,
    base: Option<u8>,
    calls: Seq<Call>,
    rc: u8,
    dp: u8,
    sc: u8,
)
    requires
        forall|j: int|
            0 <= j < calls.len() ==> !routes(
                #[trigger] calls[j],
                app.software_tasks@,
                rc,
                dp,
                sc,
            ),
    ensures
        sched_ceiling_from(app, base, calls, rc, dp, sc) == base,
    decreases calls.len(),
{
    if calls.len() > 0 {
        assert forall|j: int|
            0 <= j < calls.len() - 1 implies !routes(
            #[trigger] calls.drop_last()[j],
            app.software_tasks@,
            rc,
            dp,
            sc,
        ) by {
            assert(calls.drop_last()[j] == calls[j]);
        }
        lemma_sched_ceiling_unrouted(app, base, calls.drop_last(), rc, dp, sc);
        assert(!routes(calls[calls.len() - 1], app.software_tasks@, rc, dp, sc));
    }
}

/// A key outside the extended free-queue key list was neither in the
/// base list nor used by any of the calls.
proof fn lemma_fq_keys_no_use(base: Seq<(usize, u8)>, calls: Seq<Call>, task: usize, sender: u8)
    requires
        !fq_keys_from(base, calls).contains((task, sender)),
    ensures
        !base.contains((task, sender)),
        forall|j: int|
            0 <= j < calls.len() ==> !((#[trigger] calls[j]).task == task && calls[j].core
                == sender),
    decreases calls.len(),
{
    if calls.len() > 0 {
        let call = calls.last();
        let rest = fq_keys_from(base, calls.drop_last());
        assert(!rest.contains((task, sender))) by {
            if rest.contains((task, sender)) {
                lemma_add_unique_contains(rest, (call.task, call.core), (task, sender));
            }
        }
        lemma_fq_keys_no_use(base, calls.drop_last(), task, sender);
        assert(!(call.task == task && call.core == sender)) by {
            if call.task == task && call.core == sender {
                lemma_add_unique_contains(rest, (task, sender), (task, sender));
            }
        }
        assert forall|j: int|
            0 <= j < calls.len() implies !((#[trigger] calls[j]).task == task && calls[j].core
                == sender) by {
            if j < calls.len() - 1 {
                assert(calls.drop_last()[j] == calls[j]);
            }
        }
    }
}

/// Calls that never use a free queue leave its ceiling alone.
proof fn lemma_fq_ceiling_unused(base: Option<u8>, calls: Seq<Call>, task: usize, sender: u8)
    requires
        forall|j: int|
            0 <= j < calls.len() ==> !((#[trigger] calls[j]).task == task && calls[j].core
                == sender),
    ensures
        fq_ceiling_from(base, calls, task, sender) == base,
    decreases calls.len(),
{
    if calls.len() > 0 {
        assert forall|j: int|
            0 <= j < calls.len() - 1 implies !((#[trigger] calls.drop_last()[j]).task == task
                && calls.drop_last()[j].core == sender) by {
            assert(calls.drop_last()[j] == calls[j]);
        }
        lemma_fq_ceiling_unused(base, calls.drop_last(), task, sender);
        assert(!(calls[calls.len() - 1].task == task && calls[calls.len() - 1].core == sender));
    }
}

/// Every scheduling core is among the timer-queue cores.
proof fn lemma_tq_cores_complete(calls: Seq<Call>, j: int)
    requires
        0 <= j < calls.len(),
    ensures
        tq_cores_from(Seq::<u8>::empty(), calls).contains(calls[j].core),
    decreases calls.len(),
{
    let rest = tq_cores_from(Seq::<u8>::empty(), calls.drop_last());
    if j == calls.len() - 1 {
        lemma_add_unique_contains(rest, calls.last().core, calls[j].core);
    } else {
        assert(calls.drop_last()[j] == calls[j]);
        lemma_tq_cores_complete(calls.drop_last(), j);
        lemma_add_unique_contains(rest, calls.last().core, calls[j].core);
    }
}

/// Routes the schedule calls through the channels and free queues and
/// lets their call sites contend for the timer-queue ceilings: each
/// schedule call adds its task to the channel towards the task's core
/// and priority, raises that channel to its own timer handler's
/// priority, and, when prioritized, raises its free queue and its
/// timer queue as a spawner would.
fn schedule_pass(
    app: &App,
    chs: &mut Vec<ChannelEntry>,
    fqs: &mut Vec<FreeQueueEntry>,
    tqs: &mut Vec<TimerQueueEntry>,
)
    requires
        app.calls_declared(),
        old(chs)@.len() == channel_keys_from(
            Seq::empty(),
            app.spawn_calls@,
            app.software_tasks@,
        ).len(),
        forall|k: int|
            0 <= k < old(chs)@.len() ==> ((#[trigger] old(chs)@[k]).receiver,
            old(chs)@[k].priority, old(chs)@[k].sender) == channel_keys_from(
                Seq::empty(),
                app.spawn_calls@,
                app.software_tasks@,
            )[k],
        forall|k1: int, k2: int|
            0 <= k1 < k2 < old(chs)@.len() ==> !((#[trigger] old(chs)@[k1]).receiver == (
            #[trigger] old(chs)@[k2]).receiver && old(chs)@[k1].priority == old(chs)@[k2].priority
                && old(chs)@[k1].sender == old(chs)@[k2].sender),
        forall|k: int|
            0 <= k < old(chs)@.len() ==> (#[trigger] old(chs)@[k]).channel.tasks@
                == routed_tasks_from(
                Seq::empty(),
                app.spawn_calls@,
                app.software_tasks@,
                old(chs)@[k].receiver,
                old(chs)@[k].priority,
                old(chs)@[k].sender,
            ),
        forall|k: int|
            0 <= k < old(chs)@.len() ==> (#[trigger] old(chs)@[k]).channel.ceiling
                == spawn_ceiling_from(
                None,
                app.spawn_calls@,
                app.software_tasks@,
                old(chs)@[k].receiver,
                old(chs)@[k].priority,
                old(chs)@[k].sender,
            ),
        forall|k: int| 0 <= k < old(chs)@.len() ==> (#[trigger] old(chs)@[k]).channel.capacity == 0,
        forall|k: int|
            0 <= k < old(chs)@.len() ==> (#[trigger] old(chs)@[k]).channel.tasks@.no_duplicates(),
        forall|k: int, j: int|
            0 <= k < old(chs)@.len() && 0 <= j < (#[trigger] old(chs)@[k]).channel.tasks@.len()
                ==> (#[trigger] old(chs)@[k].channel.tasks@[j]) < app.software_tasks@.len(),
        forall|k: int|
            0 <= k < old(chs)@.len() ==> (#[trigger] old(chs)@[k]).channel.tasks@.len() > 0,
        old(fqs)@.len() == fq_keys_from(Seq::empty(), app.spawn_calls@).len(),
        forall|k: int|
            0 <= k < old(fqs)@.len() ==> ((#[trigger] old(fqs)@[k]).task, old(fqs)@[k].sender)
                == fq_keys_from(Seq::empty(), app.spawn_calls@)[k],
        forall|k1: int, k2: int|
            0 <= k1 < k2 < old(fqs)@.len() ==> !((#[trigger] old(fqs)@[k1]).task == (
            #[trigger] old(fqs)@[k2]).task && old(fqs)@[k1].sender == old(fqs)@[k2].sender),
        forall|k: int|
            0 <= k < old(fqs)@.len() ==> (#[trigger] old(fqs)@[k]).ceiling == fq_ceiling_from(
                None,
                app.spawn_calls@,
                old(fqs)@[k].task,
                old(fqs)@[k].sender,
            ),
        old(tqs)@.len() == tq_cores(*app).len(),
        forall|k: int|
            0 <= k < old(tqs)@.len() ==> (#[trigger] old(tqs)@[k]).core == tq_cores(*app)[k],
        forall|k1: int, k2: int|
            0 <= k1 < k2 < old(tqs)@.len() ==> (#[trigger] old(tqs)@[k1]).core != (
            #[trigger] old(tqs)@[k2]).core,
        forall|k: int|
            0 <= k < old(tqs)@.len() ==> (#[trigger] old(tqs)@[k]).queue.priority == tq_priority(
                *app,
                old(tqs)@[k].core,
            ),
        forall|k: int|
            0 <= k < old(tqs)@.len() ==> (#[trigger] old(tqs)@[k]).queue.ceiling == old(
                tqs,
            )@[k].queue.priority,
    ensures
        final(chs)@.len() == channel_keys(*app).len(),
        forall|k: int|
            0 <= k < final(chs)@.len() ==> ((#[trigger] final(chs)@[k]).receiver,
            final(chs)@[k].priority, final(chs)@[k].sender) == channel_keys(*app)[k],
        forall|k1: int, k2: int|
            0 <= k1 < k2 < final(chs)@.len() ==> !((#[trigger] final(chs)@[k1]).receiver == (
            #[trigger] final(chs)@[k2]).receiver && final(chs)@[k1].priority == final(chs)@[k2].priority && final(chs)@[k1].sender == final(chs)@[k2].sender),
        forall|k: int|
            0 <= k < final(chs)@.len() ==> (#[trigger] final(chs)@[k]).channel.tasks@
                == channel_tasks(
                *app,
                final(chs)@[k].receiver,
                final(chs)@[k].priority,
                final(chs)@[k].sender,
            ),
        forall|k: int|
            0 <= k < final(chs)@.len() ==> (#[trigger] final(chs)@[k]).channel.ceiling
                == channel_ceiling(
                *app,
                final(chs)@[k].receiver,
                final(chs)@[k].priority,
                final(chs)@[k].sender,
            ),
        forall|k: int|
            0 <= k < final(chs)@.len() ==> (#[trigger] final(chs)@[k]).channel.capacity == 0,
        forall|k: int|
            0 <= k < final(chs)@.len() ==> (#[trigger] final(chs)@[k]).channel.tasks@.no_duplicates(),
        forall|k: int, j: int|
            0 <= k < final(chs)@.len() && 0 <= j < (#[trigger] final(chs)@[k]).channel.tasks@.len() ==> (#[trigger] final(chs)@[k].channel.tasks@[j])
                < app.software_tasks@.len(),
        forall|k: int|
            0 <= k < final(chs)@.len() ==> (#[trigger] final(chs)@[k]).channel.tasks@.len() > 0,
        final(fqs)@.len() == fq_keys(*app).len(),
        forall|k: int|
            0 <= k < final(fqs)@.len() ==> ((#[trigger] final(fqs)@[k]).task, final(fqs)@[k].sender) == fq_keys(*app)[k],
        forall|k1: int, k2: int|
            0 <= k1 < k2 < final(fqs)@.len() ==> !((#[trigger] final(fqs)@[k1]).task == (
            #[trigger] final(fqs)@[k2]).task && final(fqs)@[k1].sender == final(fqs)@[k2].sender),
        forall|k: int|
            0 <= k < final(fqs)@.len() ==> (#[trigger] final(fqs)@[k]).ceiling == fq_ceiling(
                *app,
                final(fqs)@[k].task,
                final(fqs)@[k].sender,
            ),
        final(tqs)@.len() == old(tqs)@.len(),
        forall|k: int|
            0 <= k < final(tqs)@.len() ==> (#[trigger] final(tqs)@[k]).core == old(tqs)@[k].core,
        forall|k: int|
            0 <= k < final(tqs)@.len() ==> (#[trigger] final(tqs)@[k]).queue.tasks@ == old(
                tqs,
            )@[k].queue.tasks@,
        forall|k: int|
            0 <= k < final(tqs)@.len() ==> (#[trigger] final(tqs)@[k]).queue.priority == old(
                tqs,
            )@[k].queue.priority,
        forall|k: int|
            0 <= k < final(tqs)@.len() ==> (#[trigger] final(tqs)@[k]).queue.capacity == old(
                tqs,
            )@[k].queue.capacity,
        forall|k: int|
            0 <= k < final(tqs)@.len() ==> (#[trigger] final(tqs)@[k]).queue.ceiling == tq_ceiling(
                *app,
                final(tqs)@[k].core,
            ),
{
    let ghost scheds = app.schedule_calls@;
    let ghost spawns = app.spawn_calls@;
    let ghost tasks = app.software_tasks@;
    let ghost spawn_chan_keys = channel_keys_from(Seq::<(u8, u8, u8)>::empty(), spawns, tasks);
    let ghost spawn_fq_keys = fq_keys_from(Seq::<(usize, u8)>::empty(), spawns);
    let mut i: usize = 0;
    while i < app.schedule_calls.len()
        invariant
            i <= scheds.len(),
            scheds == app.schedule_calls@,
            spawns == app.spawn_calls@,
            tasks == app.software_tasks@,
            spawn_chan_keys == channel_keys_from(Seq::<(u8, u8, u8)>::empty(), spawns, tasks),
            spawn_fq_keys == fq_keys_from(Seq::<(usize, u8)>::empty(), spawns),
            app.calls_declared(),
            chs@.len() == channel_keys_from(spawn_chan_keys, scheds.take(i as int), tasks).len(),
            forall|k: int|
                0 <= k < chs@.len() ==> ((#[trigger] chs@[k]).receiver, chs@[k].priority,
                chs@[k].sender) == channel_keys_from(
                    spawn_chan_keys,
                    scheds.take(i as int),
                    tasks,
                )[k],
            forall|k1: int, k2: int|
                0 <= k1 < k2 < chs@.len() ==> !((#[trigger] chs@[k1]).receiver == (
                #[trigger] chs@[k2]).receiver && chs@[k1].priority == chs@[k2].priority
                    && chs@[k1].sender == chs@[k2].sender),
            forall|k: int|
                0 <= k < chs@.len() ==> (#[trigger] chs@[k]).channel.tasks@ == routed_tasks_from(
                    routed_tasks_from(
                        Seq::empty(),
                        spawns,
                        tasks,
                        chs@[k].receiver,
                        chs@[k].priority,
                        chs@[k].sender,
                    ),
                    scheds.take(i as int),
                    tasks,
                    chs@[k].receiver,
                    chs@[k].priority,
                    chs@[k].sender,
                ),
            forall|k: int|
                0 <= k < chs@.len() ==> (#[trigger] chs@[k]).channel.ceiling == sched_ceiling_from(
                    *app,
                    spawn_ceiling_from(
                        None,
                        spawns,
                        tasks,
                        chs@[k].receiver,
                        chs@[k].priority,
                        chs@[k].sender,
                    ),
                    scheds.take(i as int),
                    chs@[k].receiver,
                    chs@[k].priority,
                    chs@[k].sender,
                ),
            forall|k: int| 0 <= k < chs@.len() ==> (#[trigger] chs@[k]).channel.capacity == 0,
            forall|k: int|
                0 <= k < chs@.len() ==> (#[trigger] chs@[k]).channel.tasks@.no_duplicates(),
            forall|k: int, j: int|
                0 <= k < chs@.len() && 0 <= j < (#[trigger] chs@[k]).channel.tasks@.len() ==> (
                #[trigger] chs@[k].channel.tasks@[j]) < tasks.len(),
            forall|k: int| 0 <= k < chs@.len() ==> (#[trigger] chs@[k]).channel.tasks@.len() > 0,
            fqs@.len() == fq_keys_from(spawn_fq_keys, scheds.take(i as int)).len(),
            forall|k: int|
                0 <= k < fqs@.len() ==> ((#[trigger] fqs@[k]).task, fqs@[k].sender)
                    == fq_keys_from(spawn_fq_keys, scheds.take(i as int))[k],
            forall|k1: int, k2: int|
                0 <= k1 < k2 < fqs@.len() ==> !((#[trigger] fqs@[k1]).task == (
                #[trigger] fqs@[k2]).task && fqs@[k1].sender == fqs@[k2].sender),
            forall|k: int|
                0 <= k < fqs@.len() ==> (#[trigger] fqs@[k]).ceiling == fq_ceiling_from(
                    fq_ceiling_from(None, spawns, fqs@[k].task, fqs@[k].sender),
                    scheds.take(i as int),
                    fqs@[k].task,
                    fqs@[k].sender,
                ),
            tqs@.len() == tq_cores(*app).len(),
            forall|k: int|
                0 <= k < tqs@.len() ==> (#[trigger] tqs@[k]).core == old(tqs)@[k].core,
            forall|k: int|
                0 <= k < tqs@.len() ==> (#[trigger] tqs@[k]).core == tq_cores(*app)[k],
            forall|k1: int, k2: int|
                0 <= k1 < k2 < tqs@.len() ==> (#[trigger] tqs@[k1]).core != (
                #[trigger] tqs@[k2]).core,
            forall|k: int|
                0 <= k < tqs@.len() ==> (#[trigger] tqs@[k]).queue.tasks@ == old(
                    tqs,
                )@[k].queue.tasks@,
            forall|k: int|
                0 <= k < tqs@.len() ==> (#[trigger] tqs@[k]).queue.priority == old(
                    tqs,
                )@[k].queue.priority,
            forall|k: int|
                0 <= k < tqs@.len() ==> (#[trigger] tqs@[k]).queue.priority == tq_priority(
                    *app,
                    tqs@[k].core,
                ),
            forall|k: int|
                0 <= k < tqs@.len() ==> (#[trigger] tqs@[k]).queue.capacity == old(
                    tqs,
                )@[k].queue.capacity,
            forall|k: int|
                0 <= k < tqs@.len() ==> (#[trigger] tqs@[k]).queue.ceiling == tq_ceiling_from(
                    tq_priority(*app, tqs@[k].core),
                    scheds.take(i as int),
                    tqs@[k].core,
                ),
        decreases scheds.len() - i,
    {
        let call = app.schedule_calls[i];
        let ghost prefix = scheds.take(i as int);
        let rc = app.software_tasks[call.task].core;
        let dp = app.software_tasks[call.task].priority;
        let sc = call.core;
        proof {
            scheds.lemma_take_succ_push(i as int);
            assert(scheds.take(i as int + 1) == prefix.push(call));
            assert(scheds.take(i as int + 1).drop_last() =~= prefix);
            assert(channel_keys_from(spawn_chan_keys, scheds.take(i as int + 1), tasks)
                == add_unique(
                channel_keys_from(spawn_chan_keys, prefix, tasks),
                (rc, dp, sc),
            ));
            assert(fq_keys_from(spawn_fq_keys, scheds.take(i as int + 1)) == add_unique(
                fq_keys_from(spawn_fq_keys, prefix),
                (call.task, call.core),
            ));
            assert forall|a: u8, b: u8, c: u8, base: Seq<usize>|
                routed_tasks_from(base, scheds.take(i as int + 1), tasks, a, b, c) == (if routes(
                    call,
                    tasks,
                    a,
                    b,
                    c,
                ) {
                    add_unique(routed_tasks_from(base, prefix, tasks, a, b, c), call.task)
                } else {
                    routed_tasks_from(base, prefix, tasks, a, b, c)
                }) by {}
            assert forall|a: u8, b: u8, c: u8, base: Option<u8>|
                sched_ceiling_from(*app, base, scheds.take(i as int + 1), a, b, c) == (if routes(
                    call,
                    tasks,
                    a,
                    b,
                    c,
                ) {
                    opt_max(sched_ceiling_from(*app, base, prefix, a, b, c), tq_priority(*app, sc))
                } else {
                    sched_ceiling_from(*app, base, prefix, a, b, c)
                }) by {}
            assert forall|t: usize, s: u8, base: Option<u8>|
                fq_ceiling_from(base, scheds.take(i as int + 1), t, s) == (if call.task == t
                    && call.core == s {
                    match call.priority {
                        Some(p) => opt_max(fq_ceiling_from(base, prefix, t, s), p),
                        None => fq_ceiling_from(base, prefix, t, s),
                    }
                } else {
                    fq_ceiling_from(base, prefix, t, s)
                }) by {}
            assert forall|c: u8, base: u8|
                tq_ceiling_from(base, scheds.take(i as int + 1), c) == (if call.core == c {
                    match call.priority {
                        Some(p) => max_u8(tq_ceiling_from(base, prefix, c), p),
                        None => tq_ceiling_from(base, prefix, c),
                    }
                } else {
                    tq_ceiling_from(base, prefix, c)
                }) by {}
            assert(routes(call, tasks, rc, dp, sc));
        }

        // the scheduling core's timer queue exists: the first pass saw
        // this call too
        let tix = match find_tq(tqs, call.core) {
            Some(ix) => ix,
            None => {
                proof {
                    lemma_tq_cores_complete(scheds, i as int);
                    let m = choose|m: int|
                        0 <= m < tq_cores(*app).len() && tq_cores(*app)[m] == call.core;
                    assert(tqs@[m].core == call.core);
                    assert(false);
                }
                vstd::pervasive::unreached::<usize>()
            },
        };
        let tq_prio = tqs[tix].queue.priority;
        proof {
            assert(tq_prio == tq_priority(*app, call.core));
        }

        // channel: create on first routing, then add the task and raise
        // the ceiling to the timer handler's priority
        let ghost chan_keys_before = channel_keys_from(spawn_chan_keys, prefix, tasks);
        let cix = match find_channel(chs, rc, dp, sc) {
            Some(ix) => ix,
            None => {
                proof {
                    if chan_keys_before.contains((rc, dp, sc)) {
                        let m = choose|m: int|
                            0 <= m < chan_keys_before.len() && chan_keys_before[m] == (rc, dp, sc);
                        assert(((#[trigger] chs@[m]).receiver, chs@[m].priority, chs@[m].sender)
                            == chan_keys_before[m]);
                        assert(false);
                    }
                    lemma_chan_keys_no_route(spawn_chan_keys, prefix, tasks, rc, dp, sc);
                    lemma_channel_absent_key(spawns, tasks, spawn_chan_keys, rc, dp, sc);
                    lemma_routed_tasks_unrouted(
                        Seq::<usize>::empty(),
                        prefix,
                        tasks,
                        rc,
                        dp,
                        sc,
                    );
                    lemma_sched_ceiling_unrouted(*app, None, prefix, rc, dp, sc);
                }
                chs.push(
                    ChannelEntry {
                        receiver: rc,
                        priority: dp,
                        sender: sc,
                        channel: Channel { capacity: 0, ceiling: None, tasks: Vec::new() },
                    },
                );
                proof {
                    assert(chs@[chs@.len() - 1].channel.tasks@ =~= Seq::<usize>::empty());
                }
                chs.len() - 1
            },
        };
        proof {
            assert(add_unique(chan_keys_before, (rc, dp, sc)).len() == chs@.len());
        }
        let e = &mut chs[cix];
        let ghost entry_tasks = e.channel.tasks@;
        insert_unique_usize(&mut e.channel.tasks, call.task);
        e.channel.ceiling = match e.channel.ceiling {
            None => Some(tq_prio),
            Some(q) => if q >= tq_prio {
                Some(q)
            } else {
                Some(tq_prio)
            },
        };
        proof {
            lemma_add_unique_no_duplicates(entry_tasks, call.task);
            assert forall|k: int| 0 <= k < chs@.len() implies (#[trigger] chs@[k]).channel.tasks@
                == routed_tasks_from(
                routed_tasks_from(
                    Seq::empty(),
                    spawns,
                    tasks,
                    chs@[k].receiver,
                    chs@[k].priority,
                    chs@[k].sender,
                ),
                scheds.take(i as int + 1),
                tasks,
                chs@[k].receiver,
                chs@[k].priority,
                chs@[k].sender,
            ) by {
                if k != cix as int {
                    assert(!routes(call, tasks, chs@[k].receiver, chs@[k].priority, chs@[k].sender));
                }
            }
            assert forall|k: int| 0 <= k < chs@.len() implies (#[trigger] chs@[k]).channel.ceiling
                == sched_ceiling_from(
                *app,
                spawn_ceiling_from(
                    None,
                    spawns,
                    tasks,
                    chs@[k].receiver,
                    chs@[k].priority,
                    chs@[k].sender,
                ),
                scheds.take(i as int + 1),
                chs@[k].receiver,
                chs@[k].priority,
                chs@[k].sender,
            ) by {
                if k != cix as int {
                    assert(!routes(call, tasks, chs@[k].receiver, chs@[k].priority, chs@[k].sender));
                }
            }
            assert forall|k: int, j: int|
                0 <= k < chs@.len() && 0 <= j < (#[trigger] chs@[k]).channel.tasks@.len() implies (
            #[trigger] chs@[k].channel.tasks@[j]) < tasks.len() by {
                if k == cix as int && !entry_tasks.contains(call.task) && j == chs@[
                    k
                ].channel.tasks@.len() - 1 {
                    assert(chs@[k].channel.tasks@[j] == call.task);
                }
            }
        }

        // free queue: create on first use; prioritized schedulers
        // contend for it
        let ghost fq_keys_before = fq_keys_from(spawn_fq_keys, prefix);
        let fix = match find_fq(fqs, call.task, call.core) {
            Some(ix) => ix,
            None => {
                proof {
                    if fq_keys_before.contains((call.task, call.core)) {
                        let m = choose|m: int|
                            0 <= m < fq_keys_before.len() && fq_keys_before[m] == (
                            call.task,
                            call.core,
                            );
                        assert(((#[trigger] fqs@[m]).task, fqs@[m].sender) == fq_keys_before[m]);
                        assert(false);
                    }
                    lemma_fq_keys_no_use(spawn_fq_keys, prefix, call.task, call.core);
                    lemma_fq_absent_key(spawns, spawn_fq_keys, call.task, call.core);
                    lemma_fq_ceiling_unused(None, prefix, call.task, call.core);
                }
                fqs.push(FreeQueueEntry { task: call.task, sender: call.core, ceiling: None });
                fqs.len() - 1
            },
        };
        proof {
            assert(add_unique(fq_keys_before, (call.task, call.core)).len() == fqs@.len());
        }
        match call.priority {
            Some(p) => {
                let f = &mut fqs[fix];
                f.ceiling = match f.ceiling {
                    None => Some(p),
                    Some(q) => if q >= p {
                        Some(q)
                    } else {
                        Some(p)
                    },
                };
                // the scheduler also contends for its timer queue
                let t = &mut tqs[tix];
                if p > t.queue.ceiling {
                    t.queue.ceiling = p;
                }
            },
            None => {},
        }
        proof {
            assert forall|k: int| 0 <= k < fqs@.len() implies (#[trigger] fqs@[k]).ceiling
                == fq_ceiling_from(
                fq_ceiling_from(None, spawns, fqs@[k].task, fqs@[k].sender),
                scheds.take(i as int + 1),
                fqs@[k].task,
                fqs@[k].sender,
            ) by {
                if k != fix as int {
                    assert(!(call.task == fqs@[k].task && call.core == fqs@[k].sender));
                }
            }
            assert forall|k: int| 0 <= k < tqs@.len() implies (#[trigger] tqs@[k]).queue.ceiling
                == tq_ceiling_from(
                tq_priority(*app, tqs@[k].core),
                scheds.take(i as int + 1),
                tqs@[k].core,
            ) by {
                if k != tix as int {
                    assert(tqs@[k].core != call.core);
                }
            }
        }
        i = i + 1;
    }
    proof {
        assert(scheds.take(scheds.len() as int) =~= scheds);
    }
}

/// The exact capacity of a duplicate-free task list.
fn capacity_of(app: &App, ts: &Vec<usize>) -> (s: u64)
    requires
        forall|k: int| 0 <= k < ts@.len() ==> ts@[k] < app.software_tasks@.len(),
        ts@.no_duplicates(),
        app.software_tasks@.len() <= 0xFFFF_FFFFusize,
    ensures
        s as int == sum_capacities(ts@, app.software_tasks@),
{
    proof {
        lemma_distinct_bounded_len(ts@, app.software_tasks@.len() as int);
    }
    let mut s: u64 = 0;
    let mut i: usize = 0;
    while i < ts.len()
        invariant
            i <= ts@.len(),
            ts@.len() <= app.software_tasks@.len() <= 0xFFFF_FFFFusize,
            forall|k: int| 0 <= k < ts@.len() ==> ts@[k] < app.software_tasks@.len(),
            s as int == sum_capacities(ts@.take(i as int), app.software_tasks@),
            s as int <= 255 * i,
        decreases ts@.len() - i,
    {
        proof {
            ts@.lemma_take_succ_push(i as int);
            assert(ts@.take(i as int + 1) == ts@.take(i as int).push(ts@[i as int]));
            assert(ts@.take(i as int + 1).drop_last() =~= ts@.take(i as int));
        }
        s = s + app.software_tasks[ts[i]].capacity as u64;
        i = i + 1;
    }
    proof {
        assert(ts@.take(ts@.len() as int) =~= ts@);
    }
    s
}

/// Fills in every channel's capacity: the exact sum of its routed
/// tasks' declared capacities.
fn set_channel_capacities(app: &App, chs: &mut Vec<ChannelEntry>)
    requires
        app.software_tasks@.len() <= 0xFFFF_FFFFusize,
        forall|k: int|
            0 <= k < old(chs)@.len() ==> (#[trigger] old(chs)@[k]).channel.tasks@.no_duplicates(),
        forall|k: int, j: int|
            0 <= k < old(chs)@.len() && 0 <= j < (#[trigger] old(chs)@[k]).channel.tasks@.len()
                ==> (#[trigger] old(chs)@[k].channel.tasks@[j]) < app.software_tasks@.len(),
    ensures
        final(chs)@.len() == old(chs)@.len(),
        forall|k: int|
            0 <= k < final(chs)@.len() ==> {
                let e = #[trigger] final(chs)@[k];
                let o = old(chs)@[k];
                &&& e.receiver == o.receiver
                &&& e.priority == o.priority
                &&& e.sender == o.sender
                &&& e.channel.tasks@ == o.channel.tasks@
                &&& e.channel.ceiling == o.channel.ceiling
                &&& e.channel.capacity as int == sum_capacities(
                    o.channel.tasks@,
                    app.software_tasks@,
                )
            },
{
    let mut k: usize = 0;
    while k < chs.len()
        invariant
            k <= chs@.len(),
            chs@.len() == old(chs)@.len(),
            app.software_tasks@.len() <= 0xFFFF_FFFFusize,
            forall|m: int|
                0 <= m < chs@.len() ==> {
                    let e = #[trigger] chs@[m];
                    let o = old(chs)@[m];
                    &&& e.receiver == o.receiver
                    &&& e.priority == o.priority
                    &&& e.sender == o.sender
                    &&& e.channel.tasks@ == o.channel.tasks@
                    &&& e.channel.ceiling == o.channel.ceiling
                },
            forall|m: int|
                0 <= m < k ==> (#[trigger] chs@[m]).channel.capacity as int == sum_capacities(
                    old(chs)@[m].channel.tasks@,
                    app.software_tasks@,
                ),
            forall|m: int|
                0 <= m < chs@.len() ==> (#[trigger] chs@[m]).channel.tasks@.no_duplicates(),
            forall|m: int, j: int|
                0 <= m < chs@.len() && 0 <= j < (#[trigger] chs@[m]).channel.tasks@.len() ==> (
                #[trigger] chs@[m].channel.tasks@[j]) < app.software_tasks@.len(),
        decreases chs@.len() - k,
    {
        let e = &mut chs[k];
        let cap = capacity_of(app, &e.channel.tasks);
        e.channel.capacity = cap;
        k = k + 1;
    }
}

/// Fills in every timer queue's capacity: the exact sum of its
/// schedulable tasks' declared capacities.
fn set_timer_capacities(app: &App, tqs: &mut Vec<TimerQueueEntry>)
    requires
        app.software_tasks@.len() <= 0xFFFF_FFFFusize,
        forall|k: int|
            0 <= k < old(tqs)@.len() ==> (#[trigger] old(tqs)@[k]).queue.tasks@.no_duplicates(),
        forall|k: int, j: int|
            0 <= k < old(tqs)@.len() && 0 <= j < (#[trigger] old(tqs)@[k]).queue.tasks@.len()
                ==> (#[trigger] old(tqs)@[k].queue.tasks@[j]) < app.software_tasks@.len(),
    ensures
        final(tqs)@.len() == old(tqs)@.len(),
        forall|k: int|
            0 <= k < final(tqs)@.len() ==> {
                let e = #[trigger] final(tqs)@[k];
                let o = old(tqs)@[k];
                &&& e.core == o.core
                &&& e.queue.tasks@ == o.queue.tasks@
                &&& e.queue.priority == o.queue.priority
                &&& e.queue.ceiling == o.queue.ceiling
                &&& e.queue.capacity as int == sum_capacities(o.queue.tasks@, app.software_tasks@)
            },
{
    let mut k: usize = 0;
    while k < tqs.len()
        invariant
            k <= tqs@.len(),
            tqs@.len() == old(tqs)@.len(),
            app.software_tasks@.len() <= 0xFFFF_FFFFusize,
            forall|m: int|
                0 <= m < tqs@.len() ==> {
                    let e = #[trigger] tqs@[m];
                    let o = old(tqs)@[m];
                    &&& e.core == o.core
                    &&& e.queue.tasks@ == o.queue.tasks@
                    &&& e.queue.priority == o.queue.priority
                    &&& e.queue.ceiling == o.queue.ceiling
                },
            forall|m: int|
                0 <= m < k ==> (#[trigger] tqs@[m]).queue.capacity as int == sum_capacities(
                    old(tqs)@[m].queue.tasks@,
                    app.software_tasks@,
                ),
            forall|m: int|
                0 <= m < tqs@.len() ==> (#[trigger] tqs@[m]).queue.tasks@.no_duplicates(),
            forall|m: int, j: int|
                0 <= m < tqs@.len() && 0 <= j < (#[trigger] tqs@[m]).queue.tasks@.len() ==> (
                #[trigger] tqs@[m].queue.tasks@[j]) < app.software_tasks@.len(),
        decreases tqs@.len() - k,
    {
        let e = &mut tqs[k];
        let cap = capacity_of(app, &e.queue.tasks);
        e.queue.capacity = cap;
        k = k + 1;
    }
}

/// Builds the whole message topology: channels and free queues from
/// the spawn and schedule calls, timer queues from the schedule calls,
/// every ceiling raised by exactly the call sites that contend for it
/// and every capacity the exact sum of the routed tasks' declared
/// capacities. No channel's task set is empty: a channel exists only in
/// response to at least one call.
pub fn build_topology(app: &App) -> (r: (Vec<ChannelEntry>, Vec<FreeQueueEntry>, Vec<
    TimerQueueEntry,
>))
    requires
        app.calls_declared(),
        app.software_tasks@.len() <= 0xFFFF_FFFFusize,
    ensures
        r.0@.len() == channel_keys(*app).len(),
        forall|k: int|
            0 <= k < r.0@.len() ==> ((#[trigger] r.0@[k]).receiver, r.0@[k].priority,
            r.0@[k].sender) == channel_keys(*app)[k],
        forall|k: int|
            0 <= k < r.0@.len() ==> (#[trigger] r.0@[k]).channel.tasks@ == channel_tasks(
                *app,
                r.0@[k].receiver,
                r.0@[k].priority,
                r.0@[k].sender,
            ),
        forall|k: int|
            0 <= k < r.0@.len() ==> (#[trigger] r.0@[k]).channel.ceiling == channel_ceiling(
                *app,
                r.0@[k].receiver,
                r.0@[k].priority,
                r.0@[k].sender,
            ),
        forall|k: int|
            0 <= k < r.0@.len() ==> (#[trigger] r.0@[k]).channel.capacity as int == sum_capacities(
                channel_tasks(*app, r.0@[k].receiver, r.0@[k].priority, r.0@[k].sender),
                app.software_tasks@,
            ),
        forall|k: int| 0 <= k < r.0@.len() ==> (#[trigger] r.0@[k]).channel.tasks@.no_duplicates(),
        forall|k: int| 0 <= k < r.0@.len() ==> (#[trigger] r.0@[k]).channel.tasks@.len() > 0,
        r.1@.len() == fq_keys(*app).len(),
        forall|k: int|
            0 <= k < r.1@.len() ==> ((#[trigger] r.1@[k]).task, r.1@[k].sender) == fq_keys(
                *app,
            )[k],
        forall|k: int|
            0 <= k < r.1@.len() ==> (#[trigger] r.1@[k]).ceiling == fq_ceiling(
                *app,
                r.1@[k].task,
                r.1@[k].sender,
            ),
        r.2@.len() == tq_cores(*app).len(),
        forall|k: int| 0 <= k < r.2@.len() ==> (#[trigger] r.2@[k]).core == tq_cores(*app)[k],
        forall|k: int|
            0 <= k < r.2@.len() ==> (#[trigger] r.2@[k]).queue.tasks@ == tq_tasks(
                *app,
                r.2@[k].core,
            ),
        forall|k: int|
            0 <= k < r.2@.len() ==> (#[trigger] r.2@[k]).queue.priority == tq_priority(
                *app,
                r.2@[k].core,
            ),
        forall|k: int|
            0 <= k < r.2@.len() ==> (#[trigger] r.2@[k]).queue.ceiling == tq_ceiling(
                *app,
                r.2@[k].core,
            ),
        forall|k: int|
            0 <= k < r.2@.len() ==> (#[trigger] r.2@[k]).queue.capacity as int == sum_capacities(
                tq_tasks(*app, r.2@[k].core),
                app.software_tasks@,
            ),
        forall|k: int| 0 <= k < r.2@.len() ==> (#[trigger] r.2@[k]).queue.tasks@.no_duplicates(),
{
    let mut tqs = timer_pass(app);
    let (mut chs, mut fqs) = spawn_pass(app);
    schedule_pass(app, &mut chs, &mut fqs, &mut tqs);
    set_channel_capacities(app, &mut chs);
    set_timer_capacities(app, &mut tqs);
    (chs, fqs, tqs)
}

} // verus!
