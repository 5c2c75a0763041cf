use prioplan::analyze;
use prioplan::ast::{Access, App, Call, HardwareTask, Idle, Init, Mode, Resource, SoftwareTask};
use prioplan::ownership::{Location, Ownership};
use prioplan::topology::TimerQueue;

fn empty_app(cores: u8) -> App {
    App {
        cores,
        resources: vec![],
        software_tasks: vec![],
        hardware_tasks: vec![],
        inits: vec![],
        idles: vec![],
        dispatchers: vec![],
        resource_accesses: vec![],
        spawn_calls: vec![],
        schedule_calls: vec![],
    }
}

fn access(core: u8, priority: Option<u8>, resource: usize, mode: Mode) -> Access {
    Access { core, priority, resource, mode }
}

fn task(core: u8, priority: u8, capacity: u8, inputs: Vec<u32>) -> SoftwareTask {
    SoftwareTask { core, priority, capacity, inputs }
}

#[test]
fn empty_model_yields_empty_analysis() {
    let a = analyze::app(&empty_app(1));
    assert!(a.used_cores.is_empty());
    assert!(a.channels.is_empty());
    assert!(a.free_queues.is_empty());
    assert!(a.late_resources.is_empty());
    assert!(a.locations.is_empty());
    assert!(a.ownerships.is_empty());
    assert_eq!(a.send_types, vec![Vec::<u32>::new()]);
    assert_eq!(a.sync_types, vec![Vec::<u32>::new()]);
    assert_eq!(a.initialization_barriers, vec![Vec::<u8>::new()]);
    assert!(a.timer_queues.is_empty());
}

#[test]
fn single_access_is_owned_and_needs_no_lock() {
    // One resource, one task, one priority: Owned, and no lock at its
    // own priority.
    let mut app = empty_app(1);
    app.resources.push(Resource { ty: 7, late: false });
    app.hardware_tasks.push(HardwareTask { core: 0, priority: 3, binds: 16 });
    app.resource_accesses.push(access(0, Some(3), 0, Mode::Exclusive));
    let a = analyze::app(&app);
    let o = a.ownerships[0].unwrap();
    assert_eq!(o, Ownership::Owned { priority: 3 });
    assert!(o.is_owned());
    assert!(!o.needs_lock(3));
    assert_eq!(a.locations[0], Some(Location::Owned { core: 0 }));
    assert_eq!(a.locations[0].unwrap().core_id(), Some(0));
}

#[test]
fn two_tasks_one_priority_co_own() {
    let mut app = empty_app(1);
    app.resources.push(Resource { ty: 7, late: false });
    app.resource_accesses.push(access(0, Some(2), 0, Mode::Exclusive));
    app.resource_accesses.push(access(0, Some(2), 0, Mode::Exclusive));
    let a = analyze::app(&app);
    let o = a.ownerships[0].unwrap();
    assert_eq!(o, Ownership::CoOwned { priority: 2 });
    assert!(!o.is_owned());
    assert!(!o.needs_lock(2));
}

#[test]
fn three_priorities_contend_at_their_maximum() {
    // Accessed at priorities 2, 5 and 7: Contended with ceiling 7; a
    // lock is needed at 2 and at 5, none at 7.
    let mut app = empty_app(1);
    app.resources.push(Resource { ty: 7, late: false });
    app.resource_accesses.push(access(0, Some(2), 0, Mode::Exclusive));
    app.resource_accesses.push(access(0, Some(5), 0, Mode::Exclusive));
    app.resource_accesses.push(access(0, Some(7), 0, Mode::Exclusive));
    let a = analyze::app(&app);
    let o = a.ownerships[0].unwrap();
    assert_eq!(o, Ownership::Contended { ceiling: 7 });
    assert!(o.needs_lock(2));
    assert!(o.needs_lock(5));
    assert!(!o.needs_lock(7));
}

#[test]
fn dead_resource_has_no_location_and_no_ownership() {
    let mut app = empty_app(1);
    app.resources.push(Resource { ty: 7, late: false });
    let a = analyze::app(&app);
    assert_eq!(a.locations[0], None);
    assert_eq!(a.ownerships[0], None);
}

#[test]
fn location_follows_the_last_access() {
    let mut app = empty_app(2);
    app.resources.push(Resource { ty: 7, late: false });
    app.resource_accesses.push(access(0, Some(1), 0, Mode::Exclusive));
    app.resource_accesses.push(access(1, Some(1), 0, Mode::Exclusive));
    let a = analyze::app(&app);
    assert_eq!(a.locations[0], Some(Location::Owned { core: 1 }));
}

#[test]
fn contended_shared_access_demands_sync() {
    // The shared access meets an owner at another priority: its type
    // must tolerate concurrent readers on that core.
    let mut app = empty_app(1);
    app.resources.push(Resource { ty: 42, late: false });
    app.resource_accesses.push(access(0, Some(5), 0, Mode::Shared));
    app.resource_accesses.push(access(0, Some(2), 0, Mode::Shared));
    let a = analyze::app(&app);
    assert_eq!(a.sync_types[0], vec![42]);
    assert_eq!(a.ownerships[0], Some(Ownership::Contended { ceiling: 5 }));
}

#[test]
fn co_owned_shared_access_demands_no_sync() {
    let mut app = empty_app(1);
    app.resources.push(Resource { ty: 42, late: false });
    app.resource_accesses.push(access(0, Some(5), 0, Mode::Shared));
    app.resource_accesses.push(access(0, Some(5), 0, Mode::Shared));
    let a = analyze::app(&app);
    assert!(a.sync_types[0].is_empty());
}

#[test]
fn late_resources_partition_across_inits() {
    // Three late resources on two cores: core 0 claims one explicitly,
    // core 1, the implicit claimant, receives the rest; every late
    // resource lands in exactly one subset.
    let mut app = empty_app(2);
    app.resources.push(Resource { ty: 1, late: true });
    app.resources.push(Resource { ty: 2, late: true });
    app.resources.push(Resource { ty: 3, late: true });
    app.inits.push(Init { core: 0, late: vec![1], resources: vec![] });
    app.inits.push(Init { core: 1, late: vec![], resources: vec![] });
    let a = analyze::app(&app);
    assert_eq!(a.late_resources.len(), 2);
    assert_eq!(a.late_resources[0].core, 0);
    assert_eq!(a.late_resources[0].resources, vec![1]);
    assert_eq!(a.late_resources[1].core, 1);
    assert_eq!(a.late_resources[1].resources, vec![0, 2]);
}

#[test]
fn implicit_claimant_may_receive_nothing() {
    let mut app = empty_app(1);
    app.resources.push(Resource { ty: 1, late: true });
    app.inits.push(Init { core: 0, late: vec![0], resources: vec![] });
    let a = analyze::app(&app);
    assert_eq!(a.late_resources.len(), 1);
    assert_eq!(a.late_resources[0].resources, vec![0]);
}

#[test]
fn cross_core_late_access_raises_a_barrier() {
    // Resource 0 is late-initialized on core 0 and used by a task on
    // core 1: barrier (receiver 1, initializer 0).
    let mut app = empty_app(2);
    app.resources.push(Resource { ty: 1, late: true });
    app.inits.push(Init { core: 0, late: vec![0], resources: vec![] });
    app.resource_accesses.push(access(1, Some(2), 0, Mode::Exclusive));
    let a = analyze::app(&app);
    assert!(a.initialization_barriers[0].is_empty());
    assert_eq!(a.initialization_barriers[1], vec![0]);
}

#[test]
fn same_core_late_access_raises_no_barrier() {
    let mut app = empty_app(2);
    app.resources.push(Resource { ty: 1, late: true });
    app.inits.push(Init { core: 0, late: vec![0], resources: vec![] });
    app.resource_accesses.push(access(0, Some(2), 0, Mode::Exclusive));
    let a = analyze::app(&app);
    assert!(a.initialization_barriers[0].is_empty());
    assert!(a.initialization_barriers[1].is_empty());
}

#[test]
fn late_resource_not_owned_by_idle_must_be_sent() {
    // The late value is produced by the priority-0 init context on
    // core 0 and handed to a priority-2 owner: transfer-safety on the
    // initializing core.
    let mut app = empty_app(1);
    app.resources.push(Resource { ty: 9, late: true });
    app.inits.push(Init { core: 0, late: vec![], resources: vec![] });
    app.resource_accesses.push(access(0, Some(2), 0, Mode::Exclusive));
    let a = analyze::app(&app);
    assert_eq!(a.send_types[0], vec![9]);
}

#[test]
fn late_resource_owned_by_idle_needs_no_send() {
    let mut app = empty_app(1);
    app.resources.push(Resource { ty: 9, late: true });
    app.inits.push(Init { core: 0, late: vec![], resources: vec![] });
    app.idles.push(Idle { core: 0 });
    app.resource_accesses.push(access(0, Some(0), 0, Mode::Exclusive));
    let a = analyze::app(&app);
    assert!(a.send_types[0].is_empty());
}

#[test]
fn init_requested_resource_with_higher_owner_must_be_sent() {
    let mut app = empty_app(1);
    app.resources.push(Resource { ty: 5, late: false });
    app.inits.push(Init { core: 0, late: vec![], resources: vec![0] });
    app.resource_accesses.push(access(0, None, 0, Mode::Exclusive));
    app.resource_accesses.push(access(0, Some(1), 0, Mode::Exclusive));
    let a = analyze::app(&app);
    assert_eq!(a.send_types[0], vec![5]);
}

#[test]
fn same_priority_same_core_spawn_needs_no_send() {
    // Spawn from priority 3 to a priority-3 task on the same core: the
    // payload type is not added to the transfer-safety set.
    let mut app = empty_app(1);
    app.software_tasks.push(task(0, 3, 1, vec![77]));
    app.spawn_calls.push(Call { core: 0, priority: Some(3), task: 0 });
    let a = analyze::app(&app);
    assert!(a.send_types[0].is_empty());
}

#[test]
fn cross_priority_spawn_needs_send() {
    // Spawn from priority 3 to a priority-5 task on the same core: the
    // payload type must be transfer-safe.
    let mut app = empty_app(1);
    app.software_tasks.push(task(0, 5, 1, vec![77]));
    app.spawn_calls.push(Call { core: 0, priority: Some(3), task: 0 });
    let a = analyze::app(&app);
    assert_eq!(a.send_types[0], vec![77]);
}

#[test]
fn cross_core_spawn_needs_send_on_both_cores() {
    let mut app = empty_app(2);
    app.software_tasks.push(task(1, 3, 1, vec![77]));
    app.spawn_calls.push(Call { core: 0, priority: Some(3), task: 0 });
    let a = analyze::app(&app);
    assert_eq!(a.send_types[0], vec![77]);
    assert_eq!(a.send_types[1], vec![77]);
}

#[test]
fn init_spawn_always_needs_send() {
    let mut app = empty_app(1);
    app.software_tasks.push(task(0, 3, 1, vec![77]));
    app.inits.push(Init { core: 0, late: vec![], resources: vec![] });
    app.spawn_calls.push(Call { core: 0, priority: None, task: 0 });
    let a = analyze::app(&app);
    assert_eq!(a.send_types[0], vec![77]);
}

#[test]
fn channel_capacity_is_the_sum_of_routed_tasks() {
    // Two tasks with capacities 2 and 3, dispatched at one priority on
    // one core from one sender: one channel of capacity 5; without the
    // second task the capacity drops by exactly 3.
    let mut app = empty_app(1);
    app.software_tasks.push(task(0, 1, 2, vec![]));
    app.software_tasks.push(task(0, 1, 3, vec![]));
    app.spawn_calls.push(Call { core: 0, priority: Some(2), task: 0 });
    app.spawn_calls.push(Call { core: 0, priority: Some(2), task: 1 });
    let a = analyze::app(&app);
    assert_eq!(a.channels.len(), 1);
    assert_eq!(a.channels[0].channel.capacity, 5);
    assert_eq!(a.channels[0].channel.tasks, vec![0, 1]);

    let mut smaller = empty_app(1);
    smaller.software_tasks.push(task(0, 1, 2, vec![]));
    smaller.software_tasks.push(task(0, 1, 3, vec![]));
    smaller.spawn_calls.push(Call { core: 0, priority: Some(2), task: 0 });
    let b = analyze::app(&smaller);
    assert_eq!(b.channels[0].channel.capacity, 2);
    assert_eq!(a.channels[0].channel.capacity - b.channels[0].channel.capacity, 3);
}

#[test]
fn repeated_spawns_count_a_task_once() {
    let mut app = empty_app(1);
    app.software_tasks.push(task(0, 1, 2, vec![]));
    app.spawn_calls.push(Call { core: 0, priority: Some(2), task: 0 });
    app.spawn_calls.push(Call { core: 0, priority: Some(3), task: 0 });
    let a = analyze::app(&app);
    assert_eq!(a.channels.len(), 1);
    assert_eq!(a.channels[0].channel.tasks, vec![0]);
    assert_eq!(a.channels[0].channel.capacity, 2);
}

#[test]
fn channels_are_keyed_by_receiver_priority_and_sender() {
    let mut app = empty_app(2);
    app.software_tasks.push(task(1, 4, 1, vec![]));
    app.software_tasks.push(task(1, 6, 1, vec![]));
    app.spawn_calls.push(Call { core: 0, priority: Some(1), task: 0 });
    app.spawn_calls.push(Call { core: 0, priority: Some(1), task: 1 });
    app.spawn_calls.push(Call { core: 1, priority: Some(1), task: 0 });
    let a = analyze::app(&app);
    assert_eq!(a.channels.len(), 3);
    assert_eq!(
        (a.channels[0].receiver, a.channels[0].priority, a.channels[0].sender),
        (1, 4, 0)
    );
    assert_eq!(
        (a.channels[1].receiver, a.channels[1].priority, a.channels[1].sender),
        (1, 6, 0)
    );
    assert_eq!(
        (a.channels[2].receiver, a.channels[2].priority, a.channels[2].sender),
        (1, 4, 1)
    );
}

#[test]
fn spawners_contend_for_the_channel_ceiling() {
    let mut app = empty_app(1);
    app.software_tasks.push(task(0, 2, 1, vec![]));
    app.spawn_calls.push(Call { core: 0, priority: Some(1), task: 0 });
    app.spawn_calls.push(Call { core: 0, priority: Some(4), task: 0 });
    let a = analyze::app(&app);
    assert_eq!(a.channels[0].channel.ceiling, Some(4));
}

#[test]
fn init_spawns_leave_the_ceiling_unset() {
    // A spawn from init contends with nothing: the channel exists but
    // no ceiling is recorded.
    let mut app = empty_app(1);
    app.software_tasks.push(task(0, 2, 1, vec![]));
    app.inits.push(Init { core: 0, late: vec![], resources: vec![] });
    app.spawn_calls.push(Call { core: 0, priority: None, task: 0 });
    let a = analyze::app(&app);
    assert_eq!(a.channels.len(), 1);
    assert_eq!(a.channels[0].channel.ceiling, None);
    assert_eq!(a.free_queues.len(), 1);
    assert_eq!(a.free_queues[0].ceiling, None);
}

#[test]
fn free_queues_are_keyed_by_task_and_sender() {
    let mut app = empty_app(2);
    app.software_tasks.push(task(1, 4, 1, vec![]));
    app.spawn_calls.push(Call { core: 0, priority: Some(1), task: 0 });
    app.spawn_calls.push(Call { core: 1, priority: Some(3), task: 0 });
    app.spawn_calls.push(Call { core: 0, priority: Some(2), task: 0 });
    let a = analyze::app(&app);
    assert_eq!(a.free_queues.len(), 2);
    assert_eq!((a.free_queues[0].task, a.free_queues[0].sender), (0, 0));
    assert_eq!(a.free_queues[0].ceiling, Some(2));
    assert_eq!((a.free_queues[1].task, a.free_queues[1].sender), (0, 1));
    assert_eq!(a.free_queues[1].ceiling, Some(3));
}

#[test]
fn timer_queue_follows_its_highest_schedulee() {
    // Schedulees at priorities 2 and 6: the handler runs at 6; a
    // priority-7 scheduler raises the ceiling above it.
    let mut app = empty_app(1);
    app.software_tasks.push(task(0, 2, 1, vec![]));
    app.software_tasks.push(task(0, 6, 4, vec![]));
    app.schedule_calls.push(Call { core: 0, priority: Some(7), task: 0 });
    app.schedule_calls.push(Call { core: 0, priority: Some(1), task: 1 });
    let a = analyze::app(&app);
    assert_eq!(a.timer_queues.len(), 1);
    assert_eq!(a.timer_queues[0].core, 0);
    assert_eq!(a.timer_queues[0].queue.priority, 6);
    assert_eq!(a.timer_queues[0].queue.ceiling, 7);
    assert_eq!(a.timer_queues[0].queue.tasks, vec![0, 1]);
    assert_eq!(a.timer_queues[0].queue.capacity, 5);
}

#[test]
fn schedule_raises_the_channel_to_the_handler_priority() {
    // The timer handler runs at the schedulee's priority 6 and
    // produces into the channel: the channel ceiling follows it even
    // though the scheduling call site itself came from init.
    let mut app = empty_app(1);
    app.software_tasks.push(task(0, 6, 1, vec![]));
    app.inits.push(Init { core: 0, late: vec![], resources: vec![] });
    app.schedule_calls.push(Call { core: 0, priority: None, task: 0 });
    let a = analyze::app(&app);
    assert_eq!(a.channels.len(), 1);
    assert_eq!(a.channels[0].channel.ceiling, Some(6));
    assert_eq!(a.timer_queues[0].queue.priority, 6);
    assert_eq!(a.timer_queues[0].queue.ceiling, 6);
}

#[test]
fn spawn_and_schedule_share_the_channel() {
    let mut app = empty_app(1);
    app.software_tasks.push(task(0, 3, 2, vec![]));
    app.software_tasks.push(task(0, 3, 1, vec![]));
    app.spawn_calls.push(Call { core: 0, priority: Some(1), task: 0 });
    app.schedule_calls.push(Call { core: 0, priority: Some(2), task: 1 });
    let a = analyze::app(&app);
    assert_eq!(a.channels.len(), 1);
    assert_eq!(a.channels[0].channel.tasks, vec![0, 1]);
    assert_eq!(a.channels[0].channel.capacity, 3);
    // spawner at 1, then the timer handler at 3: the handler wins
    assert_eq!(a.channels[0].channel.ceiling, Some(3));
}

#[test]
fn prioritized_scheduler_raises_its_free_queue() {
    let mut app = empty_app(1);
    app.software_tasks.push(task(0, 2, 1, vec![]));
    app.schedule_calls.push(Call { core: 0, priority: Some(5), task: 0 });
    let a = analyze::app(&app);
    assert_eq!(a.free_queues.len(), 1);
    assert_eq!((a.free_queues[0].task, a.free_queues[0].sender), (0, 0));
    assert_eq!(a.free_queues[0].ceiling, Some(5));
    assert_eq!(a.timer_queues[0].queue.ceiling, 5);
}

#[test]
fn timer_queue_default_is_empty_at_priority_one() {
    let q = TimerQueue::default();
    assert_eq!(q.capacity, 0);
    assert_eq!(q.ceiling, 1);
    assert_eq!(q.priority, 1);
    assert!(q.tasks.is_empty());
}

#[test]
fn used_cores_come_in_declaration_order() {
    let mut app = empty_app(3);
    app.inits.push(Init { core: 1, late: vec![], resources: vec![] });
    app.idles.push(Idle { core: 1 });
    app.hardware_tasks.push(HardwareTask { core: 2, priority: 1, binds: 3 });
    app.software_tasks.push(task(0, 1, 1, vec![]));
    let a = analyze::app(&app);
    assert_eq!(a.used_cores, vec![1, 2, 0]);
}

#[test]
fn mode_predicates_tell_the_modes_apart() {
    assert!(Mode::Exclusive.is_exclusive());
    assert!(!Mode::Exclusive.is_shared());
    assert!(Mode::Shared.is_shared());
    assert!(!Mode::Shared.is_exclusive());
}
