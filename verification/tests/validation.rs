use prioplan::ast::{Access, App, Call, HardwareTask, Idle, Init, Mode, Resource, SoftwareTask};
use prioplan::check;
use prioplan::check::Error;

fn empty_app(cores: u8) -> App {
    App {
        cores,
        resources: vec![],
        software_tasks: vec![],
        hardware_tasks: vec![],
        inits: vec![],
        idles: vec![],
        dispatchers: vec![],
        resource_accesses: vec![],
        spawn_calls: vec![],
        schedule_calls: vec![],
    }
}

fn access(core: u8, priority: Option<u8>, resource: usize, mode: Mode) -> Access {
    Access { core, priority, resource, mode }
}

#[test]
fn empty_model_is_valid() {
    let app = empty_app(1);
    assert_eq!(check::app(&app), Ok(()));
}

#[test]
fn plain_single_core_model_is_valid() {
    let mut app = empty_app(1);
    app.resources.push(Resource { ty: 7, late: false });
    app.software_tasks.push(SoftwareTask { core: 0, priority: 1, capacity: 1, inputs: vec![] });
    app.hardware_tasks.push(HardwareTask { core: 0, priority: 2, binds: 10 });
    app.inits.push(Init { core: 0, late: vec![], resources: vec![] });
    app.idles.push(Idle { core: 0 });
    app.resource_accesses.push(access(0, Some(1), 0, Mode::Exclusive));
    app.resource_accesses.push(access(0, Some(2), 0, Mode::Exclusive));
    app.spawn_calls.push(Call { core: 0, priority: Some(2), task: 0 });
    assert_eq!(check::app(&app), Ok(()));
}

#[test]
fn undeclared_resource_is_rejected() {
    let mut app = empty_app(1);
    app.resources.push(Resource { ty: 1, late: false });
    app.resource_accesses.push(access(0, Some(1), 0, Mode::Exclusive));
    app.resource_accesses.push(access(0, Some(1), 3, Mode::Exclusive));
    assert_eq!(check::app(&app), Err(Error::UndeclaredResource { access: 1 }));
}

#[test]
fn mixed_shared_exclusive_access_is_rejected() {
    // One resource, Shared from task A and Exclusive from task B, both
    // prioritized at different priorities.
    let mut app = empty_app(1);
    app.resources.push(Resource { ty: 1, late: false });
    app.resource_accesses.push(access(0, Some(2), 0, Mode::Shared));
    app.resource_accesses.push(access(0, Some(4), 0, Mode::Exclusive));
    assert_eq!(check::app(&app), Err(Error::MixedAccess { access: 0 }));
}

#[test]
fn shared_access_against_init_exclusive_is_allowed() {
    // The exclusive access comes from init (no priority): it never
    // takes a lock, so it does not count towards the mixed check.
    let mut app = empty_app(1);
    app.resources.push(Resource { ty: 1, late: false });
    app.inits.push(Init { core: 0, late: vec![], resources: vec![0] });
    app.resource_accesses.push(access(0, None, 0, Mode::Exclusive));
    app.resource_accesses.push(access(0, Some(2), 0, Mode::Shared));
    assert_eq!(check::app(&app), Ok(()));
}

#[test]
fn late_resources_without_init_are_rejected() {
    let mut app = empty_app(1);
    app.resources.push(Resource { ty: 1, late: true });
    assert_eq!(check::app(&app), Err(Error::LateResourcesWithoutInit));
}

#[test]
fn late_resources_with_init_are_accepted() {
    let mut app = empty_app(1);
    app.resources.push(Resource { ty: 1, late: true });
    app.inits.push(Init { core: 0, late: vec![], resources: vec![] });
    assert_eq!(check::app(&app), Ok(()));
}

#[test]
fn two_implicit_late_claimants_are_rejected() {
    // Two inits both omit an explicit late list while late resources
    // exist: validation must refuse the model.
    let mut app = empty_app(2);
    app.resources.push(Resource { ty: 1, late: true });
    app.inits.push(Init { core: 0, late: vec![], resources: vec![] });
    app.inits.push(Init { core: 1, late: vec![], resources: vec![] });
    assert_eq!(check::app(&app), Err(Error::MultipleImplicitClaimants { init: 1 }));
}

#[test]
fn two_implicit_claimants_without_late_resources_are_allowed() {
    let mut app = empty_app(2);
    app.inits.push(Init { core: 0, late: vec![], resources: vec![] });
    app.inits.push(Init { core: 1, late: vec![], resources: vec![] });
    assert_eq!(check::app(&app), Ok(()));
}

#[test]
fn explicit_and_implicit_claimants_are_allowed() {
    let mut app = empty_app(2);
    app.resources.push(Resource { ty: 1, late: true });
    app.resources.push(Resource { ty: 2, late: true });
    app.inits.push(Init { core: 0, late: vec![0], resources: vec![] });
    app.inits.push(Init { core: 1, late: vec![], resources: vec![] });
    assert_eq!(check::app(&app), Ok(()));
}

#[test]
fn dispatcher_interrupt_reused_as_hardware_task_is_rejected() {
    let mut app = empty_app(1);
    app.dispatchers.push(31);
    app.hardware_tasks.push(HardwareTask { core: 0, priority: 1, binds: 16 });
    app.hardware_tasks.push(HardwareTask { core: 0, priority: 2, binds: 31 });
    assert_eq!(check::app(&app), Err(Error::DispatcherCollision { task: 1 }));
}

#[test]
fn hardware_task_on_free_interrupt_is_allowed() {
    let mut app = empty_app(1);
    app.dispatchers.push(31);
    app.hardware_tasks.push(HardwareTask { core: 0, priority: 1, binds: 16 });
    assert_eq!(check::app(&app), Ok(()));
}

#[test]
fn first_failing_check_wins() {
    // Both an undeclared resource and a dispatcher collision: the
    // undeclared resource is reported, in check order.
    let mut app = empty_app(1);
    app.dispatchers.push(31);
    app.hardware_tasks.push(HardwareTask { core: 0, priority: 2, binds: 31 });
    app.resource_accesses.push(access(0, Some(1), 0, Mode::Exclusive));
    assert_eq!(check::app(&app), Err(Error::UndeclaredResource { access: 0 }));
}
