use sparsey::dispatcher::{
    merge_and_optimize_steps, required_command_buffers, run_result, Dispatcher, LocalFn, RunAction, SimpleStep, Step,
    System,
};
use sparsey::registry::RunError;
use sparsey::entity::Entity;
use sparsey::registry::{RegistryAccess, SystemError};
use sparsey::world::{World, WorldId};

const HP: u64 = 1;
const POS: u64 = 2;
const A: u64 = 3;
const LOG: u64 = 50;

fn system(id: usize, accesses: Vec<RegistryAccess>) -> System {
    System { id, accesses }
}

#[test]
fn conflicting_systems_run_in_sequence() {
    let mut b = Dispatcher::builder();
    b.add_system(system(0, vec![RegistryAccess::CompMut(HP)]));
    b.add_system(system(1, vec![RegistryAccess::CompMut(HP)]));
    let d = b.build();
    assert_eq!(d.max_concurrecy(), 1);
    assert_eq!(d.steps().len(), 3);
}

#[test]
fn disjoint_systems_share_a_stage() {
    let mut b = Dispatcher::builder();
    b.add_system(system(0, vec![RegistryAccess::Comp(HP)]));
    b.add_system(system(1, vec![RegistryAccess::CompMut(POS)]));
    let d = b.build();
    assert_eq!(d.max_concurrecy(), 2);
    assert_eq!(d.steps().len(), 2);
    match &d.steps()[0] {
        Step::RunSystems(v) => assert_eq!(v.iter().map(|s| s.id).collect::<Vec<_>>(), vec![0, 1]),
        _ => panic!("expected a parallel stage"),
    }
    assert!(matches!(d.steps()[1], Step::FlushCommands));
}

#[test]
fn shared_reads_and_commands_do_not_conflict() {
    assert!(!RegistryAccess::Comp(HP).conflicts(&RegistryAccess::Comp(HP)));
    assert!(RegistryAccess::Comp(HP).conflicts(&RegistryAccess::CompMut(HP)));
    assert!(RegistryAccess::ResMut(HP).conflicts(&RegistryAccess::Res(HP)));
    assert!(!RegistryAccess::Comp(HP).conflicts(&RegistryAccess::ResMut(HP)));
    assert!(!RegistryAccess::Commands.conflicts(&RegistryAccess::Commands));
    assert!(!RegistryAccess::CompMut(HP).conflicts(&RegistryAccess::CompMut(POS)));
}

#[test]
fn flushes_collapse_and_leading_flush_drops() {
    let steps = merge_and_optimize_steps(vec![
        SimpleStep::FlushCommands,
        SimpleStep::RunSystem(system(0, vec![])),
        SimpleStep::FlushCommands,
        SimpleStep::FlushCommands,
        SimpleStep::RunLocalFn(LocalFn { id: 1 }),
        SimpleStep::RunLocalFn(LocalFn { id: 2 }),
        SimpleStep::RunLocalSystem(system(3, vec![RegistryAccess::CompMut(HP)])),
        SimpleStep::RunLocalSystem(system(4, vec![RegistryAccess::CompMut(HP)])),
    ]);
    assert_eq!(steps.len(), 5);
    assert!(matches!(steps[0], Step::RunSystems(_)));
    assert!(matches!(steps[1], Step::FlushCommands));
    match &steps[2] {
        Step::RunLocalFns(v) => assert_eq!(v.len(), 2),
        _ => panic!("expected local functions"),
    }
    match &steps[3] {
        Step::RunLocalSystems(v) => assert_eq!(v.len(), 2),
        _ => panic!("expected local systems"),
    }
    assert!(matches!(steps[4], Step::FlushCommands));
    assert_eq!(merge_and_optimize_steps(vec![SimpleStep::FlushCommands]).len(), 0);
}

#[test]
fn command_buffers_count_between_flushes() {
    let steps = merge_and_optimize_steps(vec![
        SimpleStep::RunSystem(system(0, vec![RegistryAccess::Commands])),
        SimpleStep::RunSystem(system(1, vec![RegistryAccess::Commands, RegistryAccess::Comp(HP)])),
        SimpleStep::FlushCommands,
        SimpleStep::RunSystem(system(2, vec![RegistryAccess::Commands])),
    ]);
    assert_eq!(required_command_buffers(&steps), 2);
    let mut b = Dispatcher::builder();
    b.add_system(system(0, vec![RegistryAccess::Commands]));
    b.add_flush();
    assert_eq!(b.build().command_buffer_count(), 1);
}

#[test]
fn merge_moves_steps_of_other_builder() {
    let mut a = Dispatcher::builder();
    a.add_system(system(0, vec![]));
    let mut b = Dispatcher::builder();
    b.add_system(system(1, vec![]));
    a.merge(&mut b);
    assert_eq!(b.build().steps().len(), 0);
    let d = a.build();
    assert_eq!(d.max_concurrecy(), 2);
}

type Command = Box<dyn FnOnce(&mut World<u32>)>;

/// Runs test systems: system `id` is `funcs[id]`; each queues commands
/// into its own buffer.
struct TestExecutor {
    funcs: Vec<Box<dyn Fn(&World<u32>, &mut Vec<Command>) -> Result<(), SystemError>>>,
    buffers: Vec<Vec<Command>>,
    seen_ticks: Vec<u32>,
}

impl TestExecutor {
    fn run_systems(&mut self, systems: &[System], _local: bool, world: &mut World<u32>, change_tick: u32) -> Vec<SystemError> {
        let mut errors = Vec::new();
        for s in systems {
            self.seen_ticks.push(change_tick);
            let mut buffer = Vec::new();
            if let Err(e) = (self.funcs[s.id])(world, &mut buffer) {
                errors.push(e);
            }
            self.buffers.push(buffer);
        }
        errors
    }

    fn run_local_fns(&mut self, _fns: &[LocalFn], _world: &mut World<u32>) -> Vec<SystemError> {
        Vec::new()
    }

    fn flush(&mut self, world: &mut World<u32>) {
        world.maintain();
        for buffer in self.buffers.drain(..) {
            for command in buffer {
                command(world);
            }
        }
    }
}

fn run(d: &mut Dispatcher, world: &mut World<u32>, exec: &mut TestExecutor) -> Result<(), RunError> {
    let mut state = d.begin_run(world);
    loop {
        let errors = match d.next_action(&state) {
            RunAction::RunSystems(i) => exec.run_systems(d.systems_of(i), false, world, state.change_tick()),
            RunAction::RunLocalSystems(i) => exec.run_systems(d.systems_of(i), true, world, state.change_tick()),
            RunAction::RunLocalFns(i) => exec.run_local_fns(d.local_fns_of(i), world),
            RunAction::Flush => {
                exec.flush(world);
                Vec::new()
            },
            RunAction::Finish => break,
        };
        state.record(errors);
    }
    d.finish_run(state)
}

fn log_of(world: &World<u32>) -> u32 {
    *world.resource_ref(LOG).unwrap_or(&0)
}

#[test]
fn failing_system_does_not_stop_the_run() {
    let mut world: World<u32> = World::new(WorldId::new(20));
    let mut exec = TestExecutor {
        funcs: vec![
            Box::new(|_, _| Err(SystemError { message: String::from("failed") })),
            Box::new(|_, buf| {
                buf.push(Box::new(|w: &mut World<u32>| {
                    w.insert_resource(LOG, 7);
                }));
                Ok(())
            }),
        ],
        buffers: Vec::new(),
        seen_ticks: Vec::new(),
    };
    let mut b = Dispatcher::builder();
    b.add_system(system(0, vec![RegistryAccess::ResMut(LOG)]));
    b.add_system(system(1, vec![RegistryAccess::ResMut(LOG), RegistryAccess::Commands]));
    let mut d = b.build();
    let err = run(&mut d, &mut world, &mut exec).unwrap_err();
    assert_eq!(err.error_count(), 1);
    assert_eq!(err.errors[0].message, "failed");
    assert_eq!(log_of(&world), 7);
}

#[test]
fn commands_apply_at_flush() {
    let mut world: World<u32> = World::new(WorldId::new(21));
    world.register(A);
    let mut exec = TestExecutor {
        funcs: vec![
            Box::new(|_, buf| {
                buf.push(Box::new(|w: &mut World<u32>| {
                    w.create_entity(vec![(A, 1)]);
                }));
                Ok(())
            }),
            Box::new(|w, _| {
                if w.query(&vec![A], &vec![]).entities().is_empty() {
                    Ok(())
                } else {
                    Err(SystemError { message: String::from("seen before flush") })
                }
            }),
        ],
        buffers: Vec::new(),
        seen_ticks: Vec::new(),
    };
    let mut b = Dispatcher::builder();
    b.add_system(system(0, vec![RegistryAccess::Commands]));
    b.add_system(system(1, vec![RegistryAccess::Comp(A)]));
    b.add_flush();
    let mut d = b.build();
    assert_eq!(run(&mut d, &mut world, &mut exec), Ok(()));
    let found: Vec<Entity> = world.query(&vec![A], &vec![]).entities().to_vec();
    assert_eq!(found.len(), 1);
    assert_eq!(world.get_component(found[0], A), Some(&1));
}

#[test]
fn command_buffers_apply_in_system_order() {
    let mut world: World<u32> = World::new(WorldId::new(22));
    let mut exec = TestExecutor {
        funcs: vec![
            Box::new(|_, buf| {
                buf.push(Box::new(|w: &mut World<u32>| {
                    let v = *w.resource_ref(LOG).unwrap_or(&0);
                    w.insert_resource(LOG, v * 10 + 1);
                }));
                Ok(())
            }),
            Box::new(|_, buf| {
                buf.push(Box::new(|w: &mut World<u32>| {
                    let v = *w.resource_ref(LOG).unwrap_or(&0);
                    w.insert_resource(LOG, v * 10 + 2);
                }));
                Ok(())
            }),
        ],
        buffers: Vec::new(),
        seen_ticks: Vec::new(),
    };
    let mut b = Dispatcher::builder();
    b.add_system(system(0, vec![RegistryAccess::Commands]));
    b.add_system(system(1, vec![RegistryAccess::Commands]));
    let mut d = b.build();
    assert_eq!(d.max_concurrecy(), 2);
    run(&mut d, &mut world, &mut exec).unwrap();
    assert_eq!(log_of(&world), 12);
}

#[test]
fn run_records_world_tick_at_entry() {
    let mut world: World<u32> = World::new(WorldId::new(23));
    let mut exec = TestExecutor {
        funcs: vec![Box::new(|_, _| Ok(()))],
        buffers: Vec::new(),
        seen_ticks: Vec::new(),
    };
    let mut b = Dispatcher::builder();
    b.add_system(system(0, vec![]));
    let mut d = b.build();
    assert_eq!(d.change_tick(23), 0);
    world.increment_tick();
    world.increment_tick();
    run(&mut d, &mut world, &mut exec).unwrap();
    assert_eq!(d.change_tick(23), 2);
    world.increment_tick();
    run(&mut d, &mut world, &mut exec).unwrap();
    assert_eq!(d.change_tick(23), 3);
    assert_eq!(exec.seen_ticks, vec![0, 2]);
    assert_eq!(d.change_tick(99), 0);
}

#[test]
fn register_storages_covers_accessed_components() {
    let mut world: World<u32> = World::new(WorldId::new(24));
    let mut b = Dispatcher::builder();
    b.add_system(system(0, vec![RegistryAccess::Comp(HP), RegistryAccess::Res(LOG)]));
    b.add_local_system(system(1, vec![RegistryAccess::CompMut(POS), RegistryAccess::Commands]));
    let d = b.build();
    assert!(!world.is_registered(&HP));
    d.register_storages(&mut world);
    assert!(world.is_registered(&HP));
    assert!(world.is_registered(&POS));
    assert!(!world.is_registered(&LOG));
}

#[test]
fn run_result_joins_errors() {
    assert_eq!(run_result(vec![]), Ok(()));
    let e = SystemError { message: String::from("x") };
    assert_eq!(run_result(vec![e.clone()]).unwrap_err().errors, vec![e]);
}

#[test]
fn actions_follow_stages() {
    let mut world: World<u32> = World::new(WorldId::new(25));
    let mut b = Dispatcher::builder();
    b.add_system(system(0, vec![]));
    b.add_local_system(system(1, vec![]));
    b.add_flush();
    b.add_local_fn(LocalFn { id: 2 });
    let d = b.build();
    let mut state = d.begin_run(&world);
    let mut seen = Vec::new();
    loop {
        let a = d.next_action(&state);
        seen.push(a);
        if a == RunAction::Finish {
            break;
        }
        state.record(Vec::new());
    }
    assert_eq!(seen, vec![
        RunAction::RunSystems(0),
        RunAction::RunLocalSystems(1),
        RunAction::Flush,
        RunAction::RunLocalFns(3),
        RunAction::Flush,
        RunAction::Finish,
    ]);
    world.increment_tick();
}
