use vstd::prelude::*;
use crate::registry::{accesses_conflict, any_conflict, RegistryAccess, RunError, SystemError};
use crate::tick_map::{tick_entries, tick_map_get, tick_map_insert, tick_map_new, TickMap};
use crate::ticks::Ticks;
use crate::entity::Entity;
use crate::storage::ComponentTypeId;
use crate::world::World;

verus! {

/// A system as the scheduler sees it: the key under which its function is
/// registered with the executor, and the data it accesses.
pub struct System {
    pub id: usize,
    pub accesses: Vec<RegistryAccess>,
}

/// A system that must run on the dispatching thread.
pub type LocalSystem = System;

/// A function that runs on the dispatching thread with exclusive access to
/// the world.
#[derive(Clone, Copy, PartialEq, Eq, Structural, Debug)]
pub struct LocalFn {
    pub id: usize,
}

/// One step as it was added to a builder.
pub enum SimpleStep {
    RunSystem(System),
    RunLocalSystem(LocalSystem),
    RunLocalFn(LocalFn),
    FlushCommands,
}

/// One stage of a built dispatcher.
pub enum Step {
    RunSystems(Vec<System>),
    RunLocalSystems(Vec<LocalSystem>),
    RunLocalFns(Vec<LocalFn>),
    FlushCommands,
}

/// What runs, in order, each system with its accesses, and the barriers.
pub enum StepItem {
    System(usize, Seq<RegistryAccess>),
    LocalSystem(usize, Seq<RegistryAccess>),
    LocalFn(usize),
    Flush,
}

pub open spec fn simple_step_items(s: SimpleStep) -> Seq<StepItem> {
    match s {
        SimpleStep::RunSystem(x) => seq![StepItem::System(x.id, x.accesses@)],
        SimpleStep::RunLocalSystem(x) => seq![StepItem::LocalSystem(x.id, x.accesses@)],
        SimpleStep::RunLocalFn(x) => seq![StepItem::LocalFn(x.id)],
        SimpleStep::FlushCommands => seq![StepItem::Flush],
    }
}

/// The items with every barrier dropped that comes first or right after
/// another barrier.
pub open spec fn collapse(items: Seq<StepItem>) -> Seq<StepItem>
    decreases items.len(),
{
    if items.len() == 0 {
        seq![]
    } else {
        let c = collapse(items.drop_last());
        if items.last() is Flush {
            if c.len() == 0 || c.last() is Flush {
                c
            } else {
                c.push(StepItem::Flush)
            }
        } else {
            c.push(items.last())
        }
    }
}

/// The items with a barrier appended unless they end with one or are empty.
pub open spec fn terminated(items: Seq<StepItem>) -> Seq<StepItem> {
    if items.len() > 0 && !(items.last() is Flush) {
        items.push(StepItem::Flush)
    } else {
        items
    }
}

pub open spec fn simple_items(ss: Seq<SimpleStep>) -> Seq<StepItem>
    decreases ss.len(),
{
    if ss.len() == 0 {
        seq![]
    } else {
        simple_items(ss.drop_last()) + simple_step_items(ss.last())
    }
}

pub open spec fn step_items(s: Step) -> Seq<StepItem> {
    match s {
        Step::RunSystems(v) => Seq::new(v@.len(), |i: int| StepItem::System(v@[i].id, v@[i].accesses@)),
        Step::RunLocalSystems(v) => Seq::new(v@.len(), |i: int| StepItem::LocalSystem(v@[i].id, v@[i].accesses@)),
        Step::RunLocalFns(v) => Seq::new(v@.len(), |i: int| StepItem::LocalFn(v@[i].id)),
        Step::FlushCommands => seq![StepItem::Flush],
    }
}

pub open spec fn flatten(steps: Seq<Step>) -> Seq<StepItem>
    decreases steps.len(),
{
    if steps.len() == 0 {
        seq![]
    } else {
        flatten(steps.drop_last()) + step_items(steps.last())
    }
}

/// No two systems of the list have conflicting accesses.
pub open spec fn conflict_free(v: Seq<System>) -> bool {
    forall|i: int, j: int|
        0 <= i < v.len() && 0 <= j < v.len() && i != j ==> !accesses_conflict(
            (#[trigger] v[i]).accesses@,
            (#[trigger] v[j]).accesses@,
        )
}

/// Some system of the list conflicts with `s`.
pub open spec fn conflicts_with_some(v: Seq<System>, s: System) -> bool {
    exists|i: int| 0 <= i < v.len() && accesses_conflict((#[trigger] v[i]).accesses@, s.accesses@)
}

pub open spec fn is_flush(s: Step) -> bool {
    s is FlushCommands
}

/// A stage is never empty, and the systems of a parallel stage never
/// conflict.
pub open spec fn stage_ok(s: Step) -> bool {
    match s {
        Step::RunSystems(v) => v@.len() > 0 && conflict_free(v@),
        Step::RunLocalSystems(v) => v@.len() > 0,
        Step::RunLocalFns(v) => v@.len() > 0,
        Step::FlushCommands => true,
    }
}

/// Adjacent stages could not have been merged: a parallel stage is followed
/// by another only when that one's first system conflicts with the first,
/// local stages of one kind never follow each other, and neither do barriers.
pub open spec fn adjacent_ok(a: Step, b: Step) -> bool {
    match (a, b) {
        (Step::RunSystems(v), Step::RunSystems(w)) => w@.len() > 0 && conflicts_with_some(v@, w@[0]),
        (Step::RunLocalSystems(_), Step::RunLocalSystems(_)) => false,
        (Step::RunLocalFns(_), Step::RunLocalFns(_)) => false,
        (Step::FlushCommands, Step::FlushCommands) => false,
        _ => true,
    }
}

/// The shape of a merged list of stages.
pub open spec fn steps_ok(steps: Seq<Step>) -> bool {
    &&& forall|k: int| 0 <= k < steps.len() ==> stage_ok(#[trigger] steps[k])
    &&& forall|k: int| 0 <= k < steps.len() - 1 ==> adjacent_ok(#[trigger] steps[k], steps[k + 1])
    &&& steps.len() > 0 ==> !is_flush(steps[0])
}

proof fn lemma_conflict_symmetric(a: Seq<RegistryAccess>, b: Seq<RegistryAccess>)
    ensures
        accesses_conflict(a, b) == accesses_conflict(b, a),
{
    if accesses_conflict(a, b) {
        let (i, j) = choose|i: int, j: int|
            0 <= i < a.len() && 0 <= j < b.len() && (#[trigger] a[i]).conflicts_spec(#[trigger] b[j]);
        assert(b[j].conflicts_spec(a[i]));
    }
    if accesses_conflict(b, a) {
        let (i, j) = choose|i: int, j: int|
            0 <= i < b.len() && 0 <= j < a.len() && (#[trigger] b[i]).conflicts_spec(#[trigger] a[j]);
        assert(a[j].conflicts_spec(b[i]));
    }
}

/// Checks whether `system` conflicts with any system of `systems`.
pub fn conflicts_with_any(systems: &Vec<System>, system: &System) -> (r: bool)
    ensures
        r == conflicts_with_some(systems@, *system),
{
    let mut i: usize = 0;
    while i < systems.len()
        invariant
            i <= systems@.len(),
            forall|k: int| 0 <= k < i ==> !accesses_conflict((#[trigger] systems@[k]).accesses@, system.accesses@),
        decreases systems.len() - i,
    {
        if any_conflict(&systems[i].accesses, &system.accesses) {
            return true;
        }
        i = i + 1;
    }
    false
}

proof fn lemma_flatten_push(steps: Seq<Step>, s: Step)
    ensures
        flatten(steps.push(s)) == flatten(steps) + step_items(s),
{
    assert(steps.push(s).drop_last() =~= steps);
}

proof fn lemma_simple_items_push(ss: Seq<SimpleStep>, s: SimpleStep)
    ensures
        simple_items(ss.push(s)) == simple_items(ss) + simple_step_items(s),
{
    assert(ss.push(s).drop_last() =~= ss);
}

fn push_system(steps: &mut Vec<Step>, system: System)
    requires
        steps_ok(old(steps)@),
    ensures
        steps_ok(final(steps)@),
        flatten(final(steps)@) == flatten(old(steps)@) + seq![StepItem::System(system.id, system.accesses@)],
{
    let ghost before = steps@;
        let ghost sid = system.id;
    let ghost sacc = system.accesses@;
        match steps.pop() {
            Some(Step::RunSystems(mut systems)) => {
                let ghost prefix = steps@;
                if conflicts_with_any(&systems, &system) {
                    proof {
                        lemma_flatten_push(prefix, Step::RunSystems(systems));
                    }
                    steps.push(Step::RunSystems(systems));
                    let ghost mid = steps@;
                    steps.push(Step::RunSystems(vec![system]));
                    proof {
                        lemma_flatten_push(mid, steps@.last());
                        assert(step_items(steps@.last()) =~= seq![StepItem::System(sid, sacc)]);
                        assert(steps@.drop_last() =~= before);
                    }
                } else {
                    let ghost old_systems = systems@;
                    systems.push(system);
                    proof {
                        assert forall|i: int, j: int|
                            0 <= i < systems@.len() && 0 <= j < systems@.len() && i != j implies !accesses_conflict(
                                (#[trigger] systems@[i]).accesses@,
                                (#[trigger] systems@[j]).accesses@,
                            ) by {
                            lemma_conflict_symmetric(systems@[i].accesses@, systems@[j].accesses@);
                            if i < old_systems.len() && j < old_systems.len() {
                                assert(systems@[i] == old_systems[i]);
                                assert(systems@[j] == old_systems[j]);
                            } else if i < old_systems.len() {
                                assert(systems@[i] == old_systems[i]);
                            } else {
                                assert(systems@[j] == old_systems[j]);
                            }
                        }
                    }
                    let ghost last_before = before.last();
                    steps.push(Step::RunSystems(systems));
                    proof {
                        lemma_flatten_push(prefix, steps@.last());
                        assert(before =~= prefix.push(last_before));
                        lemma_flatten_push(prefix, last_before);
                        assert(step_items(steps@.last()) =~= step_items(last_before) + seq![StepItem::System(sid, sacc)]);
                        if before.len() >= 2 {
                            assert(adjacent_ok(before[before.len() - 2], before[before.len() - 1]));
                            assert(steps@[before.len() - 2] == before[before.len() - 2]);
                        }
                        assert forall|k: int| 0 <= k < steps@.len() - 1 implies adjacent_ok(
                            #[trigger] steps@[k],
                            steps@[k + 1],
                        ) by {
                            if k < steps@.len() - 2 {
                                assert(steps@[k] == before[k]);
                                assert(steps@[k + 1] == before[k + 1]);
                            } else {
                                assert(steps@[k] == before[k]);
                                assert(adjacent_ok(before[k], before[k + 1]));
                                if let Step::RunSystems(w) = before[k + 1] {
                                    assert(systems@[0] == w@[0]);
                                }
                            }
                        }
                    }
                }
            },
            Some(other) => {
                let ghost prefix = steps@;
                proof {
                    assert(before =~= prefix.push(other));
                }
                steps.push(other);
                let ghost mid = steps@;
                steps.push(Step::RunSystems(vec![system]));
                proof {
                    lemma_flatten_push(mid, steps@.last());
                    assert(step_items(steps@.last()) =~= seq![StepItem::System(sid, sacc)]);
                    assert(steps@.drop_last() =~= before);
                }
            },
            None => {
                steps.push(Step::RunSystems(vec![system]));
                proof {
                    lemma_flatten_push(before, steps@.last());
                    assert(step_items(steps@.last()) =~= seq![StepItem::System(sid, sacc)]);
                    assert(steps@.drop_last() =~= before);
                }
            },
        }
}

fn push_local_system(steps: &mut Vec<Step>, system: LocalSystem)
    requires
        steps_ok(old(steps)@),
    ensures
        steps_ok(final(steps)@),
        flatten(final(steps)@) == flatten(old(steps)@) + seq![StepItem::LocalSystem(system.id, system.accesses@)],
{
    let ghost before = steps@;
        let ghost sid = system.id;
    let ghost sacc = system.accesses@;
        match steps.pop() {
            Some(Step::RunLocalSystems(mut systems)) => {
                let ghost prefix = steps@;
                let ghost last_before = before.last();
                systems.push(system);
                steps.push(Step::RunLocalSystems(systems));
                proof {
                    lemma_flatten_push(prefix, steps@.last());
                    assert(before =~= prefix.push(last_before));
                    lemma_flatten_push(prefix, last_before);
                    assert(step_items(steps@.last()) =~= step_items(last_before) + seq![StepItem::LocalSystem(sid, sacc)]);
                    assert forall|k: int| 0 <= k < steps@.len() - 1 implies adjacent_ok(
                        #[trigger] steps@[k],
                        steps@[k + 1],
                    ) by {
                        assert(steps@[k] == before[k]);
                        assert(adjacent_ok(before[k], before[k + 1]));
                    }
                }
            },
            Some(other) => {
                let ghost prefix = steps@;
                proof {
                    assert(before =~= prefix.push(other));
                }
                steps.push(other);
                let ghost mid = steps@;
                steps.push(Step::RunLocalSystems(vec![system]));
                proof {
                    lemma_flatten_push(mid, steps@.last());
                    assert(step_items(steps@.last()) =~= seq![StepItem::LocalSystem(sid, sacc)]);
                    assert(steps@.drop_last() =~= before);
                }
            },
            None => {
                steps.push(Step::RunLocalSystems(vec![system]));
                proof {
                    lemma_flatten_push(before, steps@.last());
                    assert(step_items(steps@.last()) =~= seq![StepItem::LocalSystem(sid, sacc)]);
                    assert(steps@.drop_last() =~= before);
                }
            },
        }
}

fn push_local_fn(steps: &mut Vec<Step>, f: LocalFn)
    requires
        steps_ok(old(steps)@),
    ensures
        steps_ok(final(steps)@),
        flatten(final(steps)@) == flatten(old(steps)@) + seq![StepItem::LocalFn(f.id)],
{
    let ghost before = steps@;
        match steps.pop() {
            Some(Step::RunLocalFns(mut fns)) => {
                let ghost prefix = steps@;
                let ghost last_before = before.last();
                fns.push(f);
                steps.push(Step::RunLocalFns(fns));
                proof {
                    lemma_flatten_push(prefix, steps@.last());
                    assert(before =~= prefix.push(last_before));
                    lemma_flatten_push(prefix, last_before);
                    assert(step_items(steps@.last()) =~= step_items(last_before) + seq![StepItem::LocalFn(f.id)]);
                    assert forall|k: int| 0 <= k < steps@.len() - 1 implies adjacent_ok(
                        #[trigger] steps@[k],
                        steps@[k + 1],
                    ) by {
                        assert(steps@[k] == before[k]);
                        assert(adjacent_ok(before[k], before[k + 1]));
                    }
                }
            },
            Some(other) => {
                let ghost prefix = steps@;
                proof {
                    assert(before =~= prefix.push(other));
                }
                steps.push(other);
                let ghost mid = steps@;
                steps.push(Step::RunLocalFns(vec![f]));
                proof {
                    lemma_flatten_push(mid, steps@.last());
                    assert(step_items(steps@.last()) =~= seq![StepItem::LocalFn(f.id)]);
                    assert(steps@.drop_last() =~= before);
                }
            },
            None => {
                steps.push(Step::RunLocalFns(vec![f]));
                proof {
                    lemma_flatten_push(before, steps@.last());
                    assert(step_items(steps@.last()) =~= seq![StepItem::LocalFn(f.id)]);
                    assert(steps@.drop_last() =~= before);
                }
            },
        }
}

fn push_flush(steps: &mut Vec<Step>)
    requires
        steps_ok(old(steps)@),
    ensures
        steps_ok(final(steps)@),
        flatten(final(steps)@) == (if flatten(old(steps)@).len() == 0 || flatten(old(steps)@).last() is Flush {
            flatten(old(steps)@)
        } else {
            flatten(old(steps)@).push(StepItem::Flush)
        }),
{
    let ghost before = steps@;
    proof {
        lemma_flatten_end(before);
    }
    let n = steps.len();
    if n > 0 && !steps_last_is_flush(&steps) {
        steps.push(Step::FlushCommands);
        proof {
            lemma_flatten_push(before, Step::FlushCommands);
            assert(step_items(Step::FlushCommands) =~= seq![StepItem::Flush]);
            assert(flatten(steps@) =~= flatten(before).push(StepItem::Flush));
            assert forall|k: int| 0 <= k < steps@.len() - 1 implies adjacent_ok(#[trigger] steps@[k], steps@[k + 1]) by {
                assert(steps@[k] == before[k]);
                if k < steps@.len() - 2 {
                    assert(steps@[k + 1] == before[k + 1]);
                }
            }
        }
    }
}

/// The items of well-formed stages are empty exactly when there are no
/// stages, and end with a barrier exactly when the last stage is one.
proof fn lemma_flatten_end(steps: Seq<Step>)
    requires
        steps_ok(steps),
    ensures
        (flatten(steps).len() == 0) == (steps.len() == 0),
        steps.len() > 0 ==> ((flatten(steps).last() is Flush) == is_flush(steps.last())),
{
    if steps.len() > 0 {
        let last = steps.last();
        assert(stage_ok(steps[steps.len() - 1]));
        assert(flatten(steps) == flatten(steps.drop_last()) + step_items(last));
        let items = step_items(last);
        assert(items.len() > 0);
        assert(flatten(steps).last() == items.last());
    }
}

/// Merges the steps of a builder into stages. Consecutive systems share a
/// stage while the newcomer conflicts with none already in it; consecutive
/// local steps of one kind share a stage; a barrier is appended, and
/// leading or repeated barriers are dropped.
pub fn merge_and_optimize_steps(simple_steps: Vec<SimpleStep>) -> (r: Vec<Step>)
    ensures
        flatten(r@) == terminated(collapse(simple_items(simple_steps@))),
        steps_ok(r@),
        r@.len() > 0 ==> is_flush(r@.last()),
{
    let ghost input = simple_steps@;
    let total = simple_steps.len();
    let mut pending = simple_steps;
    let mut rev: Vec<SimpleStep> = Vec::new();
    while pending.len() > 0
        invariant
            pending@ + rev@.reverse() == input,
        decreases pending@.len(),
    {
        let s = pending.pop().unwrap();
        rev.push(s);
        proof {
            assert(pending@ + rev@.reverse() =~= input);
        }
    }
    let mut steps: Vec<Step> = Vec::new();
    let mut done: usize = 0;
    proof {
        assert(input.subrange(0, 0) =~= Seq::<SimpleStep>::empty());
    }
    while rev.len() > 0
        invariant
            rev@.reverse() == input.subrange(done as int, input.len() as int),
            done <= input.len(),
            input.len() == total,
            flatten(steps@) == collapse(simple_items(input.subrange(0, done as int))),
            steps_ok(steps@),
        decreases rev@.len(),
    {
        let ghost rev_old = rev@;
        let s = rev.pop().unwrap();
        proof {
            assert(rev_old.reverse().len() == rev_old.len());
            assert(done < input.len());
            assert(input.subrange(done as int, input.len() as int)[0] == s);
            assert(input[done as int] == s);
            assert(input.subrange(0, done as int + 1) =~= input.subrange(0, done as int).push(s));
            lemma_simple_items_push(input.subrange(0, done as int), s);
        }
        match s {
            SimpleStep::RunSystem(system) => push_system(&mut steps, system),
            SimpleStep::RunLocalSystem(system) => push_local_system(&mut steps, system),
            SimpleStep::RunLocalFn(f) => push_local_fn(&mut steps, f),
            SimpleStep::FlushCommands => push_flush(&mut steps),
        }
        proof {
            let pre_items = simple_items(input.subrange(0, done as int));
            let it = simple_step_items(s);
            assert(it.len() == 1);
            assert(simple_items(input.subrange(0, done as int + 1)) =~= pre_items.push(it[0]));
            assert(pre_items.push(it[0]).drop_last() =~= pre_items);
            assert(collapse(simple_items(input.subrange(0, done as int + 1))) == flatten(steps@));
        }
        done = done + 1;
        proof {
            assert(rev@ =~= rev_old.drop_last());
            assert(rev@.reverse() =~= rev_old.reverse().subrange(1, rev_old.len() as int));
            assert(rev@.reverse() =~= input.subrange(done as int, input.len() as int));
        }
    }
    proof {
        assert(input.subrange(0, done as int) =~= input);
    }
    proof {
        lemma_flatten_end(steps@);
    }
    let n = steps.len();
    if n > 0 && !steps_last_is_flush(&steps) {
        let ghost before = steps@;
        steps.push(Step::FlushCommands);
        proof {
            lemma_flatten_push(before, Step::FlushCommands);
            assert(step_items(Step::FlushCommands) =~= seq![StepItem::Flush]);
            assert(flatten(steps@) =~= flatten(before).push(StepItem::Flush));
            assert forall|k: int| 0 <= k < steps@.len() - 1 implies adjacent_ok(#[trigger] steps@[k], steps@[k + 1]) by {
                assert(steps@[k] == before[k]);
                if k < steps@.len() - 2 {
                    assert(steps@[k + 1] == before[k + 1]);
                }
            }
        }
    }
    proof {
        if steps@.len() == 0 {
            assert(flatten(steps@) =~= seq![]);
        }
    }
    steps
}

fn steps_last_is_flush(steps: &Vec<Step>) -> (r: bool)
    requires
        steps@.len() > 0,
    ensures
        r == is_flush(steps@.last()),
{
    match &steps[steps.len() - 1] {
        Step::FlushCommands => true,
        _ => false,
    }
}

/// Caps a count at the largest `usize`.
pub open spec fn saturate(x: int) -> int {
    if x > usize::MAX {
        usize::MAX as int
    } else {
        x
    }
}

/// How many of the accesses ask for a command buffer.
pub open spec fn commands_in(acc: Seq<RegistryAccess>) -> int
    decreases acc.len(),
{
    if acc.len() == 0 {
        0
    } else {
        commands_in(acc.drop_last()) + if acc.last() is Commands {
            1int
        } else {
            0int
        }
    }
}

/// How many command buffers the systems ask for together.
pub open spec fn systems_commands(v: Seq<System>) -> int
    decreases v.len(),
{
    if v.len() == 0 {
        0
    } else {
        saturate(systems_commands(v.drop_last()) + commands_in(v.last().accesses@))
    }
}

/// Scans the stages from the first: the most buffers needed between two
/// barriers so far, and the buffers needed since the last barrier.
pub open spec fn buffer_scan(steps: Seq<Step>) -> (int, int)
    decreases steps.len(),
{
    if steps.len() == 0 {
        (0, 0)
    } else {
        let (m, c) = buffer_scan(steps.drop_last());
        match steps.last() {
            Step::RunSystems(v) => (m, saturate(c + systems_commands(v@))),
            Step::RunLocalSystems(v) => (m, saturate(c + systems_commands(v@))),
            Step::FlushCommands => (if m > c {
                m
            } else {
                c
            }, 0),
            Step::RunLocalFns(_) => (m, c),
        }
    }
}

/// The largest number of systems in one parallel stage, and at least one.
pub open spec fn max_parallel(steps: Seq<Step>) -> int
    decreases steps.len(),
{
    if steps.len() == 0 {
        1
    } else {
        let m = max_parallel(steps.drop_last());
        match steps.last() {
            Step::RunSystems(v) => if v@.len() > m {
                v@.len() as int
            } else {
                m
            },
            _ => m,
        }
    }
}

proof fn lemma_commands_bound(acc: Seq<RegistryAccess>)
    ensures
        0 <= commands_in(acc) <= acc.len(),
    decreases acc.len(),
{
    if acc.len() > 0 {
        lemma_commands_bound(acc.drop_last());
    }
}

proof fn lemma_systems_bound(v: Seq<System>)
    ensures
        0 <= systems_commands(v) <= usize::MAX,
    decreases v.len(),
{
    if v.len() > 0 {
        lemma_systems_bound(v.drop_last());
        lemma_commands_bound(v.last().accesses@);
    }
}

proof fn lemma_scan_bound(steps: Seq<Step>)
    ensures
        0 <= buffer_scan(steps).0 <= usize::MAX,
        0 <= buffer_scan(steps).1 <= usize::MAX,
    decreases steps.len(),
{
    if steps.len() > 0 {
        lemma_scan_bound(steps.drop_last());
        match steps.last() {
            Step::RunSystems(v) => lemma_systems_bound(v@),
            Step::RunLocalSystems(v) => lemma_systems_bound(v@),
            _ => {},
        }
    }
}

/// Counts the accesses that ask for a command buffer.
pub fn count_commands(accesses: &Vec<RegistryAccess>) -> (r: usize)
    ensures
        r == commands_in(accesses@),
{
    let mut n: usize = 0;
    let mut i: usize = 0;
    while i < accesses.len()
        invariant
            i <= accesses@.len(),
            n == commands_in(accesses@.subrange(0, i as int)),
            n <= i,
        decreases accesses.len() - i,
    {
        proof {
            assert(accesses@.subrange(0, i + 1).drop_last() =~= accesses@.subrange(0, i as int));
        }
        match &accesses[i] {
            RegistryAccess::Commands => {
                n = n + 1;
            },
            _ => {},
        }
        i = i + 1;
    }
    proof {
        assert(accesses@.subrange(0, i as int) =~= accesses@);
    }
    n
}

/// Counts the command buffers that the systems ask for together.
pub fn count_command_buffers(systems: &Vec<System>) -> (r: usize)
    ensures
        r == systems_commands(systems@),
{
    let mut n: usize = 0;
    let mut i: usize = 0;
    while i < systems.len()
        invariant
            i <= systems@.len(),
            n == systems_commands(systems@.subrange(0, i as int)),
        decreases systems.len() - i,
    {
        proof {
            assert(systems@.subrange(0, i + 1).drop_last() =~= systems@.subrange(0, i as int));
        }
        let c = count_commands(&systems[i].accesses);
        n = n.saturating_add(c);
        i = i + 1;
    }
    proof {
        assert(systems@.subrange(0, i as int) =~= systems@);
    }
    n
}

/// The number of command buffers a dispatcher needs: the most that the
/// systems between two barriers ask for.
pub fn required_command_buffers(steps: &Vec<Step>) -> (r: usize)
    ensures
        r == buffer_scan(steps@).0,
{
    let mut max_count: usize = 0;
    let mut count: usize = 0;
    let mut i: usize = 0;
    while i < steps.len()
        invariant
            i <= steps@.len(),
            (max_count as int, count as int) == buffer_scan(steps@.subrange(0, i as int)),
        decreases steps.len() - i,
    {
        proof {
            assert(steps@.subrange(0, i + 1).drop_last() =~= steps@.subrange(0, i as int));
        }
        match &steps[i] {
            Step::RunSystems(systems) => {
                count = count.saturating_add(count_command_buffers(systems));
            },
            Step::RunLocalSystems(systems) => {
                count = count.saturating_add(count_command_buffers(systems));
            },
            Step::FlushCommands => {
                if count > max_count {
                    max_count = count;
                }
                count = 0;
            },
            Step::RunLocalFns(_) => {},
        }
        i = i + 1;
    }
    proof {
        assert(steps@.subrange(0, i as int) =~= steps@);
    }
    max_count
}

/// Implements the builder pattern to create a `Dispatcher`.
pub struct DispatcherBuilder {
    simple_steps: Vec<SimpleStep>,
}

impl DispatcherBuilder {
    pub closed spec fn steps_seq(&self) -> Seq<SimpleStep> {
        self.simple_steps@
    }

    pub fn new() -> (r: Self)
        ensures
            r.steps_seq().len() == 0,
    {
        DispatcherBuilder { simple_steps: Vec::new() }
    }

    /// Adds a system to the dispatcher.
    pub fn add_system(&mut self, system: System) -> (r: &mut Self)
        ensures
            r.steps_seq() == old(self).steps_seq().push(SimpleStep::RunSystem(system)),
            *final(self) == *final(r),
    {
        self.simple_steps.push(SimpleStep::RunSystem(system));
        self
    }

    /// Adds a system that runs on the dispatching thread.
    pub fn add_local_system(&mut self, system: LocalSystem) -> (r: &mut Self)
        ensures
            r.steps_seq() == old(self).steps_seq().push(SimpleStep::RunLocalSystem(system)),
            *final(self) == *final(r),
    {
        self.simple_steps.push(SimpleStep::RunLocalSystem(system));
        self
    }

    /// Adds a function that runs on the dispatching thread with exclusive
    /// access to the world.
    pub fn add_local_fn(&mut self, system: LocalFn) -> (r: &mut Self)
        ensures
            r.steps_seq() == old(self).steps_seq().push(SimpleStep::RunLocalFn(system)),
            *final(self) == *final(r),
    {
        self.simple_steps.push(SimpleStep::RunLocalFn(system));
        self
    }

    /// Adds a barrier at which the queued commands run with exclusive access
    /// to the world.
    pub fn add_flush(&mut self) -> (r: &mut Self)
        ensures
            r.steps_seq() == old(self).steps_seq().push(SimpleStep::FlushCommands),
            *final(self) == *final(r),
    {
        self.simple_steps.push(SimpleStep::FlushCommands);
        self
    }

    /// Appends the steps of `other`, which is left empty.
    pub fn merge(&mut self, other: &mut DispatcherBuilder) -> (r: &mut Self)
        ensures
            r.steps_seq() == old(self).steps_seq() + old(other).steps_seq(),
            final(other).steps_seq().len() == 0,
            *final(self) == *final(r),
    {
        self.simple_steps.append(&mut other.simple_steps);
        self
    }

    /// Builds a dispatcher from the steps added so far, leaving the builder
    /// empty.
    pub fn build(&mut self) -> (r: Dispatcher)
        ensures
            final(self).steps_seq().len() == 0,
            flatten(r.steps_seq()) == terminated(collapse(simple_items(old(self).steps_seq()))),
            steps_ok(r.steps_seq()),
            r.steps_seq().len() > 0 ==> is_flush(r.steps_seq().last()),
            r.command_buffers_spec() == buffer_scan(r.steps_seq()).0,
            tick_entries(r.change_ticks_spec()).dom().is_empty(),
    {
        let mut taken: Vec<SimpleStep> = Vec::new();
        std::mem::swap(&mut taken, &mut self.simple_steps);
        let steps = merge_and_optimize_steps(taken);
        let command_buffers = required_command_buffers(&steps);
        Dispatcher { steps, command_buffers, change_ticks: tick_map_new() }
    }
}

/// A system of stage `s` accesses the storage of component type `t`.
pub open spec fn stage_uses_type(s: Step, t: ComponentTypeId) -> bool {
    match s {
        Step::RunSystems(v) => systems_use_type(v@, t),
        Step::RunLocalSystems(v) => systems_use_type(v@, t),
        _ => false,
    }
}

pub open spec fn systems_use_type(v: Seq<System>, t: ComponentTypeId) -> bool {
    exists|i: int, a: int|
        0 <= i < v.len() && 0 <= a < v[i].accesses@.len() && (#[trigger] v[i].accesses@[a]).component_type_id_spec()
            == Some(t)
}

/// What a run of a dispatcher does next.
#[derive(Clone, Copy, PartialEq, Eq, Structural, Debug)]
pub enum RunAction {
    /// Run the systems of stage `i`, possibly in parallel.
    RunSystems(usize),
    /// Run the systems of stage `i` on the dispatching thread.
    RunLocalSystems(usize),
    /// Run the functions of stage `i` with exclusive access to the world.
    RunLocalFns(usize),
    /// Settle deferred entities, then apply the queued commands in order.
    Flush,
    /// Every stage ran.
    Finish,
}

/// The action for the stage at position `i`.
pub open spec fn action_of(steps: Seq<Step>, i: int) -> RunAction {
    if 0 <= i < steps.len() {
        match steps[i] {
            Step::RunSystems(_) => RunAction::RunSystems(i as usize),
            Step::RunLocalSystems(_) => RunAction::RunLocalSystems(i as usize),
            Step::RunLocalFns(_) => RunAction::RunLocalFns(i as usize),
            Step::FlushCommands => RunAction::Flush,
        }
    } else {
        RunAction::Finish
    }
}

/// Joins the error lists in order.
pub open spec fn concat_errors(lists: Seq<Seq<SystemError>>) -> Seq<SystemError>
    decreases lists.len(),
{
    if lists.len() == 0 {
        seq![]
    } else {
        concat_errors(lists.drop_last()) + lists.last()
    }
}

/// The state of one run of a dispatcher on one world.
pub struct RunState {
    next: usize,
    errors: Vec<SystemError>,
    recorded: Ghost<Seq<Seq<SystemError>>>,
    change_tick: Ticks,
    world_id: u64,
    world_tick: Ticks,
}

impl RunState {
    /// The position of the next stage.
    pub closed spec fn next_spec(&self) -> int {
        self.next as int
    }

    /// The errors returned so far, in encounter order.
    pub closed spec fn errors_seq(&self) -> Seq<SystemError> {
        self.errors@
    }

    /// The error list recorded for each stage so far.
    pub closed spec fn recorded(&self) -> Seq<Seq<SystemError>> {
        self.recorded@
    }

    pub closed spec fn change_tick_spec(&self) -> Ticks {
        self.change_tick
    }

    pub closed spec fn world_id_spec(&self) -> u64 {
        self.world_id
    }

    pub closed spec fn world_tick_spec(&self) -> Ticks {
        self.world_tick
    }

    /// The tick of the last run on this world, which the systems compare
    /// against.
    pub fn change_tick(&self) -> (r: Ticks)
        ensures
            r == self.change_tick_spec(),
    {
        self.change_tick
    }

    /// Records what the stage just run returned and moves to the next stage.
    pub fn record(&mut self, errors: Vec<SystemError>)
        requires
            old(self).errors_seq() == concat_errors(old(self).recorded()),
            old(self).next_spec() < usize::MAX,
        ensures
            final(self).recorded() == old(self).recorded().push(errors@),
            final(self).errors_seq() == old(self).errors_seq() + errors@,
            final(self).errors_seq() == concat_errors(final(self).recorded()),
            final(self).next_spec() == old(self).next_spec() + 1,
            final(self).change_tick_spec() == old(self).change_tick_spec(),
            final(self).world_id_spec() == old(self).world_id_spec(),
            final(self).world_tick_spec() == old(self).world_tick_spec(),
    {
        let ghost list = errors@;
        let mut errors = errors;
        self.errors.append(&mut errors);
        self.recorded = Ghost(self.recorded@.push(list));
        self.next = self.next + 1;
        proof {
            assert(self.recorded@.drop_last() =~= old(self).recorded@);
        }
    }
}

/// The result of a run: `Ok` when no system erred, otherwise every error in
/// encounter order.
pub fn run_result(errors: Vec<SystemError>) -> (r: Result<(), RunError>)
    ensures
        errors@.len() == 0 ==> r == Ok::<(), RunError>(()),
        errors@.len() > 0 ==> r == Err::<(), RunError>(RunError { errors }),
{
    if errors.len() == 0 {
        Ok(())
    } else {
        Err(RunError { errors })
    }
}

/// Runs systems in stages, potentially in parallel.
pub struct Dispatcher {
    steps: Vec<Step>,
    command_buffers: usize,
    change_ticks: TickMap,
}

impl Dispatcher {
    pub closed spec fn steps_seq(&self) -> Seq<Step> {
        self.steps@
    }

    pub closed spec fn command_buffers_spec(&self) -> int {
        self.command_buffers as int
    }

    pub closed spec fn change_ticks_spec(&self) -> TickMap {
        self.change_ticks
    }

    /// Creates a `DispatcherBuilder`.
    pub fn builder() -> (r: DispatcherBuilder)
        ensures
            r.steps_seq().len() == 0,
    {
        DispatcherBuilder::new()
    }

    /// The stages, in order.
    pub fn steps(&self) -> (r: &[Step])
        ensures
            r@ == self.steps_seq(),
    {
        self.steps.as_slice()
    }

    /// How many command buffers the systems between two barriers need.
    pub fn command_buffer_count(&self) -> (r: usize)
        ensures
            r == self.command_buffers_spec(),
    {
        self.command_buffers
    }

    /// The tick of the last run on the world `id`, or zero before the first.
    pub fn change_tick(&self, id: u64) -> (r: Ticks)
        ensures
            r == (if tick_entries(self.change_ticks_spec()).contains_key(id) {
                tick_entries(self.change_ticks_spec())[id]
            } else {
                0
            }),
    {
        match tick_map_get(&self.change_ticks, id) {
            Some(t) => t,
            None => 0,
        }
    }

    /// Returns the maximum number of systems that can run concurrently.
    pub fn max_concurrecy(&self) -> (r: usize)
        ensures
            r == max_parallel(self.steps_seq()),
    {
        let mut m: usize = 1;
        let mut i: usize = 0;
        while i < self.steps.len()
            invariant
                i <= self.steps@.len(),
                m == max_parallel(self.steps@.subrange(0, i as int)),
            decreases self.steps.len() - i,
        {
            proof {
                assert(self.steps@.subrange(0, i + 1).drop_last() =~= self.steps@.subrange(0, i as int));
            }
            match &self.steps[i] {
                Step::RunSystems(systems) => {
                    if systems.len() > m {
                        m = systems.len();
                    }
                },
                _ => {},
            }
            i = i + 1;
        }
        proof {
            assert(self.steps@.subrange(0, i as int) =~= self.steps@);
        }
        m
    }

    /// Registers a storage for every component type that a system of the
    /// dispatcher accesses.
    pub fn register_storages<T>(&self, world: &mut World<T>)
        requires
            old(world).wf(),
        ensures
            final(world).wf(),
            forall|k: int, t: ComponentTypeId|
                0 <= k < self.steps_seq().len() && #[trigger] stage_uses_type(self.steps_seq()[k], t)
                    ==> final(world).components_spec().registered(t),
            forall|t: ComponentTypeId| #[trigger] old(world).components_spec().registered(t) ==> final(world).components_spec().registered(t),
            forall|e: Entity, t: ComponentTypeId| #[trigger] final(world).component(e, t) == old(world).component(e, t),
            final(world).entities_spec() == old(world).entities_spec(),
            final(world).resources_spec() == old(world).resources_spec(),
            final(world).id_spec() == old(world).id_spec(),
            final(world).tick_spec() == old(world).tick_spec(),
    {
        let mut k: usize = 0;
        while k < self.steps.len()
            invariant
                world.wf(),
                k <= self.steps@.len(),
                forall|m: int, t: ComponentTypeId|
                    0 <= m < k && #[trigger] stage_uses_type(self.steps@[m], t) ==> world.components_spec().registered(t),
                forall|t: ComponentTypeId| #[trigger] old(world).components_spec().registered(t) ==> world.components_spec().registered(t),
                forall|e: Entity, t: ComponentTypeId| #[trigger] world.component(e, t) == old(world).component(e, t),
                world.entities_spec() == old(world).entities_spec(),
                world.resources_spec() == old(world).resources_spec(),
                world.id_spec() == old(world).id_spec(),
                world.tick_spec() == old(world).tick_spec(),
            decreases self.steps.len() - k,
        {
            match &self.steps[k] {
                Step::RunSystems(systems) => register_system_storages(systems, world),
                Step::RunLocalSystems(systems) => register_system_storages(systems, world),
                _ => {},
            }
            k = k + 1;
        }
    }

    /// Starts a run on `world`: no stage has run, and the systems will see
    /// the tick of the last run on this world, or zero before the first.
    pub fn begin_run<T>(&self, world: &World<T>) -> (r: RunState)
        ensures
            r.next_spec() == 0,
            r.recorded().len() == 0,
            r.errors_seq().len() == 0,
            r.errors_seq() == concat_errors(r.recorded()),
            r.world_id_spec() == world.id_spec().id,
            r.world_tick_spec() == world.tick_spec(),
            r.change_tick_spec() == (if tick_entries(self.change_ticks_spec()).contains_key(world.id_spec().id) {
                tick_entries(self.change_ticks_spec())[world.id_spec().id]
            } else {
                0
            }),
    {
        let world_id = world.id().id;
        let change_tick = self.change_tick(world_id);
        RunState {
            next: 0,
            errors: Vec::new(),
            recorded: Ghost(Seq::empty()),
            change_tick,
            world_id,
            world_tick: world.tick(),
        }
    }

    /// What the run does next: the stage at the state's position, in order,
    /// with a barrier where the dispatcher has one, and `Finish` after the
    /// last stage.
    pub fn next_action(&self, state: &RunState) -> (r: RunAction)
        ensures
            r == action_of(self.steps_seq(), state.next_spec()),
    {
        let i = state.next;
        if i >= self.steps.len() {
            return RunAction::Finish;
        }
        match &self.steps[i] {
            Step::RunSystems(_) => RunAction::RunSystems(i),
            Step::RunLocalSystems(_) => RunAction::RunLocalSystems(i),
            Step::RunLocalFns(_) => RunAction::RunLocalFns(i),
            Step::FlushCommands => RunAction::Flush,
        }
    }

    /// The systems of stage `i`.
    pub fn systems_of(&self, i: usize) -> (r: &[System])
        requires
            i < self.steps_seq().len(),
            self.steps_seq()[i as int] is RunSystems || self.steps_seq()[i as int] is RunLocalSystems,
        ensures
            self.steps_seq()[i as int] is RunSystems ==> r@ == self.steps_seq()[i as int]->RunSystems_0@,
            self.steps_seq()[i as int] is RunLocalSystems ==> r@ == self.steps_seq()[i as int]->RunLocalSystems_0@,
    {
        match &self.steps[i] {
            Step::RunSystems(v) => v.as_slice(),
            Step::RunLocalSystems(v) => v.as_slice(),
            _ => {
                proof {
                    assert(false);
                }
                &[]
            },
        }
    }

    /// The functions of stage `i`.
    pub fn local_fns_of(&self, i: usize) -> (r: &[LocalFn])
        requires
            i < self.steps_seq().len(),
            self.steps_seq()[i as int] is RunLocalFns,
        ensures
            r@ == self.steps_seq()[i as int]->RunLocalFns_0@,
    {
        match &self.steps[i] {
            Step::RunLocalFns(v) => v.as_slice(),
            _ => {
                proof {
                    assert(false);
                }
                &[]
            },
        }
    }

    /// Ends a run after its last stage: records the world's tick at the
    /// start of the run as the tick of this run on that world, and returns
    /// `Ok` when no system erred, otherwise all errors in encounter order.
    pub fn finish_run(&mut self, state: RunState) -> (r: Result<(), RunError>)
        ensures
            tick_entries(final(self).change_ticks_spec()) == tick_entries(old(self).change_ticks_spec()).insert(
                state.world_id_spec(),
                state.world_tick_spec(),
            ),
            tick_entries(final(self).change_ticks_spec())[state.world_id_spec()] == state.world_tick_spec(),
            final(self).steps_seq() == old(self).steps_seq(),
            final(self).command_buffers_spec() == old(self).command_buffers_spec(),
            r.is_ok() <==> state.errors_seq().len() == 0,
            r.is_err() ==> r->Err_0.errors@ == state.errors_seq(),
    {
        tick_map_insert(&mut self.change_ticks, state.world_id, state.world_tick);
        run_result(state.errors)
    }
}

/// Registers a storage for every component type that one of `systems`
/// accesses.
fn register_system_storages<T>(systems: &Vec<System>, world: &mut World<T>)
    requires
        old(world).wf(),
    ensures
        final(world).wf(),
        forall|t: ComponentTypeId| #[trigger] systems_use_type(systems@, t) ==> final(world).components_spec().registered(t),
        forall|t: ComponentTypeId| #[trigger] old(world).components_spec().registered(t) ==> final(world).components_spec().registered(t),
        forall|e: Entity, t: ComponentTypeId| #[trigger] final(world).component(e, t) == old(world).component(e, t),
        final(world).entities_spec() == old(world).entities_spec(),
        final(world).resources_spec() == old(world).resources_spec(),
        final(world).id_spec() == old(world).id_spec(),
        final(world).tick_spec() == old(world).tick_spec(),
{
    let mut i: usize = 0;
    while i < systems.len()
        invariant
            world.wf(),
            i <= systems@.len(),
            forall|m: int, a: int|
                0 <= m < i && 0 <= a < systems@[m].accesses@.len() && (#[trigger] systems@[m].accesses@[a]).component_type_id_spec().is_some()
                    ==> world.components_spec().registered(systems@[m].accesses@[a].component_type_id_spec().unwrap()),
            forall|t: ComponentTypeId| #[trigger] old(world).components_spec().registered(t) ==> world.components_spec().registered(t),
            forall|e: Entity, t: ComponentTypeId| #[trigger] world.component(e, t) == old(world).component(e, t),
            world.entities_spec() == old(world).entities_spec(),
            world.resources_spec() == old(world).resources_spec(),
            world.id_spec() == old(world).id_spec(),
            world.tick_spec() == old(world).tick_spec(),
        decreases systems.len() - i,
    {
        let accesses = &systems[i].accesses;
        let mut a: usize = 0;
        while a < accesses.len()
            invariant
                world.wf(),
                i < systems@.len(),
                *accesses == systems@[i as int].accesses,
                a <= accesses@.len(),
                forall|m: int, b: int|
                    0 <= m < i && 0 <= b < systems@[m].accesses@.len() && (#[trigger] systems@[m].accesses@[b]).component_type_id_spec().is_some()
                        ==> world.components_spec().registered(systems@[m].accesses@[b].component_type_id_spec().unwrap()),
                forall|b: int|
                    0 <= b < a && (#[trigger] accesses@[b]).component_type_id_spec().is_some() ==> world.components_spec().registered(
                        accesses@[b].component_type_id_spec().unwrap(),
                    ),
                forall|t: ComponentTypeId| #[trigger] old(world).components_spec().registered(t) ==> world.components_spec().registered(t),
                forall|e: Entity, t: ComponentTypeId| #[trigger] world.component(e, t) == old(world).component(e, t),
                world.entities_spec() == old(world).entities_spec(),
                world.resources_spec() == old(world).resources_spec(),
                world.id_spec() == old(world).id_spec(),
                world.tick_spec() == old(world).tick_spec(),
            decreases accesses.len() - a,
        {
            if let Some(t) = accesses[a].component_type_id() {
                world.register(t);
            }
            a = a + 1;
        }
        i = i + 1;
    }
}

} // verus!
