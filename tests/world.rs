use sparsey::entity::Entity;
use sparsey::group::{ComponentGroupInfo, Group, GroupFamily, Layout, LayoutError, QueryGroupInfo};
use sparsey::group_mask::GroupMask;
use sparsey::query::Iter;
use sparsey::world::{NoSuchEntity, World, WorldId};

const POS: u64 = 1;
const VEL: u64 = 2;
const A: u64 = 10;
const B: u64 = 11;
const C: u64 = 12;
const SCORE: u64 = 100;

#[derive(Clone, Debug, PartialEq)]
enum Data {
    Pos(i32, i32),
    Vel(i32, i32),
    Num(u32),
}

fn pos_of(world: &World<Data>, e: Entity) -> Option<(i32, i32)> {
    match world.get_component(e, POS) {
        Some(Data::Pos(x, y)) => Some((*x, *y)),
        _ => None,
    }
}

#[test]
fn system_moves_positions_by_velocity() {
    let mut world: World<Data> = World::new(WorldId::new(1));
    world.register(POS);
    world.register(VEL);
    let e1 = world.create_entity(vec![(POS, Data::Pos(1, 2)), (VEL, Data::Vel(3, 4))]);
    let e2 = world.create_entity(vec![(POS, Data::Pos(5, 6))]);

    let matched: Vec<Entity> = world.query(&vec![POS, VEL], &vec![]).entities().to_vec();
    assert_eq!(matched, vec![e1]);
    for e in matched {
        let (x, y) = pos_of(&world, e).unwrap();
        let (dx, dy) = match world.get_component(e, VEL) {
            Some(Data::Vel(dx, dy)) => (*dx, *dy),
            _ => panic!("velocity expected"),
        };
        world.insert_components(e, vec![(POS, Data::Pos(x + dx, y + dy))]).unwrap();
    }
    assert_eq!(pos_of(&world, e1), Some((4, 6)));
    assert_eq!(pos_of(&world, e2), Some((5, 6)));
}

#[test]
fn create_then_destroy_removes_entity() {
    let mut world: World<Data> = World::new(WorldId::new(2));
    let e = world.create_entity(vec![(POS, Data::Pos(0, 0))]);
    assert!(world.contains_entity(e));
    assert!(world.destroy_entity(e));
    assert!(!world.contains_entity(e));
    assert_eq!(world.get_component(e, POS), None);
    assert!(!world.destroy_entity(e));
    assert_eq!(world.entities().len(), 0);
}

#[test]
fn destroyed_slot_is_reused_with_next_version() {
    let mut world: World<Data> = World::new(WorldId::new(3));
    let e = world.create_entity(vec![]);
    assert_eq!((e.index, e.version), (0, 1));
    world.destroy_entity(e);
    let f = world.create_entity(vec![]);
    assert_eq!((f.index, f.version), (0, 2));
    assert!(!world.contains_entity(e));
    assert!(world.contains_entity(f));
}

#[test]
fn insert_then_remove_returns_component() {
    let mut world: World<Data> = World::new(WorldId::new(4));
    let e = world.create_entity(vec![]);
    assert_eq!(world.insert_components(e, vec![(POS, Data::Pos(7, 8))]), Ok(()));
    assert_eq!(world.remove_components(e, &vec![POS]), Some(vec![Data::Pos(7, 8)]));
    assert_eq!(world.get_component(e, POS), None);
}

#[test]
fn remove_missing_component_returns_none() {
    let mut world: World<Data> = World::new(WorldId::new(5));
    let e = world.create_entity(vec![(POS, Data::Pos(1, 1))]);
    assert_eq!(world.remove_components(e, &vec![POS, VEL]), None);
    // the present one is removed anyway
    assert_eq!(world.get_component(e, POS), None);
    assert_eq!(world.remove_components(e, &vec![VEL]), None);
}

#[test]
fn remove_listed_twice_returns_none() {
    let mut world: World<Data> = World::new(WorldId::new(6));
    let e = world.create_entity(vec![(POS, Data::Pos(1, 1))]);
    assert_eq!(world.remove_components(e, &vec![POS, POS]), None);
}

#[test]
fn insert_on_dead_entity_fails() {
    let mut world: World<Data> = World::new(WorldId::new(7));
    let e = world.create_entity(vec![]);
    world.destroy_entity(e);
    assert_eq!(world.insert_components(e, vec![(POS, Data::Pos(1, 1))]), Err(NoSuchEntity));
}

#[test]
fn later_component_of_same_type_wins() {
    let mut world: World<Data> = World::new(WorldId::new(8));
    let e = world.create_entity(vec![(POS, Data::Pos(1, 1)), (POS, Data::Pos(2, 2))]);
    assert_eq!(pos_of(&world, e), Some((2, 2)));
}

#[test]
fn destroy_entities_counts_live_ones() {
    let mut world: World<Data> = World::new(WorldId::new(9));
    let a = world.create_entity(vec![(POS, Data::Pos(1, 1))]);
    let b = world.create_entity(vec![(POS, Data::Pos(2, 2))]);
    let c = world.create_entity(vec![(POS, Data::Pos(3, 3))]);
    world.destroy_entity(b);
    assert_eq!(world.destroy_entities(&vec![a, b, c]), 2);
    assert_eq!(world.entities().len(), 0);
}

#[test]
fn resources_insert_replace_remove() {
    let mut world: World<Data> = World::new(WorldId::new(10));
    assert_eq!(world.insert_resource(SCORE, Data::Num(1)), None);
    assert_eq!(world.insert_resource(SCORE, Data::Num(2)), Some(Data::Num(1)));
    assert!(world.contains_resource(&SCORE));
    assert_eq!(world.resource_ref(SCORE), Some(&Data::Num(2)));
    assert_eq!(world.remove_resource(SCORE), Some(Data::Num(2)));
    assert!(!world.delete_resource(&SCORE));
    world.insert_resource(SCORE, Data::Num(3));
    world.clear_resources();
    assert!(!world.contains_resource(&SCORE));
}

#[test]
fn clear_removes_everything() {
    let mut world: World<Data> = World::new(WorldId::new(11));
    let e = world.create_entity(vec![(POS, Data::Pos(1, 1))]);
    world.insert_resource(SCORE, Data::Num(1));
    world.clear();
    assert!(!world.contains_entity(e));
    assert!(!world.contains_resource(&SCORE));
    assert!(world.is_registered(&POS));
    assert_eq!(world.entities().len(), 0);
}

#[test]
fn tick_increments_and_wraps() {
    let mut world: World<Data> = World::new(WorldId::new(12));
    assert_eq!(world.tick(), 0);
    world.increment_tick();
    assert_eq!(world.tick(), 1);
    assert_eq!(world.id(), WorldId::new(12));
}

fn grouped_world() -> (World<Data>, Vec<Entity>) {
    let mut layout = Layout::new();
    layout.add_family(vec![A, B, C], vec![2, 3]).unwrap();
    let mut world: World<Data> = World::with_layout(WorldId::new(13), &layout);
    let mut all = Vec::new();
    for i in 0..100u32 {
        let comps = if i < 40 {
            vec![(A, Data::Num(i))]
        } else if i < 70 {
            vec![(A, Data::Num(i)), (B, Data::Num(i))]
        } else {
            vec![(A, Data::Num(i)), (B, Data::Num(i)), (C, Data::Num(i))]
        };
        all.push(world.create_entity(comps));
    }
    (world, all)
}

fn check_dense(iter: &Iter, start: usize, end: usize) {
    match iter {
        Iter::Dense(d) => {
            assert_eq!((d.start, d.end), (start, end));
            assert_eq!(d.entities.len(), end - start);
        },
        Iter::Sparse(_) => panic!("expected a dense query"),
    }
}

#[test]
fn grouped_query_is_dense_over_group() {
    let (world, all) = grouped_world();
    let ab = world.query(&vec![A, B], &vec![]);
    assert!(ab.is_dense());
    check_dense(&ab, 0, 60);
    let mut got: Vec<u32> = ab.entities().iter().map(|e| e.index).collect();
    got.sort();
    let want: Vec<u32> = all[40..].iter().map(|e| e.index).collect();
    assert_eq!(got, want);

    let ab_not_c = world.query(&vec![A, B], &vec![C]);
    assert!(ab_not_c.is_dense());
    check_dense(&ab_not_c, 30, 60);
    let mut got: Vec<u32> = ab_not_c.entities().iter().map(|e| e.index).collect();
    got.sort();
    let want: Vec<u32> = all[40..70].iter().map(|e| e.index).collect();
    assert_eq!(got, want);

    let abc = world.query(&vec![A, B, C], &vec![]);
    check_dense(&abc, 0, 30);
}

#[test]
fn ungrouped_query_is_sparse() {
    let (world, _) = grouped_world();
    let a_only = world.query(&vec![A], &vec![B]);
    assert!(!a_only.is_dense());
    assert_eq!(a_only.entities().len(), 40);
}

#[test]
fn grouping_survives_removal_and_destroy() {
    let (mut world, all) = grouped_world();
    world.remove_components(all[80], &vec![C]).unwrap();
    world.destroy_entity(all[50]);
    let ab = world.query(&vec![A, B], &vec![]);
    check_dense(&ab, 0, 59);
    let abc = world.query(&vec![A, B, C], &vec![]);
    check_dense(&abc, 0, 29);
    for e in abc.entities() {
        assert!(world.get_component(*e, C).is_some());
    }
    let ab_not_c = world.query(&vec![A, B], &vec![C]);
    check_dense(&ab_not_c, 29, 59);
    for e in ab_not_c.entities() {
        assert!(world.get_component(*e, C).is_none());
        assert!(world.get_component(*e, B).is_some());
    }
}

#[test]
fn set_layout_twice_keeps_groups() {
    let (mut world, _) = grouped_world();
    let mut layout = Layout::new();
    layout.add_family(vec![A, B, C], vec![2, 3]).unwrap();
    world.set_layout(&layout);
    world.set_layout(&layout);
    check_dense(&world.query(&vec![A, B], &vec![]), 0, 60);
    check_dense(&world.query(&vec![A, B], &vec![C]), 30, 60);
}

#[test]
fn layout_rejects_bad_families() {
    let mut layout = Layout::new();
    let many: Vec<u64> = (0..17).collect();
    assert_eq!(layout.add_family(many, vec![17]), Err(LayoutError::TooManyComponents));
    let max: Vec<u64> = (100..116).collect();
    assert_eq!(layout.add_family(max, vec![8, 16]), Ok(()));
    assert_eq!(layout.add_family(vec![1, 2], vec![2, 2]), Err(LayoutError::InvalidArities));
    assert_eq!(layout.add_family(vec![1, 2], vec![1]), Err(LayoutError::InvalidArities));
    assert_eq!(layout.add_family(vec![1, 1], vec![2]), Err(LayoutError::DuplicateComponent));
    assert_eq!(layout.add_family(vec![1, 100], vec![2]), Err(LayoutError::DuplicateComponent));
    assert_eq!(layout.families().len(), 1);
}

#[test]
fn excluding_two_types_is_not_a_group_range() {
    const D: u64 = 13;
    let mut layout = Layout::new();
    layout.add_family(vec![A, B, C, D], vec![2, 4]).unwrap();
    let mut world: World<Data> = World::with_layout(WorldId::new(14), &layout);
    let abc = world.create_entity(vec![(A, Data::Num(1)), (B, Data::Num(1)), (C, Data::Num(1))]);
    let ab = world.create_entity(vec![(A, Data::Num(2)), (B, Data::Num(2))]);
    let abcd = world.create_entity(vec![(A, Data::Num(3)), (B, Data::Num(3)), (C, Data::Num(3)), (D, Data::Num(3))]);
    let q = world.query(&vec![A, B], &vec![C, D]);
    assert!(!q.is_dense());
    assert_eq!(q.entities(), &[ab]);
    let all = world.query(&vec![A, B], &vec![]);
    assert!(all.is_dense());
    assert_eq!(all.entities().len(), 3);
    let full = world.query(&vec![A, B, C, D], &vec![]);
    check_dense(&full, 0, 1);
    assert_eq!(full.entities(), &[abcd]);
    assert!(world.contains_entity(abc));
}

#[test]
fn group_info_resolves_ranges() {
    let family = GroupFamily {
        storages: vec![0, 1, 2],
        groups: vec![Group { arity: 2, len: 60 }, Group { arity: 3, len: 30 }],
    };
    let a = ComponentGroupInfo::new(0, 0, GroupMask::from_to(0, 1));
    let b = ComponentGroupInfo::new(0, 0, GroupMask::from_to(1, 2));
    let c = ComponentGroupInfo::new(0, 1, GroupMask::from_to(2, 3));
    let other = ComponentGroupInfo::new(1, 0, GroupMask::from_to(0, 1));
    let ab = QueryGroupInfo::new(a).including(b).unwrap();
    assert_eq!(ab.group_range(&family), Some((0, 60)));
    let ab_not_c = ab.exclude(c).unwrap();
    assert_eq!(ab_not_c.group_offset, 1);
    assert_eq!(ab_not_c.group_range(&family), Some((30, 60)));
    let abc = ab.including(c).unwrap();
    assert_eq!(abc.group_range(&family), Some((0, 30)));
    assert_eq!(QueryGroupInfo::new(a).group_range(&family), None);
    assert_eq!(ab.including(other), None);
}

#[test]
fn create_entities_in_order() {
    let mut world: World<Data> = World::new(WorldId::new(15));
    assert!(world.can_create_entities(3));
    let created = world.create_entities(vec![
        vec![(POS, Data::Pos(1, 1))],
        vec![],
        vec![(POS, Data::Pos(3, 3)), (VEL, Data::Vel(0, 1))],
    ]);
    assert_eq!(created.len(), 3);
    assert_eq!(world.entities(), &created[..]);
    assert_eq!(pos_of(&world, created[0]), Some((1, 1)));
    assert_eq!(pos_of(&world, created[1]), None);
    assert_eq!(pos_of(&world, created[2]), Some((3, 3)));
    assert_eq!(world.get_component(created[2], VEL), Some(&Data::Vel(0, 1)));
}

#[test]
fn added_filter_sees_only_new_components() {
    use_filter_scenario();
}

fn use_filter_scenario() {
    let mut world: World<Data> = World::new(WorldId::new(16));
    let old = world.create_entity(vec![(POS, Data::Pos(0, 0))]);
    world.increment_tick();
    let new = world.create_entity(vec![(POS, Data::Pos(1, 1))]);
    world.increment_tick();
    world.insert_components(old, vec![(POS, Data::Pos(9, 9))]).unwrap();
    let view = world.borrow(POS, 0);
    assert_eq!(view.change_detection_ticks(), (2, 0));
    let (c, t) = view.get_with_ticks(old).unwrap();
    assert_eq!(c, &Data::Pos(9, 9));
    assert_eq!((t.inserted, t.changed), (0, 2));
    let views = vec![view];
    let added = sparsey::query::iter(&views, &vec![], sparsey::query::ChangeFilter::Added);
    assert_eq!(added.entities(), &[new]);
    let mutated = sparsey::query::iter(&views, &vec![], sparsey::query::ChangeFilter::Mutated);
    let mut got = mutated.entities().to_vec();
    got.sort_by_key(|e| e.index);
    assert_eq!(got, vec![old, new]);
    let later = world.borrow(POS, 1);
    let views = vec![later];
    let mutated_since_one = sparsey::query::iter(&views, &vec![], sparsey::query::ChangeFilter::Mutated);
    assert_eq!(mutated_since_one.entities(), &[old]);
}
