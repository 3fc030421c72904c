use sparsey::entity::Entity;
use sparsey::entity_storage::{EntityAllocator, EntityStorage};
use sparsey::group_mask::{GroupMask, QueryMask};
use sparsey::query::shortest_entity_slice;
use sparsey::sparse_array::SparseArray;
use sparsey::storage::TypeErasedSparseSet;
use sparsey::ticks::{is_newer, ChangeTicks};

#[test]
fn sparse_set_insert_remove_swap() {
    let mut s: TypeErasedSparseSet<&str> = TypeErasedSparseSet::new(5);
    let a = Entity::new(3, 1);
    let b = Entity::new(7, 1);
    let c = Entity::new(9, 2);
    assert_eq!(s.insert(a, "a", 1), None);
    assert_eq!(s.insert(b, "b", 2), None);
    assert_eq!(s.insert(c, "c", 3), None);
    assert_eq!(s.insert(b, "B", 4), Some("b"));
    assert_eq!(s.get_ticks(b), Some(ChangeTicks::new(2, 4)));
    assert_eq!(s.entities(), &[a, b, c]);
    s.swap(0, 2);
    assert_eq!(s.entities(), &[c, b, a]);
    assert_eq!(s.get(a), Some(&"a"));
    assert_eq!(s.get_index_entity(a).unwrap().dense(), 2);
    assert_eq!(s.remove(c), Some(("c", ChangeTicks::new(3, 3))));
    assert_eq!(s.entities(), &[a, b]);
    assert_eq!(s.get(a), Some(&"a"));
    assert!(!s.contains(c));
    assert_eq!(s.remove(c), None);
    assert!(!s.contains(Entity::new(3, 2)));
    assert_eq!(s.component_type_id(), 5);
    assert!(s.delete(a));
    assert_eq!(s.len(), 1);
    s.clear();
    assert!(s.is_empty());
}

#[test]
fn sparse_array_reads_past_end_as_empty() {
    let mut sa = SparseArray::new();
    assert_eq!(sa.get_slot(1000), None);
    let e = Entity::new(40, 3);
    sa.set_slot(40, Some(sparsey::entity::IndexEntity::new(0, 3)));
    assert!(sa.contains(e));
    assert!(!sa.contains(Entity::new(40, 2)));
    assert_eq!(sa.remove(e), Some(0));
    assert!(!sa.contains(e));
}

#[test]
fn next_version_retires_exhausted_slot() {
    assert_eq!(Entity::new(4, 1).with_next_version(), Some(Entity::new(4, 2)));
    assert_eq!(Entity::new(4, u32::MAX).with_next_version(), None);
}

#[test]
fn atomic_allocation_is_unique_and_counted() {
    let mut alloc = EntityAllocator::new();
    let first = alloc.allocate().unwrap();
    let second = alloc.allocate().unwrap();
    alloc.deallocate(first);
    alloc.deallocate(second);
    let x = alloc.allocate_atomic().unwrap();
    let y = alloc.allocate_atomic().unwrap();
    let z = alloc.allocate_atomic().unwrap();
    assert_eq!(x, Entity::new(1, 2));
    assert_eq!(y, Entity::new(0, 2));
    assert_eq!(z, Entity::new(2, 1));
    assert_eq!(alloc.maintain(), vec![x, y, z]);
    assert_eq!(alloc.maintain(), vec![]);
}

#[test]
fn entity_storage_settles_atomic_creations() {
    let mut es = EntityStorage::new();
    let a = es.create();
    let b = es.create_atomic();
    assert!(es.contains(a));
    assert!(!es.contains(b));
    es.maintain();
    assert!(es.contains(b));
    assert!(es.destroy(a));
    assert!(!es.destroy(a));
    assert_eq!(es.entities(), &[b]);
    es.clear();
    assert_eq!(es.len(), 0);
}

#[test]
fn change_filters_use_last_run_window() {
    let t = ChangeTicks::new(5, 9);
    assert!(t.added(10, 4));
    assert!(!t.added(10, 5));
    assert!(t.mutated(10, 8));
    assert!(!t.mutated(8, 4));
    assert!(!t.mutated(10, 9));
    // window that wraps past zero
    assert!(is_newer(2, 3, u32::MAX - 1));
    assert!(is_newer(u32::MAX, 3, u32::MAX - 1));
    assert!(!is_newer(4, 3, u32::MAX - 1));
    assert!(!is_newer(u32::MAX - 1, 3, u32::MAX - 1));
}

#[test]
fn masks_have_exact_bits() {
    assert_eq!(GroupMask::from_to(2, 5), GroupMask(0b11100));
    assert_eq!(GroupMask::from_to(0, 64), GroupMask(u64::MAX));
    assert_eq!(GroupMask::from_to(3, 3), GroupMask(0));
    assert_eq!(GroupMask::skip_from_to(2, 5), GroupMask(!0b11100));
    assert_eq!(GroupMask(0b101001).iter_bit_indexes(), vec![0, 3, 5]);
    assert_eq!(QueryMask::including(3), QueryMask::new(GroupMask(0b111), GroupMask(0)));
    assert_eq!(QueryMask::exclude(2, 4), QueryMask::new(GroupMask(0b11), GroupMask(0b1100)));
}

#[test]
fn shortest_slice_is_chosen() {
    let a = [Entity::new(0, 1), Entity::new(1, 1)];
    let b = [Entity::new(2, 1)];
    let slices: Vec<&[Entity]> = vec![&a, &b];
    assert_eq!(shortest_entity_slice(&slices), Some(&b[..]));
    let none: Vec<&[Entity]> = vec![];
    assert_eq!(shortest_entity_slice(&none), None);
}

#[test]
fn change_filters_compare_signed_differences() {
    // more than 2^31 ticks past the last run: the signed rule rejects
    let t = ChangeTicks::new(5, 5);
    assert!(!t.added(0x8000_000A, 0));
    assert!(!t.mutated(0x8000_000A, 0));
    assert!(!is_newer(5, 0x8000_000A, 0));
    assert!(is_newer(5, 0x7FFF_FFFF, 0));
    assert!(!is_newer(0x8000_0000, 0x8000_0001, 0));
}
