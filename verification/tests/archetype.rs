use cecs::archetype::Archetype;
use cecs::archetypes::{ArchetypeDescriptor, Archetypes};
use cecs::component::Component;
use cecs::filter::{ComponentFilter, Read, Write};
use std::any::TypeId;

struct A {}
struct B {}
struct C {}

impl Component for A {}
impl Component for B {}
impl Component for C {}

fn compare(a: Archetype, b: Archetype) -> bool {
    if a.len() != b.len() {
        return false;
    }

    for (a, b) in a.iter().zip(b.iter()) {
        if *a != *b {
            return false;
        }
    }

    true
}

fn archetype_of(ids: &[TypeId]) -> Archetype {
    let mut archetype = Archetype::default();
    for id in ids {
        archetype.add_component_by_id(*id);
    }
    archetype
}

fn ids_of(archetype: &Archetype) -> Vec<TypeId> {
    archetype.iter().copied().collect()
}

#[test]
fn check_set_comparisons() {
    let mut one = Archetype::default();
    let mut two = Archetype::default();
    one.add_component_by_id(TypeId::of::<u32>());
    two.add_component_by_id(TypeId::of::<u32>());
    assert_eq!(one.subset_of(&two), true);

    one.add_component_by_id(TypeId::of::<i64>());
    assert_eq!(one.subset_of(&two), false);
    assert_eq!(two.subset_of(&one), true);

    assert_eq!(1, 1);
}

#[test]
fn component_filter_archetypes() {
    let mut filter = ComponentFilter::new();
    filter.add::<Read<A>>();
    filter.add::<Read<B>>();
    filter.add::<Write<C>>();

    let mut archetype = Archetype::default();
    archetype.add_component::<A>();
    archetype.add_component::<B>();
    archetype.add_component::<C>();

    let mut reads = Archetype::default();
    reads.add_component::<A>();
    reads.add_component::<B>();

    let mut writes = Archetype::default();
    writes.add_component::<C>();

    assert!(compare(archetype, filter.archetype()));
    assert!(compare(reads, filter.read_archetype()));
    assert!(compare(writes, filter.write_archetype()));
}

#[test]
fn arch_descript_test() {
    let mut one = Archetypes::<u32>::default();
    let arc = Archetype::default();
    let a = one.get_archetype_descriptor(&arc);
    assert_eq!(true, a.is_none());
    one.add_archetype(ArchetypeDescriptor::new(Archetype::default(), Vec::new(), 1 as usize));

    let a = one.get_archetype_descriptor(&arc);
    let z = usize::from(a.expect(" ").1);
    assert_eq!(z, 0 as usize);
}

#[test]
fn identifiers_are_kept_in_ascending_order() {
    let ids = [
        TypeId::of::<u8>(),
        TypeId::of::<u16>(),
        TypeId::of::<u32>(),
        TypeId::of::<u64>(),
        TypeId::of::<i8>(),
    ];
    let forward = archetype_of(&ids);
    let mut reversed = ids;
    reversed.reverse();
    let backward = archetype_of(&reversed);
    assert_eq!(forward.len(), 5);
    assert!(compare(forward.clone(), backward));
    let held = ids_of(&forward);
    let mut sorted = ids.to_vec();
    sorted.sort_unstable();
    assert_eq!(held, sorted);
    for i in 0..5 {
        assert_eq!(forward.get(i), sorted[i]);
    }
}

#[test]
fn every_archetype_is_a_subset_of_itself() {
    let empty = Archetype::default();
    assert!(empty.is_empty());
    assert!(empty.subset_of(&empty));
    let a = archetype_of(&[TypeId::of::<u8>(), TypeId::of::<u16>(), TypeId::of::<u32>()]);
    assert!(!a.is_empty());
    assert!(a.subset_of(&a));
    assert!(empty.subset_of(&a));
    assert!(!a.subset_of(&empty));
}

#[test]
fn subset_of_is_set_inclusion() {
    let all = [
        TypeId::of::<u8>(),
        TypeId::of::<u16>(),
        TypeId::of::<u32>(),
        TypeId::of::<u64>(),
    ];
    // Every pair of subsets of four types.
    for left in 0..16u32 {
        for right in 0..16u32 {
            let pick = |mask: u32| -> Vec<TypeId> {
                (0..4).filter(|i| mask & (1 << i) != 0).map(|i| all[i]).collect()
            };
            let a = archetype_of(&pick(left));
            let b = archetype_of(&pick(right));
            assert_eq!(a.subset_of(&b), left & right == left);
            assert_eq!(a.any_of(&b), left & right != 0);
            assert_eq!(a.same_types(&b), left == right);
            assert_eq!(a == b, left == right);
        }
    }
}

#[test]
fn any_of_needs_a_common_type() {
    let a = archetype_of(&[TypeId::of::<u8>(), TypeId::of::<u16>()]);
    let b = archetype_of(&[TypeId::of::<u32>(), TypeId::of::<u16>()]);
    let c = archetype_of(&[TypeId::of::<u64>()]);
    let empty = Archetype::default();
    assert!(a.any_of(&b));
    assert!(b.any_of(&a));
    assert!(!a.any_of(&c));
    assert!(!c.any_of(&a));
    assert!(!a.any_of(&empty));
    assert!(!empty.any_of(&a));
    assert!(!empty.any_of(&empty));
}

#[test]
fn a_type_added_twice_is_held_twice() {
    let mut a = Archetype::default();
    a.add_component_by_id(TypeId::of::<u8>());
    a.add_component_by_id(TypeId::of::<u8>());
    assert_eq!(a.len(), 2);
    let once = archetype_of(&[TypeId::of::<u8>()]);
    // One pass through `once` meets the type only once.
    assert!(!a.subset_of(&once));
    assert!(once.subset_of(&a));
}

#[test]
fn add_component_adds_the_type_of_the_component() {
    let mut by_type = Archetype::default();
    by_type.add_component::<A>();
    by_type.add_component::<B>();
    let by_id = archetype_of(&[TypeId::of::<B>(), TypeId::of::<A>()]);
    assert!(by_type.same_types(&by_id));
    assert_eq!(by_type, by_id);
    assert!(compare(by_type, by_id));
}

#[test]
fn filter_keeps_reads_and_writes_apart() {
    let mut filter = ComponentFilter::new();
    filter.add_by_id(TypeId::of::<u8>(), true);
    filter.add_by_id(TypeId::of::<u16>(), false);
    filter.add_by_id(TypeId::of::<u32>(), true);
    assert_eq!(filter.len(), 3);
    let all = archetype_of(&[TypeId::of::<u8>(), TypeId::of::<u16>(), TypeId::of::<u32>()]);
    let reads = archetype_of(&[TypeId::of::<u16>()]);
    let writes = archetype_of(&[TypeId::of::<u8>(), TypeId::of::<u32>()]);
    assert!(filter.archetype().same_types(&all));
    assert!(filter.read_archetype().same_types(&reads));
    assert!(filter.write_archetype().same_types(&writes));
    assert!(ComponentFilter::new().archetype().is_empty());
}

#[test]
fn the_last_descriptor_of_an_archetype_is_found() {
    let mut registry = Archetypes::<u32>::new();
    let a = archetype_of(&[TypeId::of::<u8>()]);
    let b = archetype_of(&[TypeId::of::<u16>()]);
    assert!(registry.get_archetype_descriptor(&a).is_none());
    let first = registry.add_archetype(ArchetypeDescriptor::new(a.clone(), vec![3], 7));
    let second = registry.add_archetype(ArchetypeDescriptor::new(b.clone(), vec![4], 8));
    let third = registry.add_archetype(ArchetypeDescriptor::new(a.clone(), vec![5], 9));
    assert_eq!(u32::from(first), 0);
    assert_eq!(u32::from(second), 1);
    assert_eq!(u32::from(third), 2);
    assert_eq!(registry.descriptors().len(), 3);
    let (d, id) = registry.get_archetype_descriptor(&a).unwrap();
    assert_eq!(usize::from(id), 2);
    assert_eq!(d.entities(), 9);
    assert_eq!(d.component_map(), &[5]);
    assert!(d.archetype().same_types(&a));
    let (d, id) = registry.get_archetype_descriptor(&b).unwrap();
    assert_eq!(usize::from(id), 1);
    assert_eq!(d.entities(), 8);
    let c = archetype_of(&[TypeId::of::<u8>(), TypeId::of::<u16>()]);
    assert!(registry.get_archetype_descriptor(&c).is_none());
}
