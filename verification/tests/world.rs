use cecs::archetype::Archetype;
use cecs::archetypes::{ArchetypeDescriptorId, Archetypes, DataBuffersId, RowHandle};
use cecs::prw_lock::EXCLUSIVE;
use cecs::entity::Entity;
use cecs::filter::ComponentFilter;
use cecs::pack::ComponentPack;
use cecs::query::{QueryGenerator, QueryItem};
use cecs::world::World;
use std::any::TypeId;

struct Position;
struct Velocity;
struct Health;

fn position() -> TypeId {
    TypeId::of::<Position>()
}

fn velocity() -> TypeId {
    TypeId::of::<Velocity>()
}

fn health() -> TypeId {
    TypeId::of::<Health>()
}

fn pack_of(columns: Vec<(TypeId, Vec<u32>)>) -> ComponentPack<u32> {
    let mut pack = ComponentPack::new();
    for (id, values) in columns {
        pack.add_column(id, values);
    }
    pack
}

fn archetype_of(ids: &[TypeId]) -> Archetype {
    let mut archetype = Archetype::default();
    for id in ids {
        archetype.add_component_by_id(*id);
    }
    archetype
}

/// The values of the row that holds the components of type `id` for the
/// descriptor of `archetype`.
fn component_row(registry: &mut Archetypes<u32>, archetype: &Archetype, id: TypeId) -> Vec<u32> {
    let (descriptor, _) = registry.get_archetype_descriptor(archetype).unwrap();
    let position = archetype.iter().position(|t| *t == id).unwrap();
    let row = descriptor.component_map()[position];
    let buffers = registry.get_component_buffers_mut(&id).unwrap();
    let handle = buffers.get(row);
    let values = buffers.row(row, &handle).clone();
    buffers.release(row, handle);
    values
}

fn entity_row(registry: &Archetypes<u32>, archetype: &Archetype) -> Vec<Entity> {
    let (descriptor, id) = registry.get_archetype_descriptor(archetype).unwrap();
    let row = descriptor.entities();
    (0..registry.get_entity_buffers().row_len(row))
        .map(|i| registry.entity_at(usize::from(id), i))
        .collect()
}

#[test]
fn entities_are_made_from_raw_parts() {
    let e = Entity::from_raw_parts(7, 3);
    assert_eq!(e.id(), 7);
    assert_eq!(e.ver(), 3);
    assert_eq!(e, Entity::from_raw_parts(7, 3));
    assert_ne!(e, Entity::from_raw_parts(7, 4));
    assert_ne!(e, Entity::from_raw_parts(8, 3));
}

#[test]
fn ids_convert_to_and_from_numbers() {
    assert_eq!(usize::from(ArchetypeDescriptorId::from(5u32)), 5);
    assert_eq!(u32::from(ArchetypeDescriptorId::from(6usize)), 6);
    assert_eq!(u32::from(ArchetypeDescriptorId::default()), 0);
    assert_eq!(usize::from(DataBuffersId::from(5u32)), 5);
    assert_eq!(u32::from(DataBuffersId::from(6usize)), 6);
    assert_eq!(u32::from(DataBuffersId::default()), 0);
}

#[test]
fn pack_columns_are_kept_in_the_order_of_their_types() {
    let pack = pack_of(vec![(position(), vec![1, 2]), (velocity(), vec![3, 4])]);
    let other = pack_of(vec![(velocity(), vec![3, 4]), (position(), vec![1, 2])]);
    assert_eq!(pack.width(), 2);
    assert_eq!(pack.len(), 2);
    assert!(!pack.is_empty());
    assert!(pack.is_valid());
    assert!(pack.has_distinct_types());
    assert!(pack.archetype().same_types(&other.archetype()));
    assert!(pack.archetype().same_types(&archetype_of(&[position(), velocity()])));
}

#[test]
fn pack_with_unequal_columns_is_not_valid() {
    let pack = pack_of(vec![(position(), vec![1, 2]), (velocity(), vec![3])]);
    assert!(!pack.is_valid());
    let twice = pack_of(vec![(position(), vec![1]), (position(), vec![2])]);
    assert!(twice.is_valid());
    assert!(!twice.has_distinct_types());
    let empty: ComponentPack<u32> = ComponentPack::new();
    assert!(empty.is_valid());
    assert!(empty.has_distinct_types());
    assert_eq!(empty.width(), 0);
    assert_eq!(empty.len(), 0);
    assert!(empty.is_empty());
}

#[test]
fn component_buffers_are_created_once() {
    let mut registry = Archetypes::<u32>::new();
    assert!(registry.get_component_buffers(&position()).is_none());
    assert!(registry.get_component_buffers_mut(&position()).is_none());
    registry.create_component_buffers(position());
    assert_eq!(registry.get_component_buffers_mut(&position()).unwrap().create(), 0);
    registry.create_component_buffers(position());
    registry.create_component_buffers(velocity());
    assert_eq!(registry.get_component_buffers(&position()).unwrap().len(), 1);
    assert_eq!(registry.get_component_buffers(&velocity()).unwrap().len(), 0);
    assert!(registry.get_component_buffers(&health()).is_none());
    assert_eq!(registry.get_entity_buffers().len(), 0);
    assert_eq!(registry.get_entity_buffers_mut().create(), 0);
    assert_eq!(registry.get_entity_buffers().len(), 1);
}

#[test]
fn move_into_fills_the_rows_of_the_archetype() {
    let mut registry = Archetypes::<u32>::new();
    let entities = [Entity::from_raw_parts(0, 1), Entity::from_raw_parts(1, 1)];
    let mut pack = pack_of(vec![(position(), vec![10, 11]), (velocity(), vec![20, 21])]);
    let (id, begin) = pack.move_into(&entities, &mut registry);
    assert_eq!(usize::from(id), 0);
    assert_eq!(begin, 0);
    assert_eq!(pack.width(), 2);
    assert_eq!(pack.len(), 0);

    let more = [Entity::from_raw_parts(2, 1)];
    let mut pack = pack_of(vec![(velocity(), vec![22]), (position(), vec![12])]);
    let (id, begin) = pack.move_into(&more, &mut registry);
    assert_eq!(usize::from(id), 0);
    assert_eq!(begin, 2);

    let other = [Entity::from_raw_parts(3, 1)];
    let mut pack = pack_of(vec![(position(), vec![13])]);
    let (id, begin) = pack.move_into(&other, &mut registry);
    assert_eq!(usize::from(id), 1);
    assert_eq!(begin, 0);

    let both = archetype_of(&[position(), velocity()]);
    let one = archetype_of(&[position()]);
    assert_eq!(component_row(&mut registry, &both, position()), vec![10, 11, 12]);
    assert_eq!(component_row(&mut registry, &both, velocity()), vec![20, 21, 22]);
    assert_eq!(component_row(&mut registry, &one, position()), vec![13]);
    assert_eq!(
        entity_row(&registry, &both),
        vec![
            Entity::from_raw_parts(0, 1),
            Entity::from_raw_parts(1, 1),
            Entity::from_raw_parts(2, 1)
        ]
    );
    assert_eq!(entity_row(&registry, &one), vec![Entity::from_raw_parts(3, 1)]);
    assert_eq!(registry.descriptors().len(), 2);
}

#[test]
fn create_mints_ids_in_order_with_version_one() {
    let mut world: World<u32> = World::new();
    assert_eq!(world.entity_count(), 0);
    let made = world
        .create(pack_of(vec![(position(), vec![1, 2, 3]), (velocity(), vec![4, 5, 6])]))
        .clone();
    assert_eq!(made.len(), 3);
    for (i, e) in made.iter().enumerate() {
        assert_eq!(e.id(), i as u32);
        assert_eq!(e.ver(), 1);
    }
    let made = world.create(pack_of(vec![(velocity(), vec![1, 2, 3]), (health(), vec![4, 5, 6])])).clone();
    assert_eq!(
        made,
        vec![
            Entity::from_raw_parts(3, 1),
            Entity::from_raw_parts(4, 1),
            Entity::from_raw_parts(5, 1)
        ]
    );
    assert_eq!(world.entity_count(), 6);
    assert_eq!(world.archetypes().descriptors().len(), 2);
}

#[test]
fn rows_of_an_archetype_grow_together() {
    let mut world: World<u32> = World::default();
    let mut all = Vec::new();
    for round in 0..5u32 {
        let values: Vec<u32> = (0..round + 1).collect();
        let doubled: Vec<u32> = values.iter().map(|v| v * 2).collect();
        let made = world.create(pack_of(vec![(position(), values), (health(), doubled)])).clone();
        assert_eq!(made.len() as u32, round + 1);
        all.extend(made);
    }
    let archetype = archetype_of(&[position(), health()]);
    let entities = entity_row(world.archetypes(), &archetype);
    assert_eq!(entities, all);
    assert_eq!(entities.len(), 15);
    let (descriptor, _) = world.archetypes().get_archetype_descriptor(&archetype).unwrap();
    let positions = world.archetypes().get_component_buffers(&position()).unwrap();
    let healths = world.archetypes().get_component_buffers(&health()).unwrap();
    let p = descriptor.component_map()[archetype.iter().position(|t| *t == position()).unwrap()];
    let h = descriptor.component_map()[archetype.iter().position(|t| *t == health()).unwrap()];
    assert_eq!(positions.row_len(p), 15);
    assert_eq!(healths.row_len(h), 15);
    for i in 0..15 {
        assert_eq!(healths.peek_row(h)[i], positions.peek_row(p)[i] * 2);
    }
}

#[test]
fn a_query_visits_the_matching_archetypes_last_first() {
    let mut world: World<u32> = World::new();
    world.create(pack_of(vec![(position(), vec![1, 2]), (velocity(), vec![3, 4])]));
    world.create(pack_of(vec![(health(), vec![5])]));
    world.create(pack_of(vec![(position(), vec![6, 7, 8])]));

    let mut system = ComponentFilter::new();
    system.add_by_id(position(), true);
    system.add_by_id(velocity(), false);
    let generator = QueryGenerator::new(&system);

    let mut wanted = ComponentFilter::new();
    wanted.add_by_id(position(), false);
    assert!(generator.allows(&wanted));
    let mut query = generator.create(world.archetypes(), &wanted);
    assert_eq!(query.len(), 5);
    assert!(!query.is_empty());
    let mut visited = Vec::new();
    while let Some(item) = query.next() {
        visited.push(item);
    }
    assert_eq!(
        visited,
        vec![
            QueryItem { descriptor: 2, index: 0 },
            QueryItem { descriptor: 2, index: 1 },
            QueryItem { descriptor: 2, index: 2 },
            QueryItem { descriptor: 0, index: 0 },
            QueryItem { descriptor: 0, index: 1 },
        ]
    );
    assert_eq!(query.next(), None);
    assert_eq!(query.len(), 5);

    let mut both = ComponentFilter::new();
    both.add_by_id(velocity(), false);
    both.add_by_id(position(), true);
    assert!(generator.allows(&both));
    let mut query = generator.create(world.archetypes(), &both);
    assert_eq!(query.len(), 2);
    assert_eq!(query.next(), Some(QueryItem { descriptor: 0, index: 0 }));
    assert_eq!(query.next(), Some(QueryItem { descriptor: 0, index: 1 }));
    assert_eq!(query.next(), None);
}

#[test]
fn a_query_wider_than_the_filter_is_not_allowed() {
    let mut system = ComponentFilter::new();
    system.add_by_id(position(), false);
    system.add_by_id(velocity(), true);
    let generator = QueryGenerator::new(&system);

    let mut writes_position = ComponentFilter::new();
    writes_position.add_by_id(position(), true);
    assert!(!generator.allows(&writes_position));

    let mut reads_health = ComponentFilter::new();
    reads_health.add_by_id(health(), false);
    assert!(!generator.allows(&reads_health));

    let mut reads_written = ComponentFilter::new();
    reads_written.add_by_id(velocity(), false);
    assert!(generator.allows(&reads_written));

    assert!(generator.allows(&ComponentFilter::new()));
}

#[test]
fn a_query_over_an_empty_world_visits_nothing() {
    let world: World<u32> = World::new();
    let mut system = ComponentFilter::new();
    system.add_by_id(position(), false);
    let generator = QueryGenerator::new(&system);
    let mut query = generator.create(world.archetypes(), &system);
    assert!(query.is_empty());
    assert_eq!(query.len(), 0);
    assert_eq!(query.next(), None);
}

#[test]
fn a_storage_set_names_the_row_of_each_access() {
    let mut world: World<u32> = World::new();
    world.create(pack_of(vec![(velocity(), vec![1])]));
    world.create(pack_of(vec![(position(), vec![2]), (velocity(), vec![3]), (health(), vec![4])]));
    let all = archetype_of(&[position(), velocity(), health()]);
    let (descriptor, id) = world.archetypes().get_archetype_descriptor(&all).unwrap();
    assert_eq!(usize::from(id), 1);

    let mut wanted = ComponentFilter::new();
    wanted.add_by_id(health(), false);
    wanted.add_by_id(velocity(), true);
    let rows = wanted.make_storage_set(descriptor);
    // The second archetype got the second row of velocities, and the
    // first row of healths.
    assert_eq!(rows, vec![0, 1]);
    for (id, row, value) in [(health(), rows[0], 4), (velocity(), rows[1], 3)] {
        let buffers = world.archetypes().get_component_buffers(&id).unwrap();
        assert_eq!(buffers.peek_row(row), &vec![value]);
    }
    assert_eq!(ComponentFilter::new().make_storage_set(descriptor), Vec::<usize>::new());
}

#[test]
fn the_position_of_a_type_is_its_place_in_ascending_order() {
    let archetype = archetype_of(&[health(), position(), velocity()]);
    let mut sorted = vec![health(), position(), velocity()];
    sorted.sort_unstable();
    for (i, id) in sorted.iter().enumerate() {
        assert_eq!(archetype.position(id), Some(i));
    }
    assert_eq!(archetype.position(&TypeId::of::<u8>()), None);
    assert_eq!(Archetype::default().position(&position()), None);
}

#[test]
fn a_writer_changes_one_value_of_a_row() {
    let mut world: World<u32> = World::new();
    world.create(pack_of(vec![(position(), vec![1, 2, 3])]));
    let buffers = world.archetypes_mut().get_component_buffers_mut(&position()).unwrap();
    let handle = buffers.get_mut(0);
    buffers.set(0, &handle, 1, 20);
    assert_eq!(buffers.written_row(0, &handle), &vec![1, 20, 3]);
    buffers.release_mut(0, handle);
    assert_eq!(world.archetypes().get_component_buffers(&position()).unwrap().peek_row(0), &vec![1, 20, 3]);
    assert_eq!(world.entity_count(), 3);
}

#[test]
fn an_entity_and_its_components_stand_at_the_same_index() {
    let mut world: World<u32> = World::new();
    world.create(pack_of(vec![(health(), vec![7])]));
    let made = world
        .create(pack_of(vec![(position(), vec![10, 11, 12]), (velocity(), vec![20, 21, 22])]))
        .clone();
    let archetype = archetype_of(&[position(), velocity()]);
    let p = archetype.position(&position()).unwrap();
    let v = archetype.position(&velocity()).unwrap();
    let registry = world.archetypes();
    for i in 0..3 {
        assert_eq!(registry.entity_at(1, i), made[i]);
        assert_eq!(*registry.component_at(1, p, i), 10 + i as u32);
        assert_eq!(*registry.component_at(1, v, i), 20 + i as u32);
    }
    assert_eq!(registry.entity_at(0, 0), Entity::from_raw_parts(0, 1));
    assert_eq!(*registry.component_at(0, 0, 0), 7);
}

struct ComponentA;
struct ComponentB;
struct ComponentC;

/// The tick of a system of the example: it visits the entities that have
/// both component types, and finds the values that they were made with.
fn example_tick(
    generator: &QueryGenerator,
    registry: &Archetypes<u32>,
    first: (TypeId, bool),
    second: (TypeId, bool),
) -> usize {
    let mut visited = 0;
    // First both are read, then each is taken as the system asked for it.
    for (first_access, second_access) in [(false, false), (first.1, second.1)] {
        let mut wanted = ComponentFilter::new();
        wanted.add_by_id(first.0, first_access);
        wanted.add_by_id(second.0, second_access);
        assert!(generator.allows(&wanted));
        let mut query = generator.create(registry, &wanted);
        let mut i = 0;
        while let Some(item) = query.next() {
            let archetype = registry.descriptors()[item.descriptor].archetype();
            let x = archetype.position(&first.0).unwrap();
            let y = archetype.position(&second.0).unwrap();
            assert!(*registry.component_at(item.descriptor, x, item.index) == i as u32 + 1);
            assert!(*registry.component_at(item.descriptor, y, item.index) == i as u32 + 4);
            i += 1;
            visited += 1;
        }
    }
    visited
}

#[test]
fn basic_example() {
    let a = TypeId::of::<ComponentA>();
    let b = TypeId::of::<ComponentB>();
    let c = TypeId::of::<ComponentC>();

    // Create the world
    let mut world: World<u32> = World::new();

    // Create entities
    world.create(pack_of(vec![(a, vec![1, 2, 3]), (b, vec![4, 5, 6])]));

    world.create(pack_of(vec![(b, vec![1, 2, 3]), (c, vec![4, 5, 6])]));

    // Create the dispatcher
    let mut system_a = ComponentFilter::new();
    system_a.add_by_id(a, false);
    system_a.add_by_id(b, true);
    let mut system_b = ComponentFilter::new();
    system_b.add_by_id(b, true);
    system_b.add_by_id(c, false);
    let mut builder = cecs::dispatcher::Dispatcher::builder();
    builder.with_system(&system_a, &[]);
    builder.with_system(&system_b, &[]);
    let mut dispatcher = builder.build();

    // Run the dispatcher
    dispatcher.begin_tick();
    let mut completions: Vec<usize> = Vec::new();
    let mut ticked = Vec::new();
    loop {
        let started = dispatcher.step(&completions);
        if dispatcher.is_done() {
            break;
        }
        // Both systems write the same component type: one runs at a time.
        assert_eq!(started.len(), 1);
        for system in &started {
            let visited = if *system == 0 {
                example_tick(&QueryGenerator::new(&system_a), world.archetypes(), (a, false), (b, true))
            } else {
                example_tick(&QueryGenerator::new(&system_b), world.archetypes(), (b, true), (c, false))
            };
            // The query that reads both and the query that writes one.
            assert_eq!(visited, 6);
            ticked.push(*system);
        }
        completions = started;
    }
    assert_eq!(ticked, vec![0, 1]);
}

#[test]
fn rows_are_taken_and_given_back() {
    let mut world: World<u32> = World::new();
    world.create(pack_of(vec![(position(), vec![1, 2]), (velocity(), vec![3, 4])]));
    let archetype = archetype_of(&[position(), velocity()]);
    let p = archetype.position(&position()).unwrap();
    let v = archetype.position(&velocity()).unwrap();
    let registry = world.archetypes_mut();

    let entities = registry.hold_entities(0);
    let reader = registry.hold_row(0, p, false);
    let other = registry.hold_row(0, p, false);
    let writer = registry.hold_row(0, v, true);
    assert!(matches!(reader, RowHandle::Read(_)));
    assert!(matches!(writer, RowHandle::Write(_)));
    assert_eq!(registry.get_entity_buffers().access_state(0), 1);
    assert_eq!(registry.get_component_buffers(&position()).unwrap().access_state(0), 2);
    assert_eq!(registry.get_component_buffers(&velocity()).unwrap().access_state(0), EXCLUSIVE);

    assert_eq!(*registry.component_held(0, p, 1, &reader), 2);
    assert_eq!(*registry.component_held(0, v, 0, &writer), 3);
    registry.set_component(0, v, 0, &writer, 30);
    assert_eq!(*registry.component_held(0, v, 0, &writer), 30);
    assert_eq!(*registry.component_held(0, v, 1, &writer), 4);

    registry.release_row(0, v, writer);
    registry.release_row(0, p, other);
    registry.release_row(0, p, reader);
    registry.release_entities(0, entities);
    assert_eq!(registry.get_entity_buffers().access_state(0), 0);
    assert_eq!(registry.get_component_buffers(&position()).unwrap().access_state(0), 0);
    assert_eq!(registry.get_component_buffers(&velocity()).unwrap().access_state(0), 0);
    assert_eq!(*registry.component_at(0, v, 0), 30);
    assert_eq!(*registry.component_at(0, p, 0), 1);
}

#[test]
fn a_query_can_be_made_while_rows_are_held() {
    let mut world: World<u32> = World::new();
    world.create(pack_of(vec![(position(), vec![1, 2]), (velocity(), vec![3, 4])]));
    let archetype = archetype_of(&[position(), velocity()]);
    let p = archetype.position(&position()).unwrap();
    let v = archetype.position(&velocity()).unwrap();
    let mut wanted = ComponentFilter::new();
    wanted.add_by_id(position(), false);
    let generator = QueryGenerator::new(&wanted);

    let registry = world.archetypes_mut();
    assert!(registry.can_be_queried());
    // The row of entities is read, a row of components is read and
    // another one is written.
    let entities = registry.hold_entities(0);
    let reader = registry.hold_row(0, p, false);
    let writer = registry.hold_row(0, v, true);
    assert!(registry.can_be_queried());
    let mut query = generator.create(registry, &wanted);
    assert_eq!(query.len(), 2);
    assert_eq!(query.next(), Some(QueryItem { descriptor: 0, index: 0 }));
    assert_eq!(query.next(), Some(QueryItem { descriptor: 0, index: 1 }));
    assert_eq!(query.next(), None);
    registry.release_row(0, v, writer);
    registry.release_row(0, p, reader);
    registry.release_entities(0, entities);

    // While the row of entities is written, no query can be made.
    let writer = registry.get_entity_buffers_mut().get_mut(0);
    assert!(!registry.can_be_queried());
    registry.get_entity_buffers_mut().release_mut(0, writer);
    assert!(registry.can_be_queried());
}
