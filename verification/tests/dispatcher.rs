use cecs::clique::{bron_kerbosch, maximum_clique};
use cecs::dispatcher::{Dispatcher, DispatcherBuilder, SystemId};
use cecs::filter::ComponentFilter;
use cecs::pack::ComponentPack;
use cecs::system_set::{SystemSet, MAX_SYSTEMS};
use cecs::world::World;
use std::any::TypeId;

struct C0;
struct C1;
struct C2;
struct C3;
struct C4;
struct C5;
struct C6;
struct C7;
struct C8;
struct C9;
struct C10;
struct C11;
struct C12;
struct C13;
struct C14;
struct C15;

fn component(i: usize) -> TypeId {
    match i {
        0 => TypeId::of::<C0>(),
        1 => TypeId::of::<C1>(),
        2 => TypeId::of::<C2>(),
        3 => TypeId::of::<C3>(),
        4 => TypeId::of::<C4>(),
        5 => TypeId::of::<C5>(),
        6 => TypeId::of::<C6>(),
        7 => TypeId::of::<C7>(),
        8 => TypeId::of::<C8>(),
        9 => TypeId::of::<C9>(),
        10 => TypeId::of::<C10>(),
        11 => TypeId::of::<C11>(),
        12 => TypeId::of::<C12>(),
        13 => TypeId::of::<C13>(),
        14 => TypeId::of::<C14>(),
        15 => TypeId::of::<C15>(),
        _ => unreachable!(),
    }
}

fn filter(writes: &[usize], reads: &[usize]) -> ComponentFilter {
    let mut filter = ComponentFilter::new();
    for w in writes {
        filter.add_by_id(component(*w), true);
    }
    for r in reads {
        filter.add_by_id(component(*r), false);
    }
    filter
}

fn set(indices: &[usize]) -> SystemSet {
    SystemSet::from_indices(&indices.to_vec())
}

/// The symmetric graph with the given edges, every vertex its own neighbour.
fn graph(n: usize, edges: &[(usize, usize)]) -> Vec<SystemSet> {
    (0..n)
        .map(|i| {
            let mut row = vec![i];
            for (a, b) in edges {
                if *a == i {
                    row.push(*b);
                }
                if *b == i {
                    row.push(*a);
                }
            }
            set(&row)
        })
        .collect()
}

fn cliques(universe: &[usize], g: &[SystemSet]) -> Vec<Vec<usize>> {
    let mut out = Vec::new();
    bron_kerbosch(set(&[]), set(universe), set(&[]), g, &mut out);
    out.iter().map(|c| c.indices()).collect()
}

/// Runs one tick in which every system that was started finishes before the
/// next scheduling decision; returns what each decision started.
fn run_tick(dispatcher: &mut Dispatcher, ticks: &mut [u32]) -> Vec<Vec<usize>> {
    dispatcher.begin_tick();
    let mut batches = Vec::new();
    let mut completions: Vec<usize> = Vec::new();
    while !dispatcher.is_done() {
        let started = dispatcher.step(&completions);
        // Nothing runs any more: so something was started, or all is done.
        assert!(!started.is_empty() || dispatcher.is_done());
        completions = dispatcher.running_systems();
        for i in &started {
            ticks[*i] += 1;
        }
        if !started.is_empty() {
            batches.push(started);
        }
    }
    batches
}

#[test]
fn system_sets_hold_the_slots_below_the_maximum() {
    assert_eq!(MAX_SYSTEMS, 128);
    assert_eq!(set(&[]).indices(), Vec::<usize>::new());
    assert_eq!(set(&[5, 0, 127, 5, 64]).indices(), vec![0, 5, 64, 127]);
    assert_eq!(set(&[128, 3, 1000]).indices(), vec![3]);
    let all: Vec<usize> = (0..128).collect();
    assert_eq!(set(&all).indices(), all);
}

#[test]
fn search_emits_the_maximal_cliques_in_order() {
    // A path 0 - 1 - 2 and the lone vertex 3.
    let g = graph(4, &[(0, 1), (1, 2)]);
    assert_eq!(cliques(&[0, 1, 2, 3], &g), vec![vec![0, 1], vec![1, 2], vec![3]]);
    assert_eq!(cliques(&[0, 2, 3], &g), vec![vec![0], vec![2], vec![3]]);
    assert_eq!(cliques(&[1], &g), vec![vec![1]]);
    assert_eq!(cliques(&[], &g), vec![Vec::<usize>::new()]);
    // A triangle with a tail.
    let g = graph(4, &[(0, 1), (0, 2), (1, 2), (2, 3)]);
    assert_eq!(cliques(&[0, 1, 2, 3], &g), vec![vec![0, 1, 2], vec![2, 3]]);
    assert_eq!(cliques(&[1, 2, 3], &g), vec![vec![1, 2], vec![2, 3]]);
}

#[test]
fn search_keeps_what_it_is_given() {
    let g = graph(3, &[(0, 1)]);
    let mut out = vec![set(&[2])];
    bron_kerbosch(set(&[2]), set(&[0, 1]), set(&[]), &g, &mut out);
    let found: Vec<Vec<usize>> = out.iter().map(|c| c.indices()).collect();
    assert_eq!(found, vec![vec![2], vec![0, 1, 2]]);
    // A vertex that was seen before bars the cliques that it would extend.
    let mut out = Vec::new();
    bron_kerbosch(set(&[]), set(&[1]), set(&[0]), &g, &mut out);
    assert!(out.is_empty());
}

#[test]
fn a_largest_clique_is_chosen() {
    let g = graph(5, &[(0, 1), (2, 3), (3, 4), (2, 4)]);
    assert_eq!(maximum_clique(set(&[0, 1, 2, 3, 4]), &g).indices(), vec![2, 3, 4]);
    assert_eq!(maximum_clique(set(&[0, 1, 2, 3]), &g).indices(), vec![0, 1]);
    assert_eq!(maximum_clique(set(&[1, 2, 4]), &g).indices(), vec![2, 4]);
    assert_eq!(maximum_clique(set(&[0, 2]), &g).indices(), vec![0]);
    assert_eq!(maximum_clique(set(&[]), &g).indices(), Vec::<usize>::new());
}

#[test]
fn of_the_largest_cliques_the_one_with_the_lowest_member_is_chosen() {
    // The triangles {2, 4, 5} and {1, 3, 6}, and the edge {0, 1}.
    let g = graph(7, &[(0, 1), (2, 4), (2, 5), (4, 5), (1, 3), (1, 6), (3, 6)]);
    let all = [0, 1, 2, 3, 4, 5, 6];
    // The search meets {2, 4, 5} before {1, 3, 6}.
    assert_eq!(cliques(&all, &g), vec![vec![0, 1], vec![2, 4, 5], vec![1, 3, 6]]);
    assert_eq!(maximum_clique(set(&all), &g).indices(), vec![1, 3, 6]);
    // Of two cliques with the same least member the first one met is chosen.
    let g = graph(3, &[(0, 1), (0, 2)]);
    assert_eq!(cliques(&[0, 1, 2], &g), vec![vec![0, 1], vec![0, 2]]);
    assert_eq!(maximum_clique(set(&[0, 1, 2]), &g).indices(), vec![0, 1]);
}

#[test]
fn a_complete_graph_of_all_slots_is_one_clique() {
    let all: Vec<usize> = (0..128).collect();
    let g: Vec<SystemSet> = (0..128).map(|_| set(&all)).collect();
    assert_eq!(maximum_clique(set(&all), &g).indices(), all);
    assert_eq!(cliques(&all, &g), vec![all.clone()]);
}

#[test]
fn the_builder_counts_systems_and_threads() {
    let builder = Dispatcher::builder();
    assert_eq!(builder.len(), 0);
    let mut builder = DispatcherBuilder::new().thread_count(12);
    let a = builder.with_system(&filter(&[0], &[]), &[]);
    let b = builder.with_system(&filter(&[1], &[]), &[a]);
    assert_eq!(a.index(), 0);
    assert_eq!(b.index(), 1);
    assert_ne!(a, b);
    assert!(a < b);
    assert_eq!(builder.len(), 2);
    let dispatcher = builder.build();
    assert_eq!(dispatcher.len(), 2);
    assert_eq!(dispatcher.thread_count(), 12);
    assert_eq!(DispatcherBuilder::default().build().thread_count(), 1);
}

#[test]
fn systems_are_compatible_unless_one_writes_what_the_other_touches() {
    let mut builder = Dispatcher::builder();
    builder.with_system(&filter(&[0], &[1]), &[]);
    builder.with_system(&filter(&[2], &[1]), &[]);
    builder.with_system(&filter(&[1], &[]), &[]);
    builder.with_system(&filter(&[], &[0, 2]), &[]);
    builder.with_system(&filter(&[], &[3]), &[]);
    let dispatcher = builder.build();
    // Two readers of one type may run side by side; a writer of it may not.
    assert_eq!(dispatcher.compatible_systems(0), vec![0, 1, 4]);
    assert_eq!(dispatcher.compatible_systems(1), vec![0, 1, 4]);
    assert_eq!(dispatcher.compatible_systems(2), vec![2, 3, 4]);
    assert_eq!(dispatcher.compatible_systems(3), vec![2, 3, 4]);
    assert_eq!(dispatcher.compatible_systems(4), vec![0, 1, 2, 3, 4]);
}

#[test]
fn nine_system_benchmark() {
    // Each system writes its own component and reads others.
    let reads: [&[usize]; 9] = [
        &[2, 3, 5, 6, 7, 8],
        &[3, 6, 7, 8],
        &[0, 3, 7, 8],
        &[0, 2, 5, 6],
        &[6, 7],
        &[0, 3, 7],
        &[0, 1, 3, 4, 6, 7, 8],
        &[0, 1, 2, 4, 5, 6, 8],
        &[0, 1, 2, 6, 7],
    ];
    let mut builder = Dispatcher::builder().thread_count(12);
    for (i, r) in reads.iter().enumerate() {
        builder.with_system(&filter(&[i], r), &[]);
    }
    let mut dispatcher = builder.build();

    let mut world: World<u32> = World::new();
    for i in 0..9 {
        let mut pack = ComponentPack::new();
        pack.add_column(component(i), vec![i as u32]);
        pack.add_column(component((i + 1) % 9), vec![0]);
        assert_eq!(world.create(pack).len(), 1);
    }
    assert_eq!(world.entity_count(), 9);

    // A system that reads what another writes cannot run beside it.
    for i in 0..9 {
        let compatible = dispatcher.compatible_systems(i);
        for j in 0..9 {
            let conflict = i != j && (reads[i].contains(&j) || reads[j].contains(&i));
            assert_eq!(compatible.contains(&j), !conflict, "{} {}", i, j);
        }
    }

    let mut ticks = [0u32; 9];
    let first = run_tick(&mut dispatcher, &mut ticks);
    let cached = dispatcher.cached_count();
    assert!(cached > 0);
    let second = run_tick(&mut dispatcher, &mut ticks);
    // The second tick meets the universes of the first: nothing is searched.
    assert_eq!(dispatcher.cached_count(), cached);
    assert_eq!(first, second);
    for _ in 2..10_000 {
        run_tick(&mut dispatcher, &mut ticks);
    }
    assert_eq!(ticks, [10_000u32; 9]);
    assert_eq!(dispatcher.cached_count(), cached);
}

#[test]
fn nine_writers_of_their_own_component_run_together() {
    // Nobody reads what another writes: the compatibility graph is complete.
    let mut builder = Dispatcher::builder().thread_count(4);
    for i in 0..9 {
        builder.with_system(&filter(&[i], &[9 + i % 6]), &[]);
    }
    let mut dispatcher = builder.build();
    let all: Vec<usize> = (0..9).collect();
    for i in 0..9 {
        assert_eq!(dispatcher.compatible_systems(i), all);
    }
    let mut ticks = [0u32; 9];
    assert_eq!(run_tick(&mut dispatcher, &mut ticks), vec![all.clone()]);
    assert_eq!(dispatcher.cached_count(), 1);
    assert_eq!(run_tick(&mut dispatcher, &mut ticks), vec![all]);
    assert_eq!(dispatcher.cached_count(), 1);
    assert_eq!(ticks, [2u32; 9]);
}

#[test]
fn linear_dependency_chain() {
    let mut builder = Dispatcher::builder();
    let mut last: Option<SystemId> = None;
    for _ in 0..5 {
        let dependencies: Vec<SystemId> = last.iter().copied().collect();
        last = Some(builder.with_system(&filter(&[0], &[]), &dependencies));
    }
    let mut dispatcher = builder.build();
    for _ in 0..3 {
        dispatcher.begin_tick();
        let mut order = Vec::new();
        let mut completions: Vec<usize> = Vec::new();
        loop {
            let started = dispatcher.step(&completions);
            if dispatcher.is_done() {
                assert!(started.is_empty());
                break;
            }
            // Exactly one system runs at a time.
            assert_eq!(started.len(), 1);
            assert_eq!(dispatcher.running_systems(), started);
            // Nothing more starts while it runs.
            assert!(dispatcher.schedule().is_empty());
            completions = started.clone();
            order.extend(started);
        }
        assert_eq!(order, vec![0, 1, 2, 3, 4]);
        assert_eq!(dispatcher.finished_systems(), vec![0, 1, 2, 3, 4]);
    }
}

#[test]
fn fan_out() {
    let mut builder = Dispatcher::builder();
    let root = builder.with_system(&filter(&[0], &[]), &[]);
    for i in 1..5 {
        builder.with_system(&filter(&[i], &[5]), &[root]);
    }
    let mut dispatcher = builder.build();
    dispatcher.begin_tick();
    assert_eq!(dispatcher.pending_systems(), vec![0]);
    assert_eq!(dispatcher.schedule(), vec![0]);
    // The dependents wait until the root has finished.
    assert!(dispatcher.schedule().is_empty());
    assert!(dispatcher.pending_systems().is_empty());
    assert!(dispatcher.complete(0));
    assert_eq!(dispatcher.pending_systems(), vec![1, 2, 3, 4]);
    assert_eq!(dispatcher.schedule(), vec![1, 2, 3, 4]);
    assert_eq!(dispatcher.running_systems(), vec![1, 2, 3, 4]);
    assert!(!dispatcher.is_done());
    for i in [3, 1, 4, 2] {
        assert!(dispatcher.complete(i));
    }
    assert!(dispatcher.is_done());
    assert!(dispatcher.running_systems().is_empty());
    assert_eq!(dispatcher.finished_systems(), vec![0, 1, 2, 3, 4]);
}

#[test]
fn two_incompatible_roots() {
    let mut builder = Dispatcher::builder();
    builder.with_system(&filter(&[0], &[]), &[]);
    builder.with_system(&filter(&[0], &[]), &[]);
    let mut dispatcher = builder.build();
    assert_eq!(dispatcher.compatible_systems(0), vec![0]);
    assert_eq!(dispatcher.compatible_systems(1), vec![1]);
    for _ in 0..4 {
        dispatcher.begin_tick();
        assert_eq!(dispatcher.schedule(), vec![0]);
        // The other root stays pending while the first runs.
        assert!(dispatcher.schedule().is_empty());
        assert_eq!(dispatcher.running_systems(), vec![0]);
        assert_eq!(dispatcher.pending_systems(), vec![1]);
        assert_eq!(dispatcher.step(&[0]), vec![1]);
        assert_eq!(dispatcher.running_systems(), vec![1]);
        assert!(dispatcher.step(&[1]).is_empty());
        assert!(dispatcher.is_done());
    }
}

#[test]
fn empty_world() {
    // Five groups of one to five systems; the systems of a group read what
    // the other groups write, and write what only they touch.
    let groups: [&[usize]; 5] = [&[1], &[2, 3], &[4, 5, 6], &[7, 8, 9, 10], &[11, 12, 13, 14, 15]];
    let group_of: [usize; 15] = [0, 1, 2, 3, 4, 1, 2, 3, 4, 2, 3, 4, 3, 4, 4];
    let mut seen = [0usize; 5];
    let mut builder = Dispatcher::builder().thread_count(4);
    for g in group_of {
        let write = groups[g][seen[g]];
        seen[g] += 1;
        let reads: Vec<usize> =
            (1..16).filter(|c| !groups[g].contains(c) && (g < 4 || *c <= 10)).collect();
        builder.with_system(&filter(&[write], &reads), &[]);
    }
    let mut dispatcher = builder.build();
    let world: World<u32> = World::new();
    assert_eq!(world.entity_count(), 0);

    let mut ticks = [0u32; 15];
    let batches = run_tick(&mut dispatcher, &mut ticks);
    assert_eq!(ticks, [1u32; 15]);
    // The first decision starts a maximum clique: the group of five.
    assert_eq!(batches[0], vec![4, 8, 11, 13, 14]);
    let mut groups_run: Vec<Vec<usize>> = batches.clone();
    groups_run.sort();
    assert_eq!(
        groups_run,
        vec![vec![0], vec![1, 5], vec![2, 6, 9], vec![3, 7, 10, 12], vec![4, 8, 11, 13, 14]]
    );
    assert!(dispatcher.is_done());
}

#[test]
fn a_completion_of_a_system_that_does_not_run_counts_for_nothing() {
    let mut builder = Dispatcher::builder();
    let a = builder.with_system(&filter(&[0], &[]), &[]);
    builder.with_system(&filter(&[1], &[]), &[a, a]);
    let mut dispatcher = builder.build();
    assert!(!dispatcher.complete(0));
    assert!(!dispatcher.complete(1));
    assert!(!dispatcher.complete(500));
    assert_eq!(dispatcher.pending_systems(), vec![0]);
    assert_eq!(dispatcher.step(&[0, 1, 7]), vec![0]);
    // A system that is named twice as a dependency is waited for twice.
    assert_eq!(dispatcher.step(&[0, 0]), vec![1]);
    assert!(!dispatcher.complete(0));
    assert!(dispatcher.complete(1));
    assert!(dispatcher.is_done());
}

#[test]
fn a_universe_is_remembered_once() {
    let mut builder = Dispatcher::builder();
    builder.with_system(&filter(&[0], &[]), &[]);
    builder.with_system(&filter(&[0], &[]), &[]);
    let mut dispatcher = builder.build();
    assert_eq!(dispatcher.cached_count(), 0);
    // The universe {0, 1}.
    assert_eq!(dispatcher.schedule(), vec![0]);
    assert_eq!(dispatcher.cached_count(), 1);
    // The same universe again: 0 runs, 1 is pending.
    assert!(dispatcher.schedule().is_empty());
    assert_eq!(dispatcher.cached_count(), 1);
    // The universe {1}.
    assert_eq!(dispatcher.step(&[0]), vec![1]);
    assert_eq!(dispatcher.cached_count(), 2);
    // Nothing is pending: nothing is decided, nothing remembered.
    assert!(dispatcher.step(&[]).is_empty());
    assert!(dispatcher.step(&[1]).is_empty());
    assert_eq!(dispatcher.cached_count(), 2);
    dispatcher.begin_tick();
    assert_eq!(dispatcher.cached_count(), 2);
    assert_eq!(dispatcher.step(&[]), vec![0]);
    assert_eq!(dispatcher.step(&[0]), vec![1]);
    assert_eq!(dispatcher.cached_count(), 2);
}

#[test]
fn a_dispatcher_without_systems_is_done_at_once() {
    let mut dispatcher = Dispatcher::builder().build();
    dispatcher.begin_tick();
    assert!(dispatcher.is_done());
    assert!(dispatcher.schedule().is_empty());
    assert!(dispatcher.step(&[]).is_empty());
    assert_eq!(dispatcher.cached_count(), 0);
}

#[test]
fn the_same_universe_gives_the_same_clique() {
    let mut builder = Dispatcher::builder();
    builder.with_system(&filter(&[0], &[]), &[]);
    builder.with_system(&filter(&[1], &[0]), &[]);
    builder.with_system(&filter(&[2], &[]), &[]);
    let mut dispatcher = builder.build();
    let mut decisions = Vec::new();
    for _ in 0..3 {
        dispatcher.begin_tick();
        let mut tick = Vec::new();
        let mut completions = Vec::new();
        loop {
            let started = dispatcher.step(&completions);
            if dispatcher.is_done() {
                break;
            }
            completions = started.clone();
            tick.push(started);
        }
        decisions.push(tick);
    }
    assert_eq!(decisions[0], vec![vec![0, 2], vec![1]]);
    assert_eq!(decisions[1], decisions[0]);
    assert_eq!(decisions[2], decisions[0]);
    assert_eq!(dispatcher.cached_count(), 2);
}

#[test]
fn a_running_system_outside_the_clique_does_not_hold_the_clique_back() {
    // System 0 conflicts with 1 and 2, which do not conflict with each other.
    let mut builder = Dispatcher::builder();
    builder.with_system(&filter(&[0, 1], &[]), &[]);
    builder.with_system(&filter(&[0], &[]), &[]);
    builder.with_system(&filter(&[1], &[]), &[]);
    let mut dispatcher = builder.build();
    dispatcher.begin_tick();
    assert_eq!(dispatcher.schedule(), vec![1, 2]);
    assert!(dispatcher.complete(1));
    // The universe is now {0, 2}: the clique chosen for it is {0}.
    assert_eq!(dispatcher.schedule(), vec![0]);
    assert_eq!(dispatcher.running_systems(), vec![0, 2]);
}

#[test]
fn a_dispatcher_takes_the_maximum_number_of_systems() {
    let mut builder = Dispatcher::builder();
    let mut previous: Vec<SystemId> = Vec::new();
    for i in 0..MAX_SYSTEMS {
        // Every system reads one type; the even ones wait for the one before.
        let dependencies: Vec<SystemId> =
            if i % 2 == 0 { previous.iter().copied().collect() } else { Vec::new() };
        let id = builder.with_system(&filter(&[], &[0]), &dependencies);
        assert_eq!(id.index(), i);
        previous = vec![id];
    }
    assert_eq!(builder.len(), MAX_SYSTEMS);
    let mut dispatcher = builder.build();
    let all: Vec<usize> = (0..MAX_SYSTEMS).collect();
    assert_eq!(dispatcher.compatible_systems(127), all);
    let mut ticks = [0u32; MAX_SYSTEMS];
    let batches = run_tick(&mut dispatcher, &mut ticks);
    assert_eq!(ticks, [1u32; MAX_SYSTEMS]);
    // The systems that wait for nothing: the first and the odd ones.
    let first: Vec<usize> = (0..MAX_SYSTEMS).filter(|i| *i == 0 || i % 2 == 1).collect();
    let second: Vec<usize> = (2..MAX_SYSTEMS).filter(|i| i % 2 == 0).collect();
    assert_eq!(batches, vec![first, second]);
}

#[test]
fn a_system_starts_only_after_its_dependencies() {
    // A diamond: 1 and 2 wait for 0, and 3 waits for both.
    let mut builder = Dispatcher::builder();
    let a = builder.with_system(&filter(&[0], &[]), &[]);
    let b = builder.with_system(&filter(&[1], &[]), &[a]);
    let c = builder.with_system(&filter(&[2], &[]), &[a]);
    builder.with_system(&filter(&[3], &[]), &[b, c]);
    let mut dispatcher = builder.build();
    dispatcher.begin_tick();
    assert_eq!(dispatcher.step(&[]), vec![0]);
    assert_eq!(dispatcher.step(&[0]), vec![1, 2]);
    assert!(dispatcher.step(&[2]).is_empty());
    assert_eq!(dispatcher.pending_systems(), Vec::<usize>::new());
    assert_eq!(dispatcher.running_systems(), vec![1]);
    assert_eq!(dispatcher.finished_systems(), vec![0, 2]);
    assert_eq!(dispatcher.step(&[1]), vec![3]);
    assert!(!dispatcher.is_done());
    assert!(dispatcher.step(&[3]).is_empty());
    assert!(dispatcher.is_done());
}
