//! The dispatcher: which systems may run side by side, which have to wait for
//! which, and what to start at each scheduling decision of a tick.
//!
//! The dispatcher decides; it runs nothing. Whoever drives it starts the
//! systems that `schedule` hands out and reports each one that has finished
//! with `complete`, until `is_done`.

use crate::archetype::{overlaps, Archetype};
use crate::clique::{chosen_clique, lemma_chosen_within, maximum_clique, neighbours, views};
use crate::filter::{in_ascending_order, picked, ComponentFilter};
use crate::maximal::{graph_wf, is_clique, lemma_chosen_maximum};
use crate::system_set::{lemma_slots_finite, lists, names, SystemSet, MAX_SYSTEMS};
use crate::turns::{at_first, started_by, turn, Turned};
use vstd::prelude::*;
use vstd::set_lib::{lemma_int_range, lemma_subset_equality, set_int_range};

verus! {

/// Names a system of a dispatcher: its index in the order of registration.
#[derive(Debug, Copy, Clone, PartialEq, Eq, PartialOrd, Ord, Hash)]
pub struct SystemId(usize);

impl View for SystemId {
    type V = int;

    closed spec fn view(&self) -> int {
        self.0 as int
    }
}

impl SystemId {
    /// The index of the system in the order of registration.
    pub fn index(&self) -> (r: usize)
        ensures
            r == self@,
    {
        self.0
    }
}

/// Describes the state of a system in the dispatcher.
struct SystemStage {
    read_types: Archetype,
    write_types: Archetype,
    all_types: Archetype,
    /// Number of dependencies this system has.
    dependency_count: usize,
    /// Number of dependencies the system is waiting on currently.
    waiting_on: usize,
    /// Indices of systems that are dependent on us.
    dependents: Vec<usize>,
}

/// What the dispatcher knows of a system: the ranks of the component types
/// it reads, writes and touches at all, how many systems it depends on, and
/// the systems that depend on it, once for each time they named it.
pub struct StageView {
    pub read_types: Seq<int>,
    pub write_types: Seq<int>,
    pub all_types: Seq<int>,
    pub dependency_count: int,
    pub dependents: Seq<usize>,
}

impl View for SystemStage {
    type V = StageView;

    closed spec fn view(&self) -> StageView {
        StageView {
            read_types: self.read_types@,
            write_types: self.write_types@,
            all_types: self.all_types@,
            dependency_count: self.dependency_count as int,
            dependents: self.dependents@,
        }
    }
}

/// The views of a sequence of stages.
spec fn stage_views(s: Seq<SystemStage>) -> Seq<StageView> {
    s.map_values(|st: SystemStage| st@)
}

/// How many times `d` occurs in `list`.
pub open spec fn count_in(list: Seq<usize>, d: int) -> nat
    decreases list.len(),
{
    if list.len() == 0 {
        0
    } else {
        count_in(list.drop_last(), d) + if list.last() == d {
            1nat
        } else {
            0nat
        }
    }
}

/// How many times the first `upto` systems outside `done` name `d` as a
/// dependent: the number of dependencies of `d` that are not done.
pub open spec fn owed(s: Seq<StageView>, done: Set<int>, d: int, upto: int) -> nat
    decreases upto,
{
    if upto <= 0 {
        0
    } else {
        owed(s, done, d, upto - 1) + if done.contains(upto - 1) {
            0nat
        } else {
            count_in(s[upto - 1].dependents, d)
        }
    }
}

/// The dependency graph is well formed: there are at most `MAX_SYSTEMS`
/// systems, every dependent was registered after the system it depends on,
/// and the dependency count of a system is the number of times it is named
/// as a dependent.
pub open spec fn stages_wf(s: Seq<StageView>) -> bool {
    &&& s.len() <= MAX_SYSTEMS
    &&& forall|a: int, j: int|
        0 <= a < s.len() && 0 <= j < s[a].dependents.len() ==> a < #[trigger] s[a].dependents[j]
            < s.len()
    &&& forall|d: int|
        0 <= d < s.len() ==> (#[trigger] s[d]).dependency_count == owed(
            s,
            Set::empty(),
            d,
            s.len() as int,
        )
}

/// Two systems may run side by side: they are the same system, or neither
/// touches a component type that the other writes.
pub open spec fn compatible(s: Seq<StageView>, i: int, j: int) -> bool {
    i == j || (!overlaps(s[i].all_types, s[j].write_types) && !overlaps(
        s[j].all_types,
        s[i].write_types,
    ))
}

/// The compatibility graph: for each system the set of the systems that may
/// run beside it, itself among them.
pub open spec fn compatibility_graph(s: Seq<StageView>) -> Seq<Set<int>> {
    Seq::new(s.len(), |i: int| Set::new(|j: int| 0 <= j < s.len() && compatible(s, i, j)))
}

/// `count_in` of a list with one more element.
pub proof fn lemma_count_push(list: Seq<usize>, x: usize, d: int)
    ensures
        count_in(list.push(x), d) == count_in(list, d) + if x == d {
            1nat
        } else {
            0nat
        },
{
    assert(list.push(x).drop_last() =~= list);
}

/// A list whose elements all differ from `d` does not hold `d`.
pub proof fn lemma_count_absent(list: Seq<usize>, d: int)
    requires
        forall|j: int| 0 <= j < list.len() ==> list[j] != d,
    ensures
        count_in(list, d) == 0,
    decreases list.len(),
{
    if list.len() > 0 {
        lemma_count_absent(list.drop_last(), d);
    }
}

/// What is owed depends on the first `upto` systems only, and of those on
/// their dependents only.
pub proof fn lemma_owed_same(s: Seq<StageView>, t: Seq<StageView>, done: Set<int>, d: int, upto: int)
    requires
        upto <= s.len(),
        upto <= t.len(),
        forall|a: int| 0 <= a < upto ==> s[a].dependents == t[a].dependents,
    ensures
        owed(s, done, d, upto) == owed(t, done, d, upto),
    decreases upto,
{
    if upto > 0 {
        lemma_owed_same(s, t, done, d, upto - 1);
    }
}

/// When system `a` gets the dependent `x`, what is owed to `x` grows by one
/// where `a` counts, and what is owed to the others stays.
pub proof fn lemma_owed_push(
    s: Seq<StageView>,
    t: Seq<StageView>,
    done: Set<int>,
    d: int,
    upto: int,
    a: int,
    x: usize,
)
    requires
        0 <= a < s.len(),
        upto <= s.len(),
        s.len() == t.len(),
        t[a].dependents == s[a].dependents.push(x),
        forall|b: int| 0 <= b < s.len() && b != a ==> s[b].dependents == t[b].dependents,
    ensures
        owed(t, done, d, upto) == owed(s, done, d, upto) + if a < upto && !done.contains(a) && x
            == d {
            1nat
        } else {
            0nat
        },
    decreases upto,
{
    if upto > 0 {
        lemma_owed_push(s, t, done, d, upto - 1, a, x);
        if a == upto - 1 {
            lemma_count_push(s[a].dependents, x, d);
        }
    }
}

/// When system `k` is done, what it owed is owed no more.
pub proof fn lemma_owed_finish(s: Seq<StageView>, done: Set<int>, k: int, d: int, upto: int)
    requires
        0 <= k < s.len(),
        !done.contains(k),
        upto <= s.len(),
    ensures
        owed(s, done, d, upto) == owed(s, done.insert(k), d, upto) + if k < upto {
            count_in(s[k].dependents, d)
        } else {
            0nat
        },
    decreases upto,
{
    if upto > 0 {
        lemma_owed_finish(s, done, k, d, upto - 1);
    }
}

/// A prefix of a list holds `d` no more often than the list, and one time
/// more than the prefix before it where it ends in `d`.
pub proof fn lemma_count_take(list: Seq<usize>, j: int, d: int)
    requires
        0 <= j <= list.len(),
    ensures
        count_in(list.take(j), d) <= count_in(list, d),
        j < list.len() ==> count_in(list.take(j + 1), d) == count_in(list.take(j), d) + if list[j]
            == d {
            1nat
        } else {
            0nat
        },
    decreases list.len() - j,
{
    if j < list.len() {
        assert(list.take(j + 1).drop_last() =~= list.take(j));
        lemma_count_take(list, j + 1, d);
    } else {
        assert(list.take(j) =~= list);
    }
}

/// A list that holds `d` no time has no element equal to `d`.
pub proof fn lemma_count_zero(list: Seq<usize>, d: int)
    requires
        count_in(list, d) == 0,
    ensures
        forall|j: int| 0 <= j < list.len() ==> list[j] != d,
    decreases list.len(),
{
    if list.len() > 0 {
        lemma_count_zero(list.drop_last(), d);
        assert forall|j: int| 0 <= j < list.len() implies list[j] != d by {
            if j < list.len() - 1 {
                assert(list.drop_last()[j] == list[j]);
            }
        }
    }
}

/// Where nothing is owed to `d`, no system that counts names `d`.
pub proof fn lemma_owed_zero(s: Seq<StageView>, done: Set<int>, d: int, upto: int, a: int)
    requires
        owed(s, done, d, upto) == 0,
        0 <= a < upto,
        !done.contains(a),
    ensures
        count_in(s[a].dependents, d) == 0,
    decreases upto,
{
    if a < upto - 1 {
        lemma_owed_zero(s, done, d, upto - 1, a);
    }
}

/// A system is pending, running or finished only when every system that it
/// depends on has finished: where `d` is a dependent of `a` and `d` has
/// become pending, `a` has finished.
pub proof fn lemma_dependencies_first(
    s: Seq<StageView>,
    waiting: Seq<int>,
    pending: Set<int>,
    running: Set<int>,
    finished: Set<int>,
    a: int,
    j: int,
)
    requires
        tick_wf(s, waiting, pending, running, finished),
        0 <= a < s.len(),
        0 <= j < s[a].dependents.len(),
        pending.contains(s[a].dependents[j] as int) || running.contains(
            s[a].dependents[j] as int,
        ) || finished.contains(s[a].dependents[j] as int),
    ensures
        finished.contains(a),
{
    let d = s[a].dependents[j] as int;
    assert(waiting[d] == 0);
    if !finished.contains(a) {
        lemma_owed_zero(s, finished, d, s.len() as int, a);
        lemma_count_zero(s[a].dependents, d);
    }
}

/// Nothing is owed to a system that no list names.
pub proof fn lemma_owed_absent(s: Seq<StageView>, done: Set<int>, d: int, upto: int)
    requires
        upto <= s.len(),
        forall|a: int, j: int|
            0 <= a < upto && 0 <= j < s[a].dependents.len() ==> #[trigger] s[a].dependents[j] != d,
    ensures
        owed(s, done, d, upto) == 0,
    decreases upto,
{
    if upto > 0 {
        lemma_owed_absent(s, done, d, upto - 1);
        lemma_count_absent(s[upto - 1].dependents, d);
    }
}

/// The indices of a list of system names.
pub open spec fn indices_of(ids: Seq<SystemId>) -> Seq<usize> {
    ids.map_values(|s: SystemId| s@ as usize)
}

/// Stage `t` is stage `s` with `extra` more dependents, all of them `x`.
pub open spec fn with_dependents(s: StageView, t: StageView, extra: nat, x: usize) -> bool {
    &&& t.read_types == s.read_types
    &&& t.write_types == s.write_types
    &&& t.all_types == s.all_types
    &&& t.dependency_count == s.dependency_count
    &&& t.dependents == s.dependents + Seq::new(extra, |j: int| x)
}

/// Builds a dispatcher: systems are registered one by one, each with the
/// systems that have to finish before it in every tick.
pub struct DispatcherBuilder {
    systems: Vec<SystemStage>,
    thread_count: usize,
}

impl View for DispatcherBuilder {
    type V = Seq<StageView>;

    closed spec fn view(&self) -> Seq<StageView> {
        stage_views(self.systems@)
    }
}

impl Default for DispatcherBuilder {
    fn default() -> (r: Self)
        ensures
            r@ == Seq::<StageView>::empty(),
            r.threads() == 1,
            r.wf(),
    {
        let r = DispatcherBuilder { systems: Vec::new(), thread_count: 1 };
        assert(r@ =~= Seq::<StageView>::empty());
        r
    }
}

impl DispatcherBuilder {
    /// The number of worker threads asked for.
    pub closed spec fn threads(&self) -> int {
        self.thread_count as int
    }

    /// The systems registered so far form a well-formed dependency graph.
    pub open spec fn wf(&self) -> bool {
        stages_wf(self@)
    }

    pub fn new() -> (r: Self)
        ensures
            r@ == Seq::<StageView>::empty(),
            r.threads() == 1,
            r.wf(),
    {
        DispatcherBuilder::default()
    }

    /// Sets the number of worker threads.
    pub fn thread_count(self, thread_count: usize) -> (r: Self)
        ensures
            r@ == self@,
            r.threads() == thread_count,
    {
        let mut r = self;
        r.thread_count = thread_count;
        r
    }

    /// The number of systems registered so far.
    pub fn len(&self) -> (r: usize)
        ensures
            r == self@.len(),
    {
        self.systems.len()
    }

    /// Adds a new system to the dispatcher. Returns a unique ID for the system to define
    /// dependencies. The system reads and writes what `filter` says, and in
    /// every tick it starts only when each system of `dependencies` has
    /// finished. The new system becomes a dependent of each of them, once for
    /// each time that the list names it.
    pub fn with_system(&mut self, filter: &ComponentFilter, dependencies: &[SystemId]) -> (id:
        SystemId)
        requires
            old(self).wf(),
            old(self)@.len() < MAX_SYSTEMS,
            forall|k: int|
                0 <= k < dependencies@.len()
                    ==> 0 <= (#[trigger] dependencies@[k])@ < old(self)@.len(),
        ensures
            final(self).wf(),
            final(self).threads() == old(self).threads(),
            id@ == old(self)@.len(),
            final(self)@.len() == old(self)@.len() + 1,
            final(self)@[id@].read_types == in_ascending_order(picked(filter@, true, false)),
            final(self)@[id@].write_types == in_ascending_order(picked(filter@, false, true)),
            final(self)@[id@].all_types == in_ascending_order(picked(filter@, true, true)),
            final(self)@[id@].dependency_count == dependencies@.len(),
            final(self)@[id@].dependents == Seq::<usize>::empty(),
            forall|a: int|
                0 <= a < old(self)@.len() ==> with_dependents(
                    old(self)@[a],
                    #[trigger] final(self)@[a],
                    count_in(indices_of(dependencies@), a),
                    id@ as usize,
                ),
    {
        let n = self.systems.len();
        let id = SystemId(n);
        let ghost s0 = self@;
        let ghost wanted = indices_of(dependencies@);
        let ghost none = Set::<int>::empty();
        proof {
            lemma_owed_absent(s0, none, n as int, n as int);
            assert forall|a: int| 0 <= a < n implies with_dependents(
                s0[a],
                #[trigger] self@[a],
                count_in(wanted.take(0), a),
                n,
            ) by {
                assert(s0[a].dependents + Seq::new(0, |j: int| n) =~= s0[a].dependents);
            }
        }
        let mut i: usize = 0;
        while i < dependencies.len()
            invariant
                i <= dependencies.len(),
                n == s0.len(),
                n < MAX_SYSTEMS,
                self.systems@.len() == n,
                self.thread_count == old(self).thread_count,
                wanted == indices_of(dependencies@),
                none == Set::<int>::empty(),
                stages_wf(s0),
                forall|k: int|
                    0 <= k < dependencies@.len() ==> 0 <= (#[trigger] dependencies@[k])@ < n,
                forall|a: int|
                    0 <= a < n ==> with_dependents(
                        s0[a],
                        #[trigger] self@[a],
                        count_in(wanted.take(i as int), a),
                        n,
                    ),
                forall|d: int|
                    0 <= d < n ==> owed(self@, none, d, n as int) == owed(s0, none, d, n as int),
                owed(self@, none, n as int, n as int) == i,
            decreases dependencies.len() - i,
        {
            let dep = dependencies[i].0;
            let ghost prev = self@;
            assert(dep == dependencies@[i as int]@);
            self.systems[dep].dependents.push(n);
            proof {
                let cur = self@;
                assert(cur[dep as int].dependents == prev[dep as int].dependents.push(n));
                assert forall|b: int| 0 <= b < n && b != dep implies prev[b] == cur[b] by {}
                assert forall|d: int| 0 <= d < n implies owed(cur, none, d, n as int) == owed(
                    s0,
                    none,
                    d,
                    n as int,
                ) by {
                    lemma_owed_push(prev, cur, none, d, n as int, dep as int, n);
                }
                lemma_owed_push(prev, cur, none, n as int, n as int, dep as int, n);
                let w0 = wanted.take(i as int);
                let w1 = wanted.take(i + 1);
                assert(w1 =~= w0.push(dep));
                assert forall|a: int| 0 <= a < n implies with_dependents(
                    s0[a],
                    #[trigger] cur[a],
                    count_in(w1, a),
                    n,
                ) by {
                    lemma_count_push(w0, dep, a);
                    if a == dep {
                        assert(s0[a].dependents + Seq::new(count_in(w1, a), |j: int| n) =~= (
                        s0[a].dependents + Seq::new(count_in(w0, a), |j: int| n)).push(n));
                    }
                }
            }
            i += 1;
        }
        let ghost mid = self@;
        assert(wanted.take(i as int) =~= wanted);
        let stage = SystemStage {
            read_types: filter.read_archetype(),
            write_types: filter.write_archetype(),
            all_types: filter.archetype(),
            dependency_count: dependencies.len(),
            waiting_on: dependencies.len(),
            dependents: Vec::new(),
        };
        self.systems.push(stage);
        proof {
            let cur = self@;
            assert(cur =~= mid.push(stage@));
            assert forall|a: int, j: int|
                0 <= a < cur.len() && 0 <= j < cur[a].dependents.len() implies a
                < #[trigger] cur[a].dependents[j] < cur.len() by {
                if a < n {
                    if j < s0[a].dependents.len() {
                        assert(cur[a].dependents[j] == s0[a].dependents[j]);
                    }
                }
            }
            assert forall|d: int| 0 <= d < cur.len() implies (#[trigger] cur[d]).dependency_count
                == owed(cur, none, d, cur.len() as int) by {
                lemma_owed_same(cur, mid, none, d, n as int);
            }
        }
        id
    }
}

/// The systems among the first `upto` that may run beside system `i`.
pub open spec fn compatible_below(s: Seq<StageView>, i: int, upto: int) -> Set<int> {
    Set::new(|j: int| 0 <= j < upto && compatible(s, i, j))
}

/// Determines which systems are compatible with which: one set per system.
fn compatibility_of(systems: &Vec<SystemStage>) -> (r: Vec<SystemSet>)
    requires
        systems@.len() <= MAX_SYSTEMS,
    ensures
        views(r@) == compatibility_graph(stage_views(systems@)),
{
    let ghost s = stage_views(systems@);
    let n = systems.len();
    let mut compatibility: Vec<SystemSet> = Vec::new();
    let mut i: usize = 0;
    while i < n
        invariant
            i <= n,
            n == systems@.len(),
            n <= MAX_SYSTEMS,
            s == stage_views(systems@),
            compatibility@.len() == i,
            forall|a: int|
                0 <= a < i ==> (#[trigger] compatibility@[a])@ == compatible_below(s, a, n as int),
        decreases n - i,
    {
        let mut compatible_set = SystemSet::empty();
        let mut j: usize = 0;
        while j < n
            invariant
                i < n,
                j <= n,
                n == systems@.len(),
                n <= MAX_SYSTEMS,
                s == stage_views(systems@),
                compatible_set@ == compatible_below(s, i as int, j as int),
            decreases n - j,
        {
            let system = &systems[i];
            let other_system = &systems[j];
            assert(s[i as int] == system@ && s[j as int] == other_system@);
            // Write archetypes must not overlap (also, we are compatible with ourselves)
            let conflict = j != i && (system.all_types.any_of(&other_system.write_types)
                || other_system.all_types.any_of(&system.write_types));
            if !conflict {
                compatible_set.put(j, true);
            }
            assert(compatible_set@ =~= compatible_below(s, i as int, j + 1));
            j += 1;
        }
        compatibility.push(compatible_set);
        i += 1;
    }
    proof {
        let g = compatibility_graph(s);
        assert forall|a: int| 0 <= a < n implies #[trigger] views(compatibility@)[a] == g[a] by {
            assert(compatibility@[a]@ == compatible_below(s, a, n as int));
            assert(compatible_below(s, a, n as int) =~= g[a]);
        }
        assert(views(compatibility@) =~= g);
    }
    compatibility
}

impl DispatcherBuilder {
    /// Builds the dispatcher: determines which systems are compatible with
    /// which, and leaves the dispatcher at the start of a tick.
    pub fn build(self) -> (r: Dispatcher)
        requires
            self.wf(),
        ensures
            r.wf(),
            r.stages() == self@,
            r.threads() == self.threads(),
            r.compatibility() == compatibility_graph(self@),
            r.cached() == Seq::<Set<int>>::empty(),
            r.at_start(),
    {
        let compatibility = compatibility_of(&self.systems);
        let mut r = Dispatcher {
            systems: self.systems,
            thread_count: self.thread_count,
            compatibility,
            cache: Vec::new(),
            pending: SystemSet::empty(),
            running: SystemSet::empty(),
            finished: SystemSet::empty(),
        };
        assert(r.cached() =~= Seq::<Set<int>>::empty());
        r.begin_tick();
        r
    }
}

/// Two different systems that may run side by side never meet on a row in a
/// way that a lock would refuse: what one of them writes, the other neither
/// reads nor writes.
pub proof fn lemma_compatible_apart(s: Seq<StageView>, i: int, j: int, x: int)
    requires
        0 <= i < s.len(),
        0 <= j < s.len(),
        i != j,
        compatible(s, i, j),
        s[i].write_types.contains(x),
    ensures
        !s[j].all_types.contains(x),
{
    if s[j].all_types.contains(x) {
        let a = choose|a: int| 0 <= a < s[j].all_types.len() && s[j].all_types[a] == x;
        let b = choose|b: int| 0 <= b < s[i].write_types.len() && s[i].write_types[b] == x;
        assert(overlaps(s[j].all_types, s[i].write_types));
    }
}

/// The compatibility graph is symmetric, and its edges lead to systems.
pub proof fn lemma_graph_wf(s: Seq<StageView>)
    requires
        s.len() <= MAX_SYSTEMS,
    ensures
        graph_wf(compatibility_graph(s)),
{
    let g = compatibility_graph(s);
    assert forall|a: int, b: int| 0 <= a < g.len() && 0 <= b < g.len() implies (
    #[trigger] g[a].contains(b) <==> g[b].contains(a)) by {}
}

/// Two systems of the clique chosen for the running and the pending
/// systems are compatible; so any two systems that one scheduling decision
/// starts are, and so is each of them with every running system of the clique.
pub proof fn lemma_chosen_compatible(
    s: Seq<StageView>,
    pending: Set<int>,
    running: Set<int>,
    i: int,
    j: int,
)
    requires
        s.len() <= MAX_SYSTEMS,
        forall|d: int| pending.contains(d) ==> 0 <= d < s.len(),
        forall|d: int| running.contains(d) ==> 0 <= d < s.len(),
        chosen_clique(compatibility_graph(s), running.union(pending)).contains(i),
        chosen_clique(compatibility_graph(s), running.union(pending)).contains(j),
    ensures
        compatible(s, i, j),
        dispatch_set(compatibility_graph(s), pending, running).subset_of(
            chosen_clique(compatibility_graph(s), running.union(pending)),
        ),
{
    let g = compatibility_graph(s);
    let universe = running.union(pending);
    lemma_graph_wf(s);
    assert(is_clique(g, Set::<int>::empty()));
    lemma_chosen_maximum(g, universe, Set::<int>::empty());
    let c = chosen_clique(g, universe);
    if i != j {
        assert(neighbours(g, i).contains(j));
        assert(g[i].contains(j));
    }
}

/// While every running system is in the chosen clique, the systems that run
/// after a scheduling decision are compatible with one another.
pub proof fn lemma_running_compatible(
    s: Seq<StageView>,
    pending: Set<int>,
    running: Set<int>,
    i: int,
    j: int,
)
    requires
        s.len() <= MAX_SYSTEMS,
        forall|d: int| pending.contains(d) ==> 0 <= d < s.len(),
        forall|d: int| running.contains(d) ==> 0 <= d < s.len(),
        !(pending =~= Set::<int>::empty()),
        running.subset_of(chosen_clique(compatibility_graph(s), running.union(pending))),
        running.union(dispatch_set(compatibility_graph(s), pending, running)).contains(i),
        running.union(dispatch_set(compatibility_graph(s), pending, running)).contains(j),
    ensures
        compatible(s, i, j),
{
    lemma_chosen_compatible(s, pending, running, i, j);
}

/// The chosen clique depends on the systems that run or are pending,
/// whichever of the two each of them is: decisions on the same universe
/// choose the same clique, in every tick and whatever is remembered.
pub proof fn lemma_same_universe_same_clique(
    g: Seq<Set<int>>,
    pending: Set<int>,
    running: Set<int>,
    other_pending: Set<int>,
    other_running: Set<int>,
)
    requires
        running.union(pending) == other_running.union(other_pending),
    ensures
        chosen_clique(g, running.union(pending)) == chosen_clique(
            g,
            other_running.union(other_pending),
        ),
{
}

/// Nothing is owed to a system that is named only by systems that are done.
pub proof fn lemma_owed_none(s: Seq<StageView>, done: Set<int>, d: int, upto: int)
    requires
        upto <= s.len(),
        forall|a: int| 0 <= a < upto && !done.contains(a) ==> count_in(s[a].dependents, d) == 0,
    ensures
        owed(s, done, d, upto) == 0,
    decreases upto,
{
    if upto > 0 {
        lemma_owed_none(s, done, d, upto - 1);
    }
}

/// A tick cannot get stuck: while a system has not finished and nothing
/// runs, some system is pending, and the next scheduling decision starts at
/// least one. The system that was registered first among those that have not
/// finished is pending.
pub proof fn lemma_progress(
    s: Seq<StageView>,
    waiting: Seq<int>,
    pending: Set<int>,
    running: Set<int>,
    finished: Set<int>,
    d: int,
)
    requires
        stages_wf(s),
        tick_wf(s, waiting, pending, running, finished),
        running =~= Set::<int>::empty(),
        0 <= d < s.len(),
        !finished.contains(d),
    ensures
        !(pending =~= Set::<int>::empty()),
        !(dispatch_set(compatibility_graph(s), pending, running) =~= Set::<int>::empty()),
        dispatch_set(compatibility_graph(s), pending, running).len() >= 1,
{
    let first = first_unfinished(finished, d);
    lemma_first_unfinished(finished, d);
    let n = s.len() as int;
    assert forall|a: int| 0 <= a < n && !finished.contains(a) implies count_in(
        s[a].dependents,
        first,
    ) == 0 by {
        assert(a >= first);
        lemma_count_absent(s[a].dependents, first);
    }
    lemma_owed_none(s, finished, first, n);
    assert(waiting[first] == 0);
    assert(pending.contains(first));
    let g = compatibility_graph(s);
    let universe = running.union(pending);
    assert(universe =~= pending);
    lemma_graph_wf(s);
    let one = Set::<int>::empty().insert(first);
    assert(is_clique(g, one));
    lemma_chosen_maximum(g, universe, one);
    let c = chosen_clique(g, universe);
    assert(one.len() == 1);
    assert(dispatch_set(g, pending, running) =~= c);
    assert(c.len() >= 1);
    if c =~= Set::<int>::empty() {
        assert(c.len() == 0);
    }
}

/// The least system at or below `d` that is not in `finished`.
pub open spec fn first_unfinished(finished: Set<int>, d: int) -> int
    decreases d,
{
    if d <= 0 {
        0
    } else if exists|a: int| 0 <= a < d && !finished.contains(a) {
        first_unfinished(finished, choose|a: int| 0 <= a < d && !finished.contains(a))
    } else {
        d
    }
}

/// `first_unfinished` is not finished, and every system before it is.
pub proof fn lemma_first_unfinished(finished: Set<int>, d: int)
    requires
        0 <= d,
        !finished.contains(d),
    ensures
        0 <= first_unfinished(finished, d) <= d,
        !finished.contains(first_unfinished(finished, d)),
        forall|a: int| 0 <= a < first_unfinished(finished, d) ==> finished.contains(a),
    decreases d,
{
    if d <= 0 {
    } else if exists|a: int| 0 <= a < d && !finished.contains(a) {
        let a = choose|a: int| 0 <= a < d && !finished.contains(a);
        lemma_first_unfinished(finished, a);
    } else {
    }
}

/// A scheduling decision that the dispatcher remembers: the clique it chose
/// for a universe.
struct CacheEntry {
    universe: SystemSet,
    clique: SystemSet,
}

/// The dispatcher is where systems exist and is responsible for scheduling systems optimally.
pub struct Dispatcher {
    systems: Vec<SystemStage>,
    thread_count: usize,
    /// Maps each system to a `SystemSet` of compatible systems.
    compatibility: Vec<SystemSet>,
    /// Maps a universe, the running and the pending systems of a scheduling
    /// decision, to the clique chosen for it.
    cache: Vec<CacheEntry>,
    pending: SystemSet,
    running: SystemSet,
    finished: SystemSet,
}

/// What a scheduling decision starts: nothing where nothing is pending; else
/// the members of the clique chosen for the running and the pending systems
/// together that are not running yet.
pub open spec fn dispatch_set(g: Seq<Set<int>>, pending: Set<int>, running: Set<int>) -> Set<
    int,
> {
    if pending =~= Set::<int>::empty() {
        Set::empty()
    } else {
        chosen_clique(g, running.union(pending)).difference(running)
    }
}

/// The universes remembered after a decision on `universe`: those that were
/// remembered, and behind them `universe` where it was not among them.
pub open spec fn remembered(cached: Seq<Set<int>>, universe: Set<int>) -> Seq<Set<int>> {
    if cached.contains(universe) {
        cached
    } else {
        cached.push(universe)
    }
}

/// The running systems that `completions` does not name.
pub open spec fn still_running(running: Set<int>, completions: Seq<usize>) -> Set<int> {
    Set::new(|d: int| running.contains(d) && !names(completions, d))
}

/// The systems that are ready to start when `finished` have finished and
/// `running` run: those that wait for no system and have not been started.
pub open spec fn ready(s: Seq<StageView>, finished: Set<int>, running: Set<int>) -> Set<int> {
    Set::new(
        |d: int|
            0 <= d < s.len() && owed(s, finished, d, s.len() as int) == 0 && !finished.contains(d)
                && !running.contains(d),
    )
}

/// In a consistent tick the pending systems are the systems that are ready.
pub proof fn lemma_pending_ready(
    s: Seq<StageView>,
    waiting: Seq<int>,
    pending: Set<int>,
    running: Set<int>,
    finished: Set<int>,
)
    requires
        tick_wf(s, waiting, pending, running, finished),
    ensures
        pending == ready(s, finished, running),
{
    assert forall|d: int| pending.contains(d) <==> ready(s, finished, running).contains(d) by {
        if 0 <= d < s.len() {
            assert(waiting[d] == owed(s, finished, d, s.len() as int));
        }
    }
    assert(pending =~= ready(s, finished, running));
}

/// The roots of the dependency graph: the systems that depend on no other.
pub open spec fn roots(s: Seq<StageView>) -> Set<int> {
    Set::new(|d: int| 0 <= d < s.len() && s[d].dependency_count == 0)
}

/// The state of a tick is consistent with the dependency graph: the three
/// sets are disjoint sets of systems, a system waits for as many systems as
/// it has dependencies that have not finished, and it is pending, running or
/// finished exactly when it waits for none.
pub open spec fn tick_wf(
    s: Seq<StageView>,
    waiting: Seq<int>,
    pending: Set<int>,
    running: Set<int>,
    finished: Set<int>,
) -> bool {
    &&& waiting.len() == s.len()
    &&& forall|d: int| pending.contains(d) ==> 0 <= d < s.len()
    &&& forall|d: int| running.contains(d) ==> 0 <= d < s.len()
    &&& forall|d: int| finished.contains(d) ==> 0 <= d < s.len()
    &&& pending.disjoint(running)
    &&& pending.disjoint(finished)
    &&& running.disjoint(finished)
    &&& forall|d: int|
        0 <= d < s.len() ==> #[trigger] waiting[d] == owed(s, finished, d, s.len() as int)
    &&& forall|d: int|
        0 <= d < s.len() ==> (#[trigger] waiting[d] == 0 <==> pending.contains(d)
            || running.contains(d) || finished.contains(d))
}

impl Dispatcher {
    /// The systems of the dispatcher, in the order of registration.
    pub closed spec fn stages(&self) -> Seq<StageView> {
        stage_views(self.systems@)
    }

    /// The number of worker threads asked for.
    pub closed spec fn threads(&self) -> int {
        self.thread_count as int
    }

    /// For each system the set of the systems that may run beside it.
    pub closed spec fn compatibility(&self) -> Seq<Set<int>> {
        views(self.compatibility@)
    }

    /// For each system the number of dependencies it still waits for.
    pub closed spec fn waiting(&self) -> Seq<int> {
        Seq::new(self.systems@.len(), |d: int| self.systems@[d].waiting_on as int)
    }

    /// The systems that wait for nothing and have not been started.
    pub closed spec fn pending(&self) -> Set<int> {
        self.pending@
    }

    /// The systems that have been started and have not finished.
    pub closed spec fn running(&self) -> Set<int> {
        self.running@
    }

    /// The systems that have finished in this tick.
    pub closed spec fn finished(&self) -> Set<int> {
        self.finished@
    }

    /// The universes for which the dispatcher remembers its decision.
    pub closed spec fn cached(&self) -> Seq<Set<int>> {
        self.cache@.map_values(|e: CacheEntry| e.universe@)
    }

    /// Every remembered decision is the clique chosen for its universe.
    pub closed spec fn cache_wf(&self) -> bool {
        forall|k: int|
            0 <= k < self.cache@.len() ==> (#[trigger] self.cache@[k]).clique@ == chosen_clique(
                views(self.compatibility@),
                self.cache@[k].universe@,
            )
    }

    /// The dispatcher is consistent: the dependency graph is well formed, the
    /// compatibility graph is that of the systems, the cache holds what was
    /// chosen, for no universe twice, and the state of the tick fits the
    /// dependency graph.
    pub open spec fn wf(&self) -> bool {
        &&& self.cached().no_duplicates()
        &&& stages_wf(self.stages())
        &&& self.compatibility() == compatibility_graph(self.stages())
        &&& self.cache_wf()
        &&& tick_wf(self.stages(), self.waiting(), self.pending(), self.running(), self.finished())
    }

    /// How far the tick has come: the systems that have finished and those
    /// that run.
    pub open spec fn turned(&self) -> Turned {
        Turned { finished: self.finished(), running: self.running() }
    }

    /// A tick stands at its beginning: nothing runs, nothing has finished,
    /// and the roots are pending.
    pub open spec fn at_start(&self) -> bool {
        &&& self.running() == Set::<int>::empty()
        &&& self.finished() == Set::<int>::empty()
        &&& self.pending() == roots(self.stages())
    }

    pub fn builder() -> (r: DispatcherBuilder)
        ensures
            r@ == Seq::<StageView>::empty(),
            r.threads() == 1,
            r.wf(),
    {
        DispatcherBuilder::new()
    }

    /// The number of systems.
    pub fn len(&self) -> (r: usize)
        ensures
            r == self.stages().len(),
    {
        self.systems.len()
    }

    /// Takes note that system `k` has finished. Where `k` is running, it moves
    /// from the running to the finished systems, each of its dependents waits
    /// for one system less, once for each time it named `k`, and those that
    /// then wait for none become pending. Where `k` is not running, nothing
    /// changes and `false` comes back.
    pub fn complete(&mut self, k: usize) -> (r: bool)
        requires
            old(self).wf(),
        ensures
            final(self).wf(),
            final(self).stages() == old(self).stages(),
            final(self).threads() == old(self).threads(),
            final(self).compatibility() == old(self).compatibility(),
            final(self).cached() == old(self).cached(),
            r == old(self).running().contains(k as int),
            !r ==> final(self).waiting() == old(self).waiting()
                && final(self).pending() == old(self).pending()
                    && final(self).running() == old(self).running()
                        && final(self).finished() == old(self).finished(),
            r ==> final(self).running() == old(self).running().remove(k as int),
            r ==> final(self).finished() == old(self).finished().insert(k as int),
            r ==> forall|d: int|
                0 <= d < old(self).stages().len() ==> #[trigger] final(self).waiting()[d] == old(
                    self,
                ).waiting()[d] - count_in(old(self).stages()[k as int].dependents, d),
            r ==> forall|d: int|
                final(self).pending().contains(d) <==> old(self).pending().contains(d) || (0 <= d
                    < old(self).stages().len() && old(self).waiting()[d] > 0
                        && final(self).waiting()[d] == 0),
    {
        if k >= MAX_SYSTEMS || !self.running.has(k) {
            return false;
        }
        let ghost s = self.stages();
        let ghost n = s.len() as int;
        let ghost w0 = self.waiting();
        let ghost p_first = self.pending@;
        let ghost f0 = self.finished@;
        let ghost list = s[k as int].dependents;
        self.running.put(k, false);
        self.finished.put(k, true);
        let ghost r1 = self.running@;
        let ghost f1 = self.finished@;
        let m = self.systems[k].dependents.len();
        let mut i: usize = 0;
        proof {
            assert(list.take(0) =~= Seq::<usize>::empty());
            assert(self.waiting() =~= w0);
        }
        while i < m
            invariant
                i <= m,
                m == list.len(),
                0 <= k < n,
                n == s.len(),
                n <= MAX_SYSTEMS,
                stages_wf(s),
                self.systems@.len() == n,
                stage_views(self.systems@) == s,
                list == s[k as int].dependents,
                self.thread_count == old(self).thread_count,
                self.compatibility == old(self).compatibility,
                self.cache == old(self).cache,
                self.running@ == r1,
                self.finished@ == f1,
                f1 == f0.insert(k as int),
                !f0.contains(k as int),
                forall|d: int| p_first.contains(d) ==> 0 <= d < n,
                forall|d: int| r1.contains(d) ==> 0 <= d < n,
                forall|d: int| f1.contains(d) ==> 0 <= d < n,
                w0.len() == n,
                forall|d: int| 0 <= d < n ==> #[trigger] w0[d] == owed(s, f0, d, n),
                forall|d: int|
                    0 <= d < n ==> #[trigger] self.waiting()[d] == w0[d] - count_in(
                        list.take(i as int),
                        d,
                    ),
                forall|d: int|
                    #[trigger] self.pending@.contains(d) <==> p_first.contains(d) || (0 <= d < n
                        && w0[d] > 0 && self.waiting()[d] == 0),
            decreases m - i,
        {
            let d = self.systems[k].dependents[i];
            let ghost prev = self.systems@;
            let ghost wprev = self.waiting();
            let ghost pprev = self.pending@;
            proof {
                assert(s[k as int] == prev[k as int]@);
                assert(d == list[i as int]);
                assert(k < d < n);
                lemma_owed_finish(s, f0, k as int, d as int, n);
                lemma_count_take(list, i as int, d as int);
                lemma_count_take(list, i + 1, d as int);
                assert(wprev[d as int] == prev[d as int].waiting_on);
                assert(wprev[d as int] >= 1);
            }
            self.systems[d].waiting_on -= 1;
            if self.systems[d].waiting_on == 0 {
                self.pending.put(d, true);
            }
            proof {
                assert(stage_views(self.systems@) =~= s) by {
                    assert forall|a: int| 0 <= a < n implies stage_views(self.systems@)[a]
                        == s[a] by {
                        assert(stage_views(prev)[a] == s[a]);
                    }
                }
                assert forall|e: int| 0 <= e < n implies #[trigger] self.waiting()[e] == w0[e]
                    - count_in(list.take(i + 1), e) by {
                    lemma_count_take(list, i as int, e);
                    assert(wprev[e] == prev[e].waiting_on);
                    assert(self.waiting()[e] == self.systems@[e].waiting_on);
                }
                assert forall|e: int|
                    self.pending@.contains(e) <==> p_first.contains(e) || (0 <= e < n && w0[e] > 0
                        && self.waiting()[e] == 0) by {
                    assert(pprev.contains(e) <==> p_first.contains(e) || (0 <= e < n && w0[e] > 0
                        && wprev[e] == 0));
                    if 0 <= e < n {
                        assert(wprev[e] == prev[e].waiting_on);
                        assert(self.waiting()[e] == self.systems@[e].waiting_on);
                        assert(wprev[e] == w0[e] - count_in(list.take(i as int), e));
                        if e == d {
                            assert(w0[e] >= wprev[e]);
                            assert(wprev[e] >= 1);
                        } else {
                            assert(self.waiting()[e] == wprev[e]);
                        }
                    }
                }
            }
            i += 1;
        }
        proof {
            assert(list.take(i as int) =~= list);
            assert forall|d: int| 0 <= d < n implies #[trigger] self.waiting()[d] == owed(
                s,
                f1,
                d,
                n,
            ) by {
                lemma_owed_finish(s, f0, k as int, d, n);
            }
            let w1 = self.waiting();
            assert forall|d: int| 0 <= d < n implies (#[trigger] w1[d] == 0
                <==> self.pending@.contains(d) || r1.contains(d) || f1.contains(d)) by {
                assert(w1[d] == self.systems@[d].waiting_on);
                assert(w0[d] == 0 <==> p_first.contains(d) || old(self).running@.contains(d)
                    || f0.contains(d));
                assert(w1[d] == w0[d] - count_in(list, d));
            }
            assert forall|d: int| self.pending@.contains(d) implies 0 <= d < n by {
                assert(p_first.contains(d) || (0 <= d < n && w0[d] > 0 && self.waiting()[d] == 0));
            }
            assert forall|d: int| self.pending@.contains(d) implies !r1.contains(d)
                && !f1.contains(d) by {
                if !p_first.contains(d) {
                    assert(w0[d] > 0);
                    assert(w0[d] == 0 <==> p_first.contains(d) || old(self).running@.contains(d)
                        || f0.contains(d));
                }
            }
        }
        true
    }

    /// The systems that may run beside system `i`, itself among them, in
    /// ascending order.
    pub fn compatible_systems(&self, i: usize) -> (r: Vec<usize>)
        requires
            self.wf(),
            i < self.stages().len(),
        ensures
            lists(r@, self.compatibility()[i as int]),
            forall|j: int|
                0 <= j < self.stages().len() ==> (names(r@, j) <==> compatible(
                    self.stages(),
                    i as int,
                    j,
                )),
    {
        proof {
            assert(self.compatibility().len() == compatibility_graph(self.stages()).len());
            assert(self.compatibility().len() == self.compatibility@.len());
        }
        let r = self.compatibility[i].indices();
        proof {
            let g = self.compatibility();
            assert(g[i as int] == self.compatibility@[i as int]@);
            assert forall|j: int| 0 <= j < self.stages().len() implies (names(r@, j)
                <==> compatible(self.stages(), i as int, j)) by {
                assert(g[i as int].contains(j) <==> compatible(self.stages(), i as int, j));
                if names(r@, j) {
                    let k = choose|k: int| 0 <= k < r@.len() && #[trigger] r@[k] == j;
                    assert(g[i as int].contains(r@[k] as int));
                }
                if g[i as int].contains(j) {
                    let k = choose|k: int| 0 <= k < r@.len() && #[trigger] r@[k] == j;
                }
            }
        }
        r
    }

    /// The number of universes for which the dispatcher remembers its decision.
    pub fn cached_count(&self) -> (r: usize)
        ensures
            r == self.cached().len(),
    {
        self.cache.len()
    }

    /// The pending systems, in ascending order.
    pub fn pending_systems(&self) -> (r: Vec<usize>)
        ensures
            lists(r@, self.pending()),
    {
        self.pending.indices()
    }

    /// The running systems, in ascending order.
    pub fn running_systems(&self) -> (r: Vec<usize>)
        ensures
            lists(r@, self.running()),
    {
        self.running.indices()
    }

    /// The finished systems, in ascending order.
    pub fn finished_systems(&self) -> (r: Vec<usize>)
        ensures
            lists(r@, self.finished()),
    {
        self.finished.indices()
    }

    /// The number of worker threads asked for.
    pub fn thread_count(&self) -> (r: usize)
        ensures
            r == self.threads(),
    {
        self.thread_count
    }

    /// Whether every system has finished in this tick.
    pub fn is_done(&self) -> (r: bool)
        requires
            self.wf(),
        ensures
            r == (forall|d: int| 0 <= d < self.stages().len() ==> self.finished().contains(d)),
    {
        let r = self.finished.count_ones() == self.systems.len();
        proof {
            let n = self.stages().len() as int;
            let f = self.finished@;
            let all = set_int_range(0, n);
            lemma_int_range(0, n);
            lemma_slots_finite(f);
            assert(f.subset_of(all));
            if r {
                lemma_subset_equality(f, all);
                assert forall|d: int| 0 <= d < n implies f.contains(d) by {
                    assert(all.contains(d));
                }
            }
            if forall|d: int| 0 <= d < n ==> f.contains(d) {
                assert(f =~= all);
            }
        }
        r
    }

    /// The clique for `universe`: the remembered one where there is one, else
    /// the maximum clique, which is then remembered.
    fn clique_for(&mut self, universe: SystemSet) -> (r: SystemSet)
        requires
            old(self).cache_wf(),
            old(self).cached().no_duplicates(),
            forall|d: int| universe@.contains(d) ==> d < old(self).compatibility().len(),
        ensures
            final(self).cache_wf(),
            final(self).cached().no_duplicates(),
            r@ == chosen_clique(old(self).compatibility(), universe@),
            final(self).systems == old(self).systems,
            final(self).thread_count == old(self).thread_count,
            final(self).compatibility == old(self).compatibility,
            final(self).pending == old(self).pending,
            final(self).running == old(self).running,
            final(self).finished == old(self).finished,
            final(self).cached() == remembered(old(self).cached(), universe@),
    {
        let mut i: usize = 0;
        while i < self.cache.len()
            invariant
                i <= self.cache@.len(),
                *self == *old(self),
                self.cache_wf(),
                self.cached().no_duplicates(),
                forall|k: int| 0 <= k < i ==> (#[trigger] self.cache@[k]).universe@ != universe@,
            decreases self.cache.len() - i,
        {
            if self.cache[i].universe.same(&universe) {
                assert(self.cached()[i as int] == universe@);
                return self.cache[i].clique.copy();
            }
            i += 1;
        }
        assert(!self.cached().contains(universe@)) by {
            if self.cached().contains(universe@) {
                let k = choose|k: int| 0 <= k < self.cached().len() && self.cached()[k] == universe@;
                assert(self.cache@[k].universe@ == universe@);
            }
        }
        let clique = maximum_clique(universe.copy(), self.compatibility.as_slice());
        let chosen = clique.copy();
        let ghost before = self.cached();
        self.cache.push(CacheEntry { universe, clique });
        proof {
            assert(self.cached() =~= before.push(universe@));
        }
        chosen
    }

    /// One scheduling decision. Where no system is pending, nothing is
    /// started. Else the dispatcher takes the clique for the running and the
    /// pending systems together, and starts its members that are not running
    /// yet: they move from the pending to the running systems, and their
    /// indices come back in ascending order.
    pub fn schedule(&mut self) -> (r: Vec<usize>)
        requires
            old(self).wf(),
        ensures
            final(self).wf(),
            final(self).stages() == old(self).stages(),
            final(self).threads() == old(self).threads(),
            final(self).compatibility() == old(self).compatibility(),
            final(self).waiting() == old(self).waiting(),
            final(self).finished() == old(self).finished(),
            lists(
                r@,
                dispatch_set(old(self).compatibility(), old(self).pending(), old(self).running()),
            ),
            final(self).running() == old(self).running().union(
                dispatch_set(old(self).compatibility(), old(self).pending(), old(self).running()),
            ),
            final(self).pending() == old(self).pending().difference(
                dispatch_set(old(self).compatibility(), old(self).pending(), old(self).running()),
            ),
            dispatch_set(
                old(self).compatibility(),
                old(self).pending(),
                old(self).running(),
            ).subset_of(old(self).pending()),
            final(self).cached() == if old(self).pending() =~= Set::<int>::empty() {
                old(self).cached()
            } else {
                remembered(old(self).cached(), old(self).running().union(old(self).pending()))
            },
    {
        let ghost g = self.compatibility();
        let ghost p_first = self.pending@;
        let ghost r0 = self.running@;
        // If there are no new pending systems, there is nothing to decide
        if self.pending.not_any() {
            let none: Vec<usize> = Vec::new();
            proof {
                assert(p_first =~= Set::<int>::empty());
                assert(self.running@ =~= r0.union(Set::<int>::empty()));
                assert(self.pending@ =~= p_first.difference(Set::<int>::empty()));
            }
            return none;
        }
        let universe = self.running.union(&self.pending);
        proof {
            lemma_chosen_within(g, universe@);
        }
        let clique = self.clique_for(universe);
        // Get rid of the running systems
        let dispatch = clique.difference(&self.running);
        let to_run = dispatch.ones();
        self.running = self.running.union(&dispatch);
        self.pending = self.pending.difference(&dispatch);
        proof {
            assert(!(p_first =~= Set::<int>::empty()));
            assert(dispatch@ == dispatch_set(g, p_first, r0));
            assert(dispatch@.subset_of(p_first));
            assert(self.waiting() =~= old(self).waiting());
            let w = self.waiting();
            assert forall|d: int| 0 <= d < self.stages().len() implies (#[trigger] w[d] == 0
                <==> self.pending@.contains(d) || self.running@.contains(d)
                || self.finished@.contains(d)) by {
                assert(old(self).waiting()[d] == 0 <==> p_first.contains(d) || r0.contains(d)
                    || self.finished@.contains(d));
            }
        }
        to_run
    }

    /// One turn of the loop of a tick: takes note of the systems that have
    /// finished, in the order of `completions`, and makes one scheduling
    /// decision. Returns the systems to start. Completions of systems that
    /// are not running count for nothing.
    pub fn step(&mut self, completions: &[usize]) -> (r: Vec<usize>)
        requires
            old(self).wf(),
        ensures
            final(self).wf(),
            final(self).stages() == old(self).stages(),
            final(self).threads() == old(self).threads(),
            final(self).compatibility() == old(self).compatibility(),
            forall|d: int|
                #![trigger final(self).finished().contains(d)]
                final(self).finished().contains(d) <==> old(self).finished().contains(d)
                    || (old(self).running().contains(d) && names(completions@, d)),
            forall|d: int|
                #![trigger final(self).running().contains(d)]
                final(self).running().contains(d) <==> (old(self).running().contains(d)
                    && !names(completions@, d)) || names(r@, d),
            forall|k: int|
                0 <= k < r@.len() ==> !old(self).running().contains(#[trigger] r@[k] as int)
                    && !final(self).finished().contains(r@[k] as int),
            final(self).turned() == turn(old(self).stages(), old(self).turned(), completions@),
            lists(r@, started_by(old(self).stages(), old(self).turned(), completions@)),
            final(self).cached() == if ready(
                old(self).stages(),
                final(self).finished(),
                still_running(old(self).running(), completions@),
            ) =~= Set::<int>::empty() {
                old(self).cached()
            } else {
                remembered(
                    old(self).cached(),
                    still_running(old(self).running(), completions@).union(
                        ready(
                            old(self).stages(),
                            final(self).finished(),
                            still_running(old(self).running(), completions@),
                        ),
                    ),
                )
            },
            lists(
                r@,
                dispatch_set(
                    old(self).compatibility(),
                    ready(
                        old(self).stages(),
                        final(self).finished(),
                        still_running(old(self).running(), completions@),
                    ),
                    still_running(old(self).running(), completions@),
                ),
            ),
    {
        let ghost r0 = self.running();
        let ghost f0 = self.finished();
        let mut i: usize = 0;
        while i < completions.len()
            invariant
                i <= completions@.len(),
                self.wf(),
                self.stages() == old(self).stages(),
                self.threads() == old(self).threads(),
                self.compatibility() == old(self).compatibility(),
                self.cached() == old(self).cached(),
                tick_wf(old(self).stages(), old(self).waiting(), old(self).pending(), r0, f0),
                forall|d: int|
                    self.finished().contains(d) <==> f0.contains(d) || (r0.contains(d) && names(
                        completions@.take(i as int),
                        d,
                    )),
                forall|d: int|
                    self.running().contains(d) <==> r0.contains(d) && !names(
                        completions@.take(i as int),
                        d,
                    ),
            decreases completions.len() - i,
        {
            let ghost fin = self.finished();
            let ghost run = self.running();
            let k = completions[i];
            let was_running = self.complete(k);
            proof {
                let t0 = completions@.take(i as int);
                let t1 = completions@.take(i + 1);
                assert(t1 =~= t0.push(k));
                assert forall|d: int| names(t1, d) <==> names(t0, d) || d == k by {
                    if names(t0, d) {
                        let j = choose|j: int| 0 <= j < t0.len() && #[trigger] t0[j] == d;
                        assert(t1[j] == d);
                    }
                    if d == k {
                        assert(t1[i as int] == d);
                    }
                    if names(t1, d) {
                        let j = choose|j: int| 0 <= j < t1.len() && #[trigger] t1[j] == d;
                        if j < i {
                            assert(t0[j] == d);
                        }
                    }
                }
                assert forall|d: int|
                    self.finished().contains(d) <==> f0.contains(d) || (r0.contains(d) && names(
                        t1,
                        d,
                    )) by {
                    assert(fin.contains(d) <==> f0.contains(d) || (r0.contains(d) && names(t0, d)));
                    assert(run.contains(d) <==> r0.contains(d) && !names(t0, d));
                }
                assert forall|d: int|
                    self.running().contains(d) <==> r0.contains(d) && !names(t1, d) by {
                    assert(run.contains(d) <==> r0.contains(d) && !names(t0, d));
                }
            }
            i += 1;
        }
        assert(completions@.take(i as int) =~= completions@);
        let ghost r1 = self.running();
        let ghost p_next = self.pending();
        proof {
            lemma_pending_ready(self.stages(), self.waiting(), p_next, r1, self.finished());
            assert(r1 =~= still_running(r0, completions@));
        }
        let to_run = self.schedule();
        proof {
            let ds = dispatch_set(self.compatibility(), p_next, r1);
            assert forall|d: int| names(to_run@, d) <==> ds.contains(d) by {
                if names(to_run@, d) {
                    let j = choose|j: int| 0 <= j < to_run@.len() && #[trigger] to_run@[j] == d;
                    assert(ds.contains(to_run@[j] as int));
                }
            }
            assert forall|d: int|
                self.running().contains(d) <==> (r0.contains(d) && !names(completions@, d))
                    || names(to_run@, d) by {
                assert(names(to_run@, d) <==> ds.contains(d));
            }
            assert forall|k: int| 0 <= k < to_run@.len() implies !r0.contains(
                #[trigger] to_run@[k] as int,
            ) && !self.finished().contains(to_run@[k] as int) by {
                assert(ds.contains(to_run@[k] as int));
                assert(p_next.contains(to_run@[k] as int));
            }
            let st = old(self).turned();
            assert(self.compatibility() == compatibility_graph(self.stages()));
            assert(self.finished() =~= crate::turns::finished_after(st, completions@));
            assert(ds == started_by(old(self).stages(), st, completions@));
            assert(self.running() =~= still_running(r0, completions@).union(ds));
        }
        to_run
    }

    /// Reset: every system waits for all its dependencies again, the systems
    /// without dependencies are pending, nothing runs, nothing has finished.
    pub fn begin_tick(&mut self)
        requires
            stages_wf(old(self).stages()),
        ensures
            final(self).stages() == old(self).stages(),
            final(self).threads() == old(self).threads(),
            final(self).compatibility() == old(self).compatibility(),
            final(self).cached() == old(self).cached(),
            old(self).cache_wf() ==> final(self).cache_wf(),
            old(self).wf() ==> final(self).wf(),
            final(self).at_start(),
            final(self).turned() == at_first(),
            tick_wf(
                final(self).stages(),
                final(self).waiting(),
                final(self).pending(),
                final(self).running(),
                final(self).finished(),
            ),
    {
        let ghost s = self.stages();
        let n = self.systems.len();
        self.running = SystemSet::empty();
        self.finished = SystemSet::empty();
        let mut pending = SystemSet::empty();
        let mut i: usize = 0;
        while i < n
            invariant
                i <= n,
                n == s.len(),
                n <= MAX_SYSTEMS,
                self.systems@.len() == n,
                stage_views(self.systems@) == s,
                self.thread_count == old(self).thread_count,
                self.compatibility == old(self).compatibility,
                self.cache == old(self).cache,
                self.running@ == Set::<int>::empty(),
                self.finished@ == Set::<int>::empty(),
                forall|d: int|
                    pending@.contains(d) <==> 0 <= d < i && s[d].dependency_count == 0,
                forall|d: int|
                    0 <= d < i ==> (#[trigger] self.systems@[d]).waiting_on
                        == s[d].dependency_count,
            decreases n - i,
        {
            let ghost prev = self.systems@;
            let count = self.systems[i].dependency_count;
            self.systems[i].waiting_on = count;
            if count == 0 {
                pending.put(i, true);
            }
            proof {
                assert(stage_views(self.systems@) =~= s) by {
                    assert forall|a: int| 0 <= a < n implies stage_views(self.systems@)[a]
                        == s[a] by {
                        assert(stage_views(prev)[a] == s[a]);
                    }
                }
                assert(s[i as int] == prev[i as int]@);
            }
            i += 1;
        }
        self.pending = pending;
        proof {
            assert(self.pending@ =~= roots(s));
            assert(self.running@ =~= Set::<int>::empty());
            assert(self.finished@ =~= Set::<int>::empty());
            assert forall|d: int| 0 <= d < n implies #[trigger] self.waiting()[d] == owed(
                s,
                self.finished(),
                d,
                n as int,
            ) by {
                assert(self.systems@[d].waiting_on == s[d].dependency_count);
            }
        }
    }
}

} // verus!
