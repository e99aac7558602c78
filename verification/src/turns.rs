//! A tick as a series of turns: in every tick each system is started once.

use crate::clique::{chosen_clique, first_slot, lemma_chosen_within, lemma_lowest, neighbours};
use crate::dispatcher::{
    compatibility_graph, compatible, dispatch_set, lemma_graph_wf, lemma_owed_absent, ready,
    stages_wf, still_running, StageView,
};
use crate::maximal::{is_maximal, lemma_chosen_maximum, lemma_chosen_preferred};
use crate::system_set::{names, MAX_SYSTEMS};
use vstd::prelude::*;

verus! {

/// How far a tick has come: the systems that have finished and those that run.
pub struct Turned {
    pub finished: Set<int>,
    pub running: Set<int>,
}

/// A tick at its start: nothing has finished and nothing runs.
pub open spec fn at_first() -> Turned {
    Turned { finished: Set::empty(), running: Set::empty() }
}

/// The systems that have finished once `completions` are taken note of.
pub open spec fn finished_after(st: Turned, completions: Seq<usize>) -> Set<int> {
    Set::new(|d: int| st.finished.contains(d) || (st.running.contains(d) && names(completions, d)))
}

/// The systems that a turn starts: what the scheduling decision starts once
/// `completions` are taken note of.
pub open spec fn started_by(s: Seq<StageView>, st: Turned, completions: Seq<usize>) -> Set<int> {
    dispatch_set(
        compatibility_graph(s),
        ready(s, finished_after(st, completions), still_running(st.running, completions)),
        still_running(st.running, completions),
    )
}

/// One turn: the completions are taken note of, and what the scheduling
/// decision starts runs.
pub open spec fn turn(s: Seq<StageView>, st: Turned, completions: Seq<usize>) -> Turned {
    Turned {
        finished: finished_after(st, completions),
        running: still_running(st.running, completions).union(started_by(s, st, completions)),
    }
}

/// How far a tick has come after the first `k` turns of `trace`, which
/// holds the completions of each turn.
pub open spec fn state_after(s: Seq<StageView>, trace: Seq<Seq<usize>>, k: int) -> Turned
    decreases k,
{
    if k <= 0 {
        at_first()
    } else {
        turn(s, state_after(s, trace, k - 1), trace[k - 1])
    }
}

/// The systems that turn `k` of `trace` starts.
pub open spec fn started_in(s: Seq<StageView>, trace: Seq<Seq<usize>>, k: int) -> Set<int> {
    started_by(s, state_after(s, trace, k), trace[k])
}

/// The finished and the running systems are systems, and none is both.
pub open spec fn turned_wf(s: Seq<StageView>, st: Turned) -> bool {
    &&& forall|d: int| st.finished.contains(d) ==> 0 <= d < s.len()
    &&& forall|d: int| st.running.contains(d) ==> 0 <= d < s.len()
    &&& st.finished.disjoint(st.running)
}

/// A turn starts only systems that neither run nor have finished, and a
/// system that runs or has finished before the turn does so after it.
pub proof fn lemma_turn(s: Seq<StageView>, st: Turned, completions: Seq<usize>)
    requires
        s.len() <= MAX_SYSTEMS,
        turned_wf(s, st),
    ensures
        turned_wf(s, turn(s, st, completions)),
        started_by(s, st, completions).subset_of(
            ready(s, finished_after(st, completions), still_running(st.running, completions)),
        ),
        forall|d: int|
            started_by(s, st, completions).contains(d) ==> 0 <= d < s.len()
                && !st.finished.contains(d) && !st.running.contains(d),
        forall|d: int|
            #![trigger turn(s, st, completions).running.contains(d)]
            #![trigger turn(s, st, completions).finished.contains(d)]
            turn(s, st, completions).finished.contains(d) || turn(
                s,
                st,
                completions,
            ).running.contains(d) <==> st.finished.contains(d) || st.running.contains(d)
                || started_by(s, st, completions).contains(d),
{
    let g = compatibility_graph(s);
    let finished = finished_after(st, completions);
    let running = still_running(st.running, completions);
    let pending = ready(s, finished, running);
    let universe = running.union(pending);
    lemma_chosen_within(g, universe);
    assert(started_by(s, st, completions).subset_of(pending));
}

/// After any number of turns the finished and the running systems are
/// systems, and none is both.
pub proof fn lemma_state_wf(s: Seq<StageView>, trace: Seq<Seq<usize>>, k: int)
    requires
        s.len() <= MAX_SYSTEMS,
    ensures
        turned_wf(s, state_after(s, trace, k)),
    decreases k,
{
    if k > 0 {
        lemma_state_wf(s, trace, k - 1);
        lemma_turn(s, state_after(s, trace, k - 1), trace[k - 1]);
    }
}

/// A system that a turn has started runs or has finished after every
/// later turn.
pub proof fn lemma_started_stays(s: Seq<StageView>, trace: Seq<Seq<usize>>, a: int, k: int, d: int)
    requires
        s.len() <= MAX_SYSTEMS,
        0 <= a < k,
        started_in(s, trace, a).contains(d),
    ensures
        state_after(s, trace, k).finished.contains(d) || state_after(s, trace, k).running.contains(
            d,
        ),
    decreases k,
{
    lemma_state_wf(s, trace, k - 1);
    lemma_turn(s, state_after(s, trace, k - 1), trace[k - 1]);
    if a < k - 1 {
        lemma_started_stays(s, trace, a, k - 1, d);
    }
}

/// No system is started twice in a tick: two different turns start
/// different systems.
pub proof fn lemma_started_once(s: Seq<StageView>, trace: Seq<Seq<usize>>, a: int, b: int, d: int)
    requires
        s.len() <= MAX_SYSTEMS,
        0 <= a < b,
        started_in(s, trace, a).contains(d),
    ensures
        !started_in(s, trace, b).contains(d),
{
    lemma_started_stays(s, trace, a, b, d);
    lemma_state_wf(s, trace, b);
    lemma_turn(s, state_after(s, trace, b), trace[b]);
}

/// A system that runs or has finished after `k` turns was started in one
/// of them.
pub proof fn lemma_was_started(s: Seq<StageView>, trace: Seq<Seq<usize>>, k: int, d: int) -> (a: int)
    requires
        s.len() <= MAX_SYSTEMS,
        state_after(s, trace, k).finished.contains(d) || state_after(s, trace, k).running.contains(
            d,
        ),
    ensures
        0 <= a < k,
        started_in(s, trace, a).contains(d),
    decreases k,
{
    if k <= 0 {
        0
    } else {
        lemma_state_wf(s, trace, k - 1);
        lemma_turn(s, state_after(s, trace, k - 1), trace[k - 1]);
        if started_in(s, trace, k - 1).contains(d) {
            k - 1
        } else {
            lemma_was_started(s, trace, k - 1, d)
        }
    }
}

/// Every system is started exactly once in a tick: when all systems have
/// finished after `k` turns, whatever completed in which turn, each system
/// was started in one turn and in no other.
pub proof fn lemma_once_per_tick(s: Seq<StageView>, trace: Seq<Seq<usize>>, k: int, d: int) -> (a:
    int)
    requires
        s.len() <= MAX_SYSTEMS,
        0 <= d < s.len(),
        forall|e: int| 0 <= e < s.len() ==> state_after(s, trace, k).finished.contains(e),
    ensures
        0 <= a < k,
        started_in(s, trace, a).contains(d),
        forall|b: int| 0 <= b && b != a ==> !started_in(s, trace, b).contains(d),
{
    let a = lemma_was_started(s, trace, k, d);
    assert forall|b: int| 0 <= b && b != a implies !started_in(s, trace, b).contains(d) by {
        if b < a {
            if started_in(s, trace, b).contains(d) {
                lemma_started_once(s, trace, b, a, d);
            }
        } else {
            lemma_started_once(s, trace, a, b, d);
        }
    }
    a
}

/// Two systems that conflict and are all the systems there are never run
/// side by side: the second one runs only when the first has finished.
pub proof fn lemma_two_apart(s: Seq<StageView>, trace: Seq<Seq<usize>>, k: int)
    requires
        s.len() == 2,
        stages_wf(s),
        !compatible(s, 0, 1),
    ensures
        state_after(s, trace, k).running.contains(1) ==> state_after(s, trace, k).finished.contains(
            0,
        ),
        !(state_after(s, trace, k).running.contains(0) && state_after(s, trace, k).running.contains(
            1,
        )),
    decreases k,
{
    lemma_state_wf(s, trace, k);
    if k > 0 {
        let st = state_after(s, trace, k - 1);
        let completions = trace[k - 1];
        lemma_two_apart(s, trace, k - 1);
        lemma_state_wf(s, trace, k - 1);
        lemma_turn(s, st, completions);
        let g = compatibility_graph(s);
        let finished = finished_after(st, completions);
        let running = still_running(st.running, completions);
        let pending = ready(s, finished, running);
        let universe = running.union(pending);
        let started = started_by(s, st, completions);
        if started.contains(1) && !finished.contains(0) {
            // System 0 waits for nothing, so it runs or is pending: the
            // universe holds both systems, and the clique chosen for it
            // holds the first of them.
            lemma_owed_absent(s, finished, 0, 2);
            assert(universe.contains(0));
            assert(universe.contains(1));
            lemma_graph_wf(s);
            lemma_chosen_within(g, universe);
            let chosen = chosen_clique(g, universe);
            assert(crate::maximal::is_clique(g, Set::<int>::empty()));
            lemma_chosen_maximum(g, universe, Set::<int>::empty());
            assert(chosen.contains(1));
            assert(!neighbours(g, 1).contains(0));
            assert(!chosen.contains(0));
            let only = Set::<int>::empty().insert(0);
            let other = Set::<int>::empty().insert(1);
            assert(chosen =~= other);
            assert(is_maximal(g, universe, only)) by {
                assert(!neighbours(g, 0).contains(1));
            }
            lemma_chosen_preferred(g, universe, only);
            lemma_lowest(only, 0);
            lemma_lowest(other, 1);
            assert(first_slot(only) == 0);
            assert(first_slot(other) == 1);
            assert(only.len() == 1 && other.len() == 1);
            assert(false);
        }
    }
}

} // verus!
