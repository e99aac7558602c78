//! What the clique search finds: exactly the maximal cliques of the
//! universe, so that the clique the dispatcher chooses is a maximum clique.

use crate::clique::{
    best, branches, chosen_clique, lemma_best, lemma_branches_unfold, lemma_search_unfold, lowest,
    neighbours, preferred, search, slots,
};
use crate::system_set::{lemma_slots_finite, MAX_SYSTEMS};
use vstd::prelude::*;
use vstd::set_lib::lemma_len_subset;

verus! {

/// The graph has at most `MAX_SYSTEMS` vertices, its edges lead to vertices,
/// and it is symmetric.
pub open spec fn graph_wf(g: Seq<Set<int>>) -> bool {
    &&& g.len() <= MAX_SYSTEMS
    &&& forall|a: int, b: int| 0 <= a < g.len() && #[trigger] g[a].contains(b) ==> 0 <= b < g.len()
    &&& forall|a: int, b: int|
        0 <= a < g.len() && 0 <= b < g.len() ==> (#[trigger] g[a].contains(b) <==> g[b].contains(a))
}

/// Every member of the set is a vertex of the graph.
pub open spec fn within(g: Seq<Set<int>>, s: Set<int>) -> bool {
    forall|i: int| s.contains(i) ==> 0 <= i < g.len()
}

/// Any two different members of `c` are neighbours.
pub open spec fn is_clique(g: Seq<Set<int>>, c: Set<int>) -> bool {
    forall|a: int, b: int|
        c.contains(a) && c.contains(b) && a != b ==> #[trigger] neighbours(g, a).contains(b)
}

/// `w` is a neighbour of every member of `c`.
pub open spec fn joins(g: Seq<Set<int>>, c: Set<int>, w: int) -> bool {
    forall|a: int| c.contains(a) ==> #[trigger] neighbours(g, a).contains(w)
}

/// `c` is a clique of `universe` that no member of `universe` can be added to.
pub open spec fn is_maximal(g: Seq<Set<int>>, universe: Set<int>, c: Set<int>) -> bool {
    &&& c.subset_of(universe)
    &&& is_clique(g, c)
    &&& forall|w: int| universe.contains(w) && !c.contains(w) ==> !joins(g, c, w)
}

/// The state of the search is sound: `p` and `x` share no member and lie,
/// with `r`, in the universe; `r` is a clique; and the members of `p` and `x`
/// are exactly the members of the universe that join `r`.
pub open spec fn search_wf(
    g: Seq<Set<int>>,
    universe: Set<int>,
    r: Set<int>,
    p: Set<int>,
    x: Set<int>,
) -> bool {
    &&& graph_wf(g)
    &&& within(g, universe)
    &&& r.subset_of(universe)
    &&& p.subset_of(universe)
    &&& x.subset_of(universe)
    &&& is_clique(g, r)
    &&& forall|w: int| universe.contains(w) ==> (joins(g, r, w) <==> p.contains(w) || x.contains(w))
}

/// In a symmetric graph, being a neighbour is mutual.
pub proof fn lemma_symmetric(g: Seq<Set<int>>, a: int, b: int)
    requires
        graph_wf(g),
        neighbours(g, a).contains(b),
    ensures
        neighbours(g, b).contains(a),
        0 <= a < g.len(),
        0 <= b < g.len(),
        a != b,
{
    assert(g[a].contains(b));
}

/// The branch on `v` starts from a sound state again.
pub proof fn lemma_branch_wf(
    g: Seq<Set<int>>,
    universe: Set<int>,
    r: Set<int>,
    p: Set<int>,
    x: Set<int>,
    v: int,
)
    requires
        search_wf(g, universe, r, p, x),
        p.contains(v),
    ensures
        search_wf(
            g,
            universe,
            r.insert(v),
            p.intersect(neighbours(g, v)),
            x.intersect(neighbours(g, v)),
        ),
        search_wf(g, universe, r, p.remove(v), x.insert(v)),
{
    let r1 = r.insert(v);
    let nv = neighbours(g, v);
    assert(joins(g, r, v));
    assert forall|a: int, b: int| r1.contains(a) && r1.contains(b)
        && a != b implies #[trigger] neighbours(
        g,
        a,
    ).contains(b) by {
        if a == v {
            assert(neighbours(g, b).contains(v));
            lemma_symmetric(g, b, v);
        }
    }
    assert forall|w: int| universe.contains(w) implies (joins(g, r1, w) <==> p.intersect(
        nv,
    ).contains(w) || x.intersect(nv).contains(w)) by {
        if joins(g, r1, w) {
            assert(neighbours(g, v).contains(w));
            assert forall|a: int| r.contains(a) implies #[trigger] neighbours(g, a).contains(
                w,
            ) by {
                assert(r1.contains(a));
            }
            assert(joins(g, r, w));
        }
        if p.intersect(nv).contains(w) || x.intersect(nv).contains(w) {
            assert(joins(g, r, w));
        }
    }
    assert forall|w: int| universe.contains(w) implies (joins(g, r, w) <==> p.remove(v).contains(
        w,
    ) || x.insert(v).contains(w)) by {}
}

/// Every set that the search emits from a sound state is a maximal clique
/// of the universe.
pub proof fn lemma_search_maximal(
    g: Seq<Set<int>>,
    universe: Set<int>,
    r: Set<int>,
    p: Set<int>,
    x: Set<int>,
)
    requires
        search_wf(g, universe, r, p, x),
        slots(p),
    ensures
        forall|k: int|
            0 <= k < search(g, r, p, x).len() ==> is_maximal(
                g,
                universe,
                #[trigger] search(g, r, p, x)[k],
            ),
    decreases p.len(), 1int, 0int,
{
    lemma_search_unfold(g, r, p, x);
    if p.union(x) =~= Set::<int>::empty() {
        assert forall|w: int| universe.contains(w) && !r.contains(w) implies !joins(g, r, w) by {
            assert(!p.union(x).contains(w));
        }
        assert(is_maximal(g, universe, seq![r][0]));
    } else {
        lemma_branches_maximal(g, universe, r, p, x, lowest(p.union(x)), 0);
    }
}

/// Every set that the branches emit from a sound state is a maximal clique
/// of the universe.
pub proof fn lemma_branches_maximal(
    g: Seq<Set<int>>,
    universe: Set<int>,
    r: Set<int>,
    p: Set<int>,
    x: Set<int>,
    u: int,
    v: int,
)
    requires
        search_wf(g, universe, r, p, x),
        slots(p),
        0 <= v,
    ensures
        forall|k: int|
            0 <= k < branches(g, r, p, x, u, v).len() ==> is_maximal(
                g,
                universe,
                #[trigger] branches(g, r, p, x, u, v)[k],
            ),
    decreases p.len(), 0int, MAX_SYSTEMS - v,
{
    lemma_branches_unfold(g, r, p, x, u, v);
    if v >= MAX_SYSTEMS {
    } else if p.contains(v) && !neighbours(g, u).contains(v) {
        let p_next = p.intersect(neighbours(g, v));
        let x1 = x.intersect(neighbours(g, v));
        lemma_slots_finite(p);
        lemma_slots_finite(p.remove(v));
        lemma_slots_finite(p_next);
        lemma_len_subset(p_next, p.remove(v));
        lemma_branch_wf(g, universe, r, p, x, v);
        lemma_search_maximal(g, universe, r.insert(v), p_next, x1);
        lemma_branches_maximal(g, universe, r, p.remove(v), x.insert(v), u, v + 1);
        let a = search(g, r.insert(v), p_next, x1);
        let b = branches(g, r, p.remove(v), x.insert(v), u, v + 1);
        assert forall|k: int| 0 <= k < (a + b).len() implies is_maximal(
            g,
            universe,
            #[trigger] (a + b)[k],
        ) by {
            if k < a.len() {
                assert((a + b)[k] == a[k]);
            } else {
                assert((a + b)[k] == b[k - a.len()]);
            }
        }
    } else {
        lemma_branches_maximal(g, universe, r, p, x, u, v + 1);
    }
}

/// The search emits, from a sound state, every maximal clique of the
/// universe that holds `r` and lies in `r` and `p`.
pub proof fn lemma_search_complete(
    g: Seq<Set<int>>,
    universe: Set<int>,
    r: Set<int>,
    p: Set<int>,
    x: Set<int>,
    m: Set<int>,
)
    requires
        search_wf(g, universe, r, p, x),
        slots(p),
        is_maximal(g, universe, m),
        r.subset_of(m),
        m.subset_of(r.union(p)),
    ensures
        search(g, r, p, x).contains(m),
    decreases p.len(), 1int, 0int,
{
    lemma_search_unfold(g, r, p, x);
    if p.union(x) =~= Set::<int>::empty() {
        assert(m =~= r) by {
            assert forall|w: int| m.contains(w) implies r.contains(w) by {
                assert(r.union(p).contains(w));
                assert(!p.union(x).contains(w));
            }
        }
        assert(seq![r][0] == m);
    } else {
        let u = lowest(p.union(x));
        let w0 = choose|w: int| p.union(x).contains(w);
        assert(p.union(x).contains(w0));
        lemma_lowest_member(p.union(x), w0);
        // The pivot joins `r`. If every member of `m` outside `r` were a
        // neighbour of the pivot, the pivot could be added to `m`.
        assert(universe.contains(u));
        assert(joins(g, r, u));
        if forall|w: int| m.contains(w) && p.contains(w) ==> neighbours(g, u).contains(w) {
            assert(!m.contains(u)) by {
                if m.contains(u) {
                    if r.contains(u) {
                        assert(neighbours(g, u).contains(u));
                    } else {
                        assert(r.union(p).contains(u));
                        assert(neighbours(g, u).contains(u));
                    }
                }
            }
            assert forall|a: int| m.contains(a) implies #[trigger] neighbours(g, a).contains(
                u,
            ) by {
                if r.contains(a) {
                } else {
                    assert(r.union(p).contains(a));
                    assert(neighbours(g, u).contains(a));
                    lemma_symmetric(g, u, a);
                }
            }
            assert(joins(g, m, u));
            assert(false);
        }
        let w = choose|w: int| m.contains(w) && p.contains(w) && !neighbours(g, u).contains(w);
        lemma_branches_complete(g, universe, r, p, x, u, 0, m, w);
    }
}

/// The least member of a set of slots that has a member is a member.
pub proof fn lemma_lowest_member(s: Set<int>, w: int)
    requires
        s.contains(w),
        forall|i: int| s.contains(i) ==> 0 <= i,
    ensures
        s.contains(lowest(s)),
    decreases w,
{
    if exists|j: int| 0 <= j < w && s.contains(j) {
        let j = choose|j: int| 0 <= j < w && s.contains(j);
        lemma_lowest_member(s, j);
    } else {
        assert(s.contains(w) && forall|j: int| 0 <= j < w ==> !s.contains(j));
    }
}

/// The branches from slot `v` on emit, from a sound state, every maximal
/// clique of the universe that holds `r`, lies in `r` and `p`, and has a
/// candidate `w` at slot `v` or above.
pub proof fn lemma_branches_complete(
    g: Seq<Set<int>>,
    universe: Set<int>,
    r: Set<int>,
    p: Set<int>,
    x: Set<int>,
    u: int,
    v: int,
    m: Set<int>,
    w: int,
)
    requires
        search_wf(g, universe, r, p, x),
        slots(p),
        0 <= v,
        is_maximal(g, universe, m),
        r.subset_of(m),
        m.subset_of(r.union(p)),
        v <= w,
        m.contains(w),
        p.contains(w),
        !neighbours(g, u).contains(w),
    ensures
        branches(g, r, p, x, u, v).contains(m),
    decreases p.len(), 0int, MAX_SYSTEMS - v,
{
    lemma_branches_unfold(g, r, p, x, u, v);
    assert(v < MAX_SYSTEMS);
    if p.contains(v) && !neighbours(g, u).contains(v) {
        let nv = neighbours(g, v);
        let p_next = p.intersect(nv);
        let x1 = x.intersect(nv);
        let a = search(g, r.insert(v), p_next, x1);
        let b = branches(g, r, p.remove(v), x.insert(v), u, v + 1);
        lemma_slots_finite(p);
        lemma_slots_finite(p.remove(v));
        lemma_slots_finite(p_next);
        lemma_len_subset(p_next, p.remove(v));
        lemma_branch_wf(g, universe, r, p, x, v);
        if m.contains(v) {
            assert forall|c: int| m.contains(c) implies r.insert(v).union(p_next).contains(c) by {
                if c != v && !r.contains(c) {
                    assert(r.union(p).contains(c));
                    assert(neighbours(g, v).contains(c));
                }
            }
            lemma_search_complete(g, universe, r.insert(v), p_next, x1, m);
            let k = choose|k: int| 0 <= k < a.len() && a[k] == m;
            assert((a + b)[k] == m);
        } else {
            assert forall|c: int| m.contains(c) implies r.union(p.remove(v)).contains(c) by {
                assert(r.union(p).contains(c));
            }
            lemma_branches_complete(g, universe, r, p.remove(v), x.insert(v), u, v + 1, m, w);
            let k = choose|k: int| 0 <= k < b.len() && b[k] == m;
            assert((a + b)[a.len() + k] == m);
        }
    } else {
        lemma_branches_complete(g, universe, r, p, x, u, v + 1, m, w);
    }
}

/// Every clique of the universe lies in a maximal clique of the universe.
pub proof fn lemma_extend(g: Seq<Set<int>>, universe: Set<int>, c: Set<int>) -> (m: Set<int>)
    requires
        graph_wf(g),
        within(g, universe),
        c.subset_of(universe),
        is_clique(g, c),
    ensures
        is_maximal(g, universe, m),
        c.subset_of(m),
    decreases universe.difference(c).len(),
{
    if exists|w: int| universe.contains(w) && !c.contains(w) && joins(g, c, w) {
        let w = choose|w: int| universe.contains(w) && !c.contains(w) && joins(g, c, w);
        let c1 = c.insert(w);
        assert forall|a: int, b: int| c1.contains(a) && c1.contains(b)
            && a != b implies #[trigger] neighbours(
            g,
            a,
        ).contains(b) by {
            if a == w {
                assert(neighbours(g, b).contains(w));
                lemma_symmetric(g, b, w);
            }
        }
        assert forall|i: int| universe.contains(i) implies 0 <= i < MAX_SYSTEMS by {}
        lemma_slots_finite(universe.difference(c));
        assert(universe.difference(c1) =~= universe.difference(c).remove(w));
        lemma_extend(g, universe, c1)
    } else {
        c
    }
}

/// The clique chosen for a universe is a maximum clique of it: a maximal
/// clique of the universe, and no clique of the universe has more members.
pub proof fn lemma_chosen_maximum(g: Seq<Set<int>>, universe: Set<int>, c: Set<int>)
    requires
        graph_wf(g),
        within(g, universe),
        c.subset_of(universe),
        is_clique(g, c),
    ensures
        is_maximal(g, universe, chosen_clique(g, universe)),
        c.len() <= chosen_clique(g, universe).len(),
{
    let none = Set::<int>::empty();
    let cs = search(g, none, universe, none);
    assert(search_wf(g, universe, none, universe, none));
    assert(slots(universe));
    lemma_search_maximal(g, universe, none, universe, none);
    let m = lemma_extend(g, universe, c);
    assert(m.subset_of(none.union(universe)));
    lemma_search_complete(g, universe, none, universe, none, m);
    let k = choose|k: int| 0 <= k < cs.len() && cs[k] == m;
    lemma_best(cs, cs.len() as int);
    let chosen = cs[best(cs, cs.len() as int)];
    assert(cs[k].len() <= chosen.len());
    lemma_slots_finite(m);
    lemma_len_subset(c, m);
}

/// No maximal clique of the universe is preferred to the chosen clique:
/// none has more members, and none as many and a lower least member.
pub proof fn lemma_chosen_preferred(g: Seq<Set<int>>, universe: Set<int>, m: Set<int>)
    requires
        graph_wf(g),
        within(g, universe),
        is_maximal(g, universe, m),
    ensures
        !preferred(m, chosen_clique(g, universe)),
{
    let none = Set::<int>::empty();
    let cs = search(g, none, universe, none);
    assert(search_wf(g, universe, none, universe, none));
    assert(slots(universe));
    assert(m.subset_of(none.union(universe)));
    lemma_search_complete(g, universe, none, universe, none, m);
    let k = choose|k: int| 0 <= k < cs.len() && cs[k] == m;
    lemma_best(cs, cs.len() as int);
    assert(!preferred(cs[k], cs[best(cs, cs.len() as int)]));
}

} // verus!
