//! Maximal cliques of the compatibility graph: Bron-Kerbosch with pivot.

use crate::system_set::{lemma_slots_finite, lists, SystemSet, MAX_SYSTEMS};
use vstd::prelude::*;
use vstd::set_lib::lemma_len_subset;

verus! {

/// Every member of the set is a system slot.
pub open spec fn slots(s: Set<int>) -> bool {
    forall|i: int| s.contains(i) ==> 0 <= i < MAX_SYSTEMS
}

/// The least member of a set of slots.
pub open spec fn lowest(s: Set<int>) -> int {
    choose|k: int| s.contains(k) && forall|j: int| 0 <= j < k ==> !s.contains(j)
}

/// The systems that `u` is compatible with, `u` itself left out. `g` holds
/// for each system the set of the systems it is compatible with.
pub open spec fn neighbours(g: Seq<Set<int>>, u: int) -> Set<int> {
    if 0 <= u < g.len() {
        g[u].remove(u)
    } else {
        Set::empty()
    }
}

/// What the search emits on `(r, p, x)`, in the order in which it emits it:
/// `r` itself where neither `p` nor `x` has a member; else, with the least
/// member of `p` and `x` as the pivot, what the branches emit.
#[verifier::opaque]
pub open spec fn search(g: Seq<Set<int>>, r: Set<int>, p: Set<int>, x: Set<int>) -> Seq<Set<int>>
    decreases p.len(), 1int, 0int,
    when slots(p)
{
    if p.union(x) =~= Set::<int>::empty() {
        seq![r]
    } else {
        branches(g, r, p, x, lowest(p.union(x)), 0)
    }
}

/// What the branches on the candidates from slot `v` up emit. A candidate is
/// a member of `p` that is no neighbour of the pivot `u`. The branch on `v`
/// searches `(r + v, p & N(v), x & N(v))`; after it `v` moves from `p` to `x`.
#[verifier::opaque]
pub open spec fn branches(
    g: Seq<Set<int>>,
    r: Set<int>,
    p: Set<int>,
    x: Set<int>,
    u: int,
    v: int,
) -> Seq<Set<int>>
    decreases p.len(), 0int, MAX_SYSTEMS - v,
    when slots(p) && 0 <= v
{
    if v >= MAX_SYSTEMS {
        Seq::empty()
    } else if p.contains(v) && !neighbours(g, u).contains(v) {
        proof {
            lemma_slots_finite(p);
            lemma_slots_finite(p.remove(v));
            lemma_slots_finite(p.intersect(neighbours(g, v)));
            lemma_len_subset(p.intersect(neighbours(g, v)), p.remove(v));
        }
        search(g, r.insert(v), p.intersect(neighbours(g, v)), x.intersect(neighbours(g, v)))
            + branches(g, r, p.remove(v), x.insert(v), u, v + 1)
    } else {
        branches(g, r, p, x, u, v + 1)
    }
}

/// The search, one step unfolded.
pub proof fn lemma_search_unfold(g: Seq<Set<int>>, r: Set<int>, p: Set<int>, x: Set<int>)
    requires
        slots(p),
    ensures
        search(g, r, p, x) == if p.union(x) =~= Set::<int>::empty() {
            seq![r]
        } else {
            branches(g, r, p, x, lowest(p.union(x)), 0)
        },
{
    reveal(search);
    reveal(branches);
}

/// The branches, one step unfolded.
pub proof fn lemma_branches_unfold(
    g: Seq<Set<int>>,
    r: Set<int>,
    p: Set<int>,
    x: Set<int>,
    u: int,
    v: int,
)
    requires
        slots(p),
        0 <= v,
    ensures
        branches(g, r, p, x, u, v) == if v >= MAX_SYSTEMS {
            Seq::<Set<int>>::empty()
        } else if p.contains(v) && !neighbours(g, u).contains(v) {
            search(g, r.insert(v), p.intersect(neighbours(g, v)), x.intersect(neighbours(g, v)))
                + branches(g, r, p.remove(v), x.insert(v), u, v + 1)
        } else {
            branches(g, r, p, x, u, v + 1)
        },
{
    reveal(search);
    reveal(branches);
}

/// The sets that a sequence of `SystemSet`s stands for.
pub open spec fn views(v: Seq<SystemSet>) -> Seq<Set<int>> {
    v.map_values(|s: SystemSet| s@)
}

/// A member of a set of slots below which the set has no member is its least.
pub proof fn lemma_lowest(s: Set<int>, k: int)
    requires
        slots(s),
        s.contains(k),
        forall|j: int| 0 <= j < k ==> !s.contains(j),
    ensures
        lowest(s) == k,
{
    let l = lowest(s);
    assert(s.contains(l) && forall|j: int| 0 <= j < l ==> !s.contains(j));
    if l < k {
        assert(!s.contains(l));
    }
}

/// The branches pass over slots that hold no candidate.
pub proof fn lemma_branches_skip(
    g: Seq<Set<int>>,
    r: Set<int>,
    p: Set<int>,
    x: Set<int>,
    u: int,
    v: int,
    w: int,
)
    requires
        slots(p),
        0 <= v <= w <= MAX_SYSTEMS,
        forall|i: int| v <= i < w ==> !(p.contains(i) && !neighbours(g, u).contains(i)),
    ensures
        branches(g, r, p, x, u, v) == branches(g, r, p, x, u, w),
    decreases w - v,
{
    if v < w {
        lemma_branches_unfold(g, r, p, x, u, v);
        lemma_branches_skip(g, r, p, x, u, v + 1, w);
    }
}

/// The slot at which the branches stand before candidate `k` of `vs`.
pub open spec fn frontier(vs: Seq<usize>, k: int) -> int {
    if k < vs.len() {
        vs[k] as int
    } else {
        MAX_SYSTEMS as int
    }
}

/// The listed members below the frontier before candidate `k` are the first
/// `k` candidates, so none lies between one candidate and the next.
pub proof fn lemma_frontier(vs: Seq<usize>, cand: Set<int>, k: int)
    requires
        slots(cand),
        lists(vs, cand),
        0 <= k <= vs.len(),
    ensures
        forall|i: int| cand.contains(i) && i < frontier(vs, k) ==> k > 0 && i <= vs[k - 1],
        k > 0 ==> vs[k - 1] < frontier(vs, k),
{
    assert forall|i: int| cand.contains(i) && i < frontier(vs, k) implies k > 0 && i <= vs[k
        - 1] by {
        let j = choose|j: int| 0 <= j < vs.len() && vs[j] == i;
        if j >= k {
            if j > k {
                assert(vs[k] < vs[j]);
            }
            assert(false);
        }
        if j < k - 1 {
            assert(vs[j] < vs[k - 1]);
        }
    }
    if k > 0 {
        assert(cand.contains(vs[k - 1] as int));
        if k < vs.len() {
            assert(vs[k - 1] < vs[k]);
        }
    }
}

/// What is left of `p` once the candidates below slot `d` have left it.
pub open spec fn left(p: Set<int>, cand: Set<int>, d: int) -> Set<int> {
    Set::new(|i: int| p.contains(i) && !(cand.contains(i) && i < d))
}

/// What `x` holds once the candidates below slot `d` have joined it.
pub open spec fn joined(x: Set<int>, cand: Set<int>, d: int) -> Set<int> {
    Set::new(|i: int| x.contains(i) || (cand.contains(i) && i < d))
}

/// Before the first candidate nothing has moved, and the branches from slot 0
/// are the branches from the first candidate.
pub proof fn lemma_branches_start(
    g: Seq<Set<int>>,
    r: Set<int>,
    p: Set<int>,
    x: Set<int>,
    u: int,
    vs: Seq<usize>,
)
    requires
        slots(p),
        lists(vs, p.difference(neighbours(g, u))),
    ensures
        left(p, p.difference(neighbours(g, u)), frontier(vs, 0)) == p,
        joined(x, p.difference(neighbours(g, u)), frontier(vs, 0)) == x,
        branches(g, r, p, x, u, 0) == branches(g, r, p, x, u, frontier(vs, 0)),
{
    let cand = p.difference(neighbours(g, u));
    lemma_frontier(vs, cand, 0);
    assert(left(p, cand, frontier(vs, 0)) =~= p);
    assert(joined(x, cand, frontier(vs, 0)) =~= x);
    lemma_branches_skip(g, r, p, x, u, 0, frontier(vs, 0));
}

/// The branch on candidate `k`: it searches below the candidate, the
/// candidate moves from `p` to `x`, and the branches go on from the next one.
pub proof fn lemma_branches_step(
    g: Seq<Set<int>>,
    r: Set<int>,
    p: Set<int>,
    x: Set<int>,
    u: int,
    vs: Seq<usize>,
    k: int,
)
    requires
        slots(p),
        lists(vs, p.difference(neighbours(g, u))),
        0 <= k < vs.len(),
    ensures
        ({
            let cand = p.difference(neighbours(g, u));
            let v = vs[k] as int;
            let pk = left(p, cand, frontier(vs, k));
            let xk = joined(x, cand, frontier(vs, k));
            let pn = left(p, cand, frontier(vs, k + 1));
            let xn = joined(x, cand, frontier(vs, k + 1));
            &&& 0 <= v < MAX_SYSTEMS
            &&& p.contains(v)
            &&& pk.contains(v)
            &&& slots(pk)
            &&& pn == pk.remove(v)
            &&& xn == xk.insert(v)
            &&& branches(g, r, pk, xk, u, frontier(vs, k)) == search(
                g,
                r.insert(v),
                pk.intersect(neighbours(g, v)),
                xk.intersect(neighbours(g, v)),
            ) + branches(g, r, pn, xn, u, frontier(vs, k + 1))
        }),
{
    let cand = p.difference(neighbours(g, u));
    let v = vs[k] as int;
    let pk = left(p, cand, frontier(vs, k));
    let xk = joined(x, cand, frontier(vs, k));
    let pn = left(p, cand, frontier(vs, k + 1));
    let xn = joined(x, cand, frontier(vs, k + 1));
    lemma_frontier(vs, cand, k);
    lemma_frontier(vs, cand, k + 1);
    assert(cand.contains(v));
    assert(pn =~= pk.remove(v));
    assert(xn =~= xk.insert(v));
    lemma_branches_unfold(g, r, pk, xk, u, v);
    lemma_branches_skip(g, r, pn, xn, u, v + 1, frontier(vs, k + 1));
}

/// Helper function that performs the Bron-Kerbosch algorithm: appends to
/// `out` the sets that the search on `(r, p, x)` emits, in its order.
/// `compatibility` holds one set per system, so every member of `p` and `x`
/// has to be the index of one.
pub fn bron_kerbosch(
    r: SystemSet,
    p: SystemSet,
    x: SystemSet,
    compatibility: &[SystemSet],
    out: &mut Vec<SystemSet>,
)
    requires
        forall|i: int| p@.contains(i) || x@.contains(i) ==> i < compatibility@.len(),
    ensures
        views(final(out)@) == views(old(out)@) + search(views(compatibility@), r@, p@, x@),
    decreases p@.len(),
{
    let ghost g = views(compatibility@);
    let ghost before = views(out@);
    let ghost p_first = p@;
    let ghost x0 = x@;
    if p.not_any() && x.not_any() {
        out.push(r);
        proof {
            lemma_search_unfold(g, r@, p_first, x0);
            assert(p_first.union(x0) =~= Set::<int>::empty());
            assert(views(out@) =~= before + seq![r@]);
        }
        return ;
    }
    let px = p.union(&x);
    proof {
        let w = choose|i: int| p_first.contains(i) || x0.contains(i);
        assert(px@.contains(w));
    }
    let pivot = px.first_one().unwrap();
    let ghost u = pivot as int;
    proof {
        assert(!(p_first.union(x0) =~= Set::<int>::empty()));
        lemma_lowest(p_first.union(x0), u);
        lemma_search_unfold(g, r@, p_first, x0);
    }
    let mut nh_pivot = compatibility[pivot].copy();
    nh_pivot.put(pivot, false);
    assert(nh_pivot@ == neighbours(g, u));
    let candidates = p.difference(&nh_pivot);
    let ghost cand = p_first.difference(neighbours(g, u));
    let vs = candidates.ones();
    let mut rest_p = p.copy();
    let mut seen_x = x.copy();
    let mut k: usize = 0;
    proof {
        lemma_branches_start(g, r@, p_first, x0, u, vs@);
    }
    while k < vs.len()
        invariant
            k <= vs.len(),
            g == views(compatibility@),
            cand == p_first.difference(neighbours(g, u)),
            lists(vs@, cand),
            p_first == p@,
            x0 == x@,
            forall|i: int| p_first.contains(i) || x0.contains(i) ==> i < g.len(),
            rest_p@ == left(p_first, cand, frontier(vs@, k as int)),
            seen_x@ == joined(x0, cand, frontier(vs@, k as int)),
            before + search(g, r@, p_first, x0) == views(out@) + branches(
                g,
                r@,
                rest_p@,
                seen_x@,
                u,
                frontier(vs@, k as int),
            ),
        decreases vs.len() - k,
    {
        let v = vs[k];
        let ghost pk = rest_p@;
        let ghost xk = seen_x@;
        let ghost outk = views(out@);
        proof {
            lemma_branches_step(g, r@, p_first, x0, u, vs@, k as int);
        }
        let mut nh_v = compatibility[v].copy();
        nh_v.put(v, false);
        assert(nh_v@ == neighbours(g, v as int));
        let mut new_r = r.copy();
        new_r.put(v, true);
        let new_p = rest_p.intersection(&nh_v);
        let new_x = seen_x.intersection(&nh_v);
        proof {
            lemma_slots_finite(p_first);
            lemma_slots_finite(new_p@);
            lemma_slots_finite(p_first.remove(v as int));
            assert(p_first.contains(v as int));
            assert(new_p@.subset_of(p_first.remove(v as int)));
            lemma_len_subset(new_p@, p_first.remove(v as int));
            assert(p_first.remove(v as int).len() == p_first.len() - 1);
            assert(new_p@.len() < p@.len());
        }
        bron_kerbosch(new_r, new_p, new_x, compatibility, out);
        rest_p.put(v, false);
        seen_x.put(v, true);
        k += 1;
        proof {
            let rest = branches(g, r@, rest_p@, seen_x@, u, frontier(vs@, k as int));
            let found = search(g, new_r@, new_p@, new_x@);
            assert(views(out@) + rest =~= outk + (found + rest));
        }
    }
    proof {
        lemma_branches_unfold(g, r@, rest_p@, seen_x@, u, frontier(vs@, k as int));
        assert(branches(g, r@, rest_p@, seen_x@, u, frontier(vs@, k as int)) =~= Seq::<Set<int>>::empty());
        assert(views(out@) + Seq::<Set<int>>::empty() =~= views(out@));
    }
}

/// Every set of `cs` holds `r` and nothing outside `r` and `p`.
pub open spec fn all_between(cs: Seq<Set<int>>, r: Set<int>, p: Set<int>) -> bool {
    forall|k: int|
        0 <= k < cs.len() ==> r.subset_of(#[trigger] cs[k]) && cs[k].subset_of(r.union(p))
}

/// What the search emits on `(r, p, x)` holds `r` and is held in `r` and `p`.
pub proof fn lemma_search_between(g: Seq<Set<int>>, r: Set<int>, p: Set<int>, x: Set<int>)
    requires
        slots(p),
    ensures
        all_between(search(g, r, p, x), r, p),
    decreases p.len(), 1int, 0int,
{
    lemma_search_unfold(g, r, p, x);
    if !(p.union(x) =~= Set::<int>::empty()) {
        lemma_branches_between(g, r, p, x, lowest(p.union(x)), 0);
    }
}

/// What the branches emit holds `r` and is held in `r` and `p`.
pub proof fn lemma_branches_between(
    g: Seq<Set<int>>,
    r: Set<int>,
    p: Set<int>,
    x: Set<int>,
    u: int,
    v: int,
)
    requires
        slots(p),
        0 <= v,
    ensures
        all_between(branches(g, r, p, x, u, v), r, p),
    decreases p.len(), 0int, MAX_SYSTEMS - v,
{
    lemma_branches_unfold(g, r, p, x, u, v);
    if v >= MAX_SYSTEMS {
    } else if p.contains(v) && !neighbours(g, u).contains(v) {
        let p_next = p.intersect(neighbours(g, v));
        let x1 = x.intersect(neighbours(g, v));
        lemma_slots_finite(p);
        lemma_slots_finite(p.remove(v));
        lemma_slots_finite(p_next);
        lemma_len_subset(p_next, p.remove(v));
        lemma_search_between(g, r.insert(v), p_next, x1);
        lemma_branches_between(g, r, p.remove(v), x.insert(v), u, v + 1);
        let a = search(g, r.insert(v), p_next, x1);
        let b = branches(g, r, p.remove(v), x.insert(v), u, v + 1);
        assert forall|k: int| 0 <= k < (a + b).len() implies r.subset_of(#[trigger] (a + b)[k])
            && (a + b)[k].subset_of(r.union(p)) by {
            if k < a.len() {
                assert((a + b)[k] == a[k]);
                assert(r.insert(v).subset_of(a[k]) && a[k].subset_of(r.insert(v).union(p_next)));
            } else {
                assert((a + b)[k] == b[k - a.len()]);
                assert(r.subset_of(b[k - a.len()]) && b[k - a.len()].subset_of(
                    r.union(p.remove(v)),
                ));
            }
        }
    } else {
        lemma_branches_between(g, r, p, x, u, v + 1);
    }
}

/// The least member of a set of slots; `MAX_SYSTEMS` where it has none.
pub open spec fn first_slot(s: Set<int>) -> int {
    if s =~= Set::<int>::empty() {
        MAX_SYSTEMS as int
    } else {
        lowest(s)
    }
}

/// Set `c` is preferred to set `b`: it has more members, or as many and a
/// lower least member.
pub open spec fn preferred(c: Set<int>, b: Set<int>) -> bool {
    c.len() > b.len() || (c.len() == b.len() && first_slot(c) < first_slot(b))
}

/// The index of the best set among the first `n` sets of `cs`: the set of
/// largest cardinality; of several, the one with the lowest least member; of
/// several again, the first.
pub open spec fn best(cs: Seq<Set<int>>, n: int) -> int
    decreases n,
{
    if n <= 1 {
        0
    } else {
        let b = best(cs, n - 1);
        if preferred(cs[n - 1], cs[b]) {
            n - 1
        } else {
            b
        }
    }
}

/// The best set of `cs`; the empty set where `cs` holds none.
pub open spec fn largest(cs: Seq<Set<int>>) -> Set<int> {
    if cs.len() == 0 {
        Set::empty()
    } else {
        cs[best(cs, cs.len() as int)]
    }
}

/// No set among the first `n` has more members than the best or is
/// preferred to it, and the best is preferred to every set before it.
pub proof fn lemma_best(cs: Seq<Set<int>>, n: int)
    requires
        1 <= n <= cs.len(),
    ensures
        0 <= best(cs, n) < n,
        forall|i: int| 0 <= i < n ==> (#[trigger] cs[i]).len() <= cs[best(cs, n)].len(),
        forall|i: int| 0 <= i < n ==> !preferred(#[trigger] cs[i], cs[best(cs, n)]),
        forall|i: int| 0 <= i < best(cs, n) ==> preferred(cs[best(cs, n)], #[trigger] cs[i]),
    decreases n,
{
    if n > 1 {
        lemma_best(cs, n - 1);
        let b = best(cs, n - 1);
        if preferred(cs[n - 1], cs[b]) {
            assert forall|i: int| 0 <= i < n - 1 implies preferred(cs[n - 1], #[trigger] cs[i]) by {
                assert(!preferred(cs[i], cs[b]));
            }
        }
    }
}

/// The clique that the dispatcher runs out of `universe`: the best of the
/// maximal cliques that the search emits on `(none, universe, none)`, which
/// is one of largest cardinality.
pub open spec fn chosen_clique(g: Seq<Set<int>>, universe: Set<int>) -> Set<int> {
    largest(search(g, Set::empty(), universe, Set::empty()))
}

/// The chosen clique lies within the universe.
pub proof fn lemma_chosen_within(g: Seq<Set<int>>, universe: Set<int>)
    requires
        slots(universe),
    ensures
        chosen_clique(g, universe).subset_of(universe),
{
    let cs = search(g, Set::empty(), universe, Set::empty());
    lemma_search_between(g, Set::empty(), universe, Set::empty());
    if cs.len() > 0 {
        lemma_best(cs, cs.len() as int);
        let c = cs[best(cs, cs.len() as int)];
        assert(c.subset_of(Set::<int>::empty().union(universe)));
    }
}

/// The least member of a set; `MAX_SYSTEMS` where it has none.
fn first_of(s: &SystemSet) -> (r: usize)
    ensures
        r == first_slot(s@),
{
    match s.first_one() {
        Some(k) => {
            proof {
                lemma_lowest(s@, k as int);
            }
            k
        },
        None => {
            assert(s@ =~= Set::<int>::empty());
            MAX_SYSTEMS
        },
    }
}

/// Computes all maximal cliques of `universe` in the compatibility graph and
/// picks the maximum amongst them; of several, the one with the lowest
/// least member.
pub fn maximum_clique(universe: SystemSet, compatibility: &[SystemSet]) -> (r: SystemSet)
    requires
        forall|i: int| universe@.contains(i) ==> i < compatibility@.len(),
    ensures
        r@ == chosen_clique(views(compatibility@), universe@),
{
    let ghost g = views(compatibility@);
    let mut max_cliques: Vec<SystemSet> = Vec::new();
    let none = SystemSet::empty();
    assert(none@ =~= Set::<int>::empty());
    bron_kerbosch(none.copy(), universe, none.copy(), compatibility, &mut max_cliques);
    let ghost cs = views(max_cliques@);
    assert(cs =~= search(g, Set::empty(), universe@, Set::empty()));
    if max_cliques.len() == 0 {
        return none;
    }
    // Find the maximum amongst all the cliques
    let mut max: usize = 0;
    let mut max_len: usize = max_cliques[0].count_ones();
    let mut max_first: usize = first_of(&max_cliques[0]);
    let mut i: usize = 1;
    while i < max_cliques.len()
        invariant
            1 <= i <= max_cliques.len(),
            cs == views(max_cliques@),
            max == best(cs, i as int),
            max < i,
            max_len == cs[max as int].len(),
            max_first == first_slot(cs[max as int]),
        decreases max_cliques.len() - i,
    {
        let n = max_cliques[i].count_ones();
        let first = first_of(&max_cliques[i]);
        if n > max_len || (n == max_len && first < max_first) {
            max = i;
            max_len = n;
            max_first = first;
        }
        i += 1;
    }
    max_cliques[max].copy()
}

} // verus!
