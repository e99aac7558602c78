//! Archetypes: canonical sets of component types.

use crate::component::Component;
use crate::type_key::{id_matches, id_of, id_precedes, type_rank};
use std::any::TypeId;
use vstd::prelude::*;
use vstd::std_specs::slice::into_iter_elts;

verus! {

/// The ranks of a sequence of identifiers, in the same order.
pub open spec fn ranks(ids: Seq<TypeId>) -> Seq<int> {
    ids.map_values(|t: TypeId| type_rank(t))
}

/// No element is larger than a later one.
pub open spec fn ascending(s: Seq<int>) -> bool {
    forall|i: int, j: int| 0 <= i < j < s.len() ==> s[i] <= s[j]
}

/// Every element is smaller than every later one.
pub open spec fn strictly_ascending(s: Seq<int>) -> bool {
    forall|i: int, j: int| 0 <= i < j < s.len() ==> s[i] < s[j]
}

/// The number of leading elements of `s` that are smaller than `x`. In an
/// ascending sequence this is the first index at which `x` can be inserted.
pub open spec fn insertion_point(s: Seq<int>, x: int) -> int
    decreases s.len(),
{
    if s.len() == 0 || s[0] >= x {
        0
    } else {
        1 + insertion_point(s.skip(1), x)
    }
}

/// One pass from left to right through `b` meets every element of `a` in
/// order: the first element of `a` is matched with its first occurrence in
/// `b`, the rest of `a` with what follows that occurrence.
pub open spec fn embeds(a: Seq<int>, b: Seq<int>) -> bool
    decreases b.len(),
{
    if a.len() == 0 {
        true
    } else if b.len() == 0 {
        false
    } else if a[0] == b[0] {
        embeds(a.skip(1), b.skip(1))
    } else {
        embeds(a, b.skip(1))
    }
}

/// Some value occurs in both sequences.
pub open spec fn overlaps(a: Seq<int>, b: Seq<int>) -> bool {
    exists|i: int, j: int| 0 <= i < a.len() && 0 <= j < b.len() && a[i] == b[j]
}

/// The insertion point splits an ascending sequence into the elements below
/// `x` and the others.
pub proof fn lemma_insertion_point(s: Seq<int>, x: int)
    requires
        ascending(s),
    ensures
        0 <= insertion_point(s, x) <= s.len(),
        forall|i: int| 0 <= i < insertion_point(s, x) ==> s[i] < x,
        forall|i: int| insertion_point(s, x) <= i < s.len() ==> s[i] >= x,
    decreases s.len(),
{
    if s.len() == 0 || s[0] >= x {
    } else {
        let t = s.skip(1);
        assert forall|i: int, j: int| 0 <= i < j < t.len() implies t[i] <= t[j] by {
            assert(t[i] == s[i + 1] && t[j] == s[j + 1]);
        }
        lemma_insertion_point(t, x);
        let k = insertion_point(t, x);
        assert forall|i: int| 0 <= i < k + 1 implies s[i] < x by {
            if i > 0 {
                assert(s[i] == t[i - 1]);
            }
        }
        assert forall|i: int| k + 1 <= i < s.len() implies s[i] >= x by {
            assert(s[i] == t[i - 1]);
        }
    }
}

/// An index that splits an ascending sequence into the elements below `x`
/// and the others is the insertion point of `x`.
pub proof fn lemma_insertion_point_unique(s: Seq<int>, x: int, k: int)
    requires
        ascending(s),
        0 <= k <= s.len(),
        forall|i: int| 0 <= i < k ==> s[i] < x,
        forall|i: int| k <= i < s.len() ==> s[i] >= x,
    ensures
        insertion_point(s, x) == k,
{
    lemma_insertion_point(s, x);
    let p = insertion_point(s, x);
    if p < k {
        assert(s[p] < x);
    } else if k < p {
        assert(s[k] >= x);
    }
}

/// Inserting at the insertion point keeps a sequence ascending, and strictly
/// so where the sequence was and did not hold the new element.
pub proof fn lemma_insert_keeps_ascending(s: Seq<int>, x: int)
    requires
        ascending(s),
    ensures
        0 <= insertion_point(s, x) <= s.len(),
        ascending(s.insert(insertion_point(s, x), x)),
        strictly_ascending(s) && !s.contains(x) ==> strictly_ascending(
            s.insert(insertion_point(s, x), x),
        ),
{
    lemma_insertion_point(s, x);
    let k = insertion_point(s, x);
    let t = s.insert(k, x);
    assert forall|i: int, j: int| 0 <= i < j < t.len() implies t[i] <= t[j] by {
        if i < k && j > k {
            assert(t[i] == s[i] && t[j] == s[j - 1]);
        }
    }
    if strictly_ascending(s) && !s.contains(x) {
        assert forall|i: int, j: int| 0 <= i < j < t.len() implies t[i] < t[j] by {
            if j == k {
            } else if i == k {
                assert(t[j] == s[j - 1]);
                assert(s.contains(s[j - 1]));
            } else if i < k && j > k {
                assert(t[i] == s[i] && t[j] == s[j - 1]);
            }
        }
    }
}

/// Where both sequences are strictly ascending, one pass finds every element
/// of `a` in `b` exactly when every element of `a` occurs in `b`.
pub proof fn lemma_embeds_iff_subset(a: Seq<int>, b: Seq<int>)
    requires
        strictly_ascending(a),
        strictly_ascending(b),
    ensures
        embeds(a, b) <==> a.to_set().subset_of(b.to_set()),
    decreases b.len(),
{
    if a.len() == 0 {
        assert(a.to_set() =~= Set::<int>::empty());
    } else if b.len() == 0 {
        assert(a.to_set().contains(a[0]));
        assert(!b.to_set().contains(a[0]));
    } else {
        let b1 = b.skip(1);
        assert forall|i: int, j: int| 0 <= i < j < b1.len() implies b1[i] < b1[j] by {
            assert(b1[i] == b[i + 1] && b1[j] == b[j + 1]);
        }
        if a[0] == b[0] {
            let a1 = a.skip(1);
            assert forall|i: int, j: int| 0 <= i < j < a1.len() implies a1[i] < a1[j] by {
                assert(a1[i] == a[i + 1] && a1[j] == a[j + 1]);
            }
            lemma_embeds_iff_subset(a1, b1);
            if a1.to_set().subset_of(b1.to_set()) {
                assert forall|x: int| a.to_set().contains(x) implies b.to_set().contains(x) by {
                    let i = choose|i: int| 0 <= i < a.len() && a[i] == x;
                    if i == 0 {
                        assert(b[0] == x);
                    } else {
                        assert(a1[i - 1] == x);
                        assert(a1.to_set().contains(x));
                        let j = choose|j: int| 0 <= j < b1.len() && b1[j] == x;
                        assert(b[j + 1] == x);
                    }
                }
            }
            if a.to_set().subset_of(b.to_set()) {
                assert forall|x: int| a1.to_set().contains(x) implies b1.to_set().contains(x) by {
                    let i = choose|i: int| 0 <= i < a1.len() && a1[i] == x;
                    assert(a[i + 1] == x);
                    assert(a.to_set().contains(x));
                    let j = choose|j: int| 0 <= j < b.len() && b[j] == x;
                    assert(a[0] < a[i + 1]);
                    assert(j != 0);
                    assert(b1[j - 1] == x);
                }
            }
        } else {
            lemma_embeds_iff_subset(a, b1);
            if a.to_set().subset_of(b1.to_set()) {
                assert forall|x: int| a.to_set().contains(x) implies b.to_set().contains(x) by {
                    let j = choose|j: int| 0 <= j < b1.len() && b1[j] == x;
                    assert(b[j + 1] == x);
                }
            }
            if a.to_set().subset_of(b.to_set()) {
                assert forall|x: int| a.to_set().contains(x) implies b1.to_set().contains(x) by {
                    let i = choose|i: int| 0 <= i < a.len() && a[i] == x;
                    let j = choose|j: int| 0 <= j < b.len() && b[j] == x;
                    if j == 0 {
                        // b[0] is in a, but not at a[0]: so a[0] < b[0], and a[0]
                        // would have to occur in b after b[0].
                        assert(i != 0);
                        assert(a[0] < a[i]);
                        assert(a.to_set().contains(a[0]));
                        let j0 = choose|j0: int| 0 <= j0 < b.len() && b[j0] == a[0];
                        assert(j0 != 0);
                        assert(b[0] < b[j0]);
                    } else {
                        assert(b1[j - 1] == x);
                    }
                }
            }
        }
    }
}

/// One pass through a sequence finds the sequence itself.
pub proof fn lemma_embeds_reflexive(a: Seq<int>)
    ensures
        embeds(a, a),
    decreases a.len(),
{
    if a.len() > 0 {
        lemma_embeds_reflexive(a.skip(1));
    }
}

/// Describes a set of component types: their identifiers in ascending order.
#[derive(Debug, Hash)]
pub struct Archetype {
    ids: Vec<TypeId>,
}

impl View for Archetype {
    type V = Seq<int>;

    /// The ranks of the identifiers held, in the order in which they are held.
    closed spec fn view(&self) -> Seq<int> {
        ranks(self.ids@)
    }
}

impl Default for Archetype {
    fn default() -> (r: Self)
        ensures
            r@ == Seq::<int>::empty(),
    {
        let r = Archetype { ids: Vec::new() };
        assert(r@ =~= Seq::<int>::empty());
        r
    }
}

impl PartialEq for Archetype {
    fn eq(&self, other: &Self) -> (r: bool) {
        self.same_types(other)
    }
}

impl vstd::std_specs::cmp::PartialEqSpecImpl for Archetype {
    open spec fn obeys_eq_spec() -> bool {
        true
    }

    open spec fn eq_spec(&self, other: &Self) -> bool {
        self@ == other@
    }
}

impl Eq for Archetype {

}

impl Clone for Archetype {
    fn clone(&self) -> (r: Self)
        ensures
            r@ == self@,
    {
        proof {
            use_type_invariant(self);
        }
        let mut ids: Vec<TypeId> = Vec::new();
        let mut i: usize = 0;
        while i < self.ids.len()
            invariant
                i <= self.ids.len(),
                ids@ == self.ids@.take(i as int),
            decreases self.ids.len() - i,
        {
            ids.push(self.ids[i]);
            i += 1;
            assert(ids@ =~= self.ids@.take(i as int));
        }
        assert(ids@ =~= self.ids@);
        Archetype { ids }
    }
}

impl Archetype {
    #[verifier::type_invariant]
    spec fn in_order(&self) -> bool {
        ascending(ranks(self.ids@))
    }

    /// The archetype holds no component type twice.
    pub open spec fn is_valid(&self) -> bool {
        strictly_ascending(self@)
    }

    /// The component types of the archetype, as a set of ranks.
    pub open spec fn id_set(&self) -> Set<int> {
        self@.to_set()
    }

    /// Returns an iterator over all of the type IDs of the components within the archetype.
    pub fn iter(&self) -> (r: std::slice::Iter<'_, TypeId>)
        ensures
            ranks(into_iter_elts(r)) == self@,
            ascending(self@),
    {
        proof {
            use_type_invariant(self);
        }
        let slice = self.ids.as_slice();
        let it = slice.iter();
        proof {
            vstd::std_specs::slice::axiom_spec_slice_iter(slice);
            assert(into_iter_elts(it) =~= self.ids@);
        }
        it
    }

    /// The identifier at position `i` in ascending order.
    pub fn get(&self, i: usize) -> (r: TypeId)
        requires
            i < self@.len(),
        ensures
            type_rank(r) == self@[i as int],
    {
        self.ids[i]
    }

    pub fn len(&self) -> (r: usize)
        ensures
            r == self@.len(),
            ascending(self@),
    {
        proof {
            use_type_invariant(self);
        }
        self.ids.len()
    }

    pub fn is_empty(&self) -> (r: bool)
        ensures
            r == (self@.len() == 0),
    {
        self.ids.len() == 0
    }

    /// Adds the component type `T`.
    pub fn add_component<T: Component + 'static>(&mut self)
        ensures
            exists|id: TypeId|
                final(self)@ == old(self)@.insert(
                    insertion_point(old(self)@, type_rank(id)),
                    #[trigger] type_rank(id),
                ),
    {
        let t = id_of::<T>();
        self.add_component_by_id(t);
    }

    /// Adds a component type by its identifier, keeping the identifiers in
    /// ascending order. An identifier that is already held is held twice
    /// afterwards, and the archetype is then no longer valid.
    pub fn add_component_by_id(&mut self, id: TypeId)
        ensures
            final(self)@ == old(self)@.insert(
                insertion_point(old(self)@, type_rank(id)),
                type_rank(id),
            ),
            ascending(final(self)@),
            old(self).is_valid() && !old(self)@.contains(type_rank(id)) ==> final(self).is_valid(),
    {
        proof {
            use_type_invariant(&*self);
        }
        let ghost before = self.ids@;
        let ghost x = type_rank(id);
        let mut ids: Vec<TypeId> = Vec::new();
        let mut k: usize = 0;
        let mut below = self.ids.len() > 0 && id_precedes(&self.ids[0], &id);
        while below
            invariant
                k <= self.ids.len(),
                self.ids@ == before,
                x == type_rank(id),
                ids@ == before.take(k as int),
                forall|i: int| 0 <= i < k ==> ranks(before)[i] < x,
                below ==> k < before.len() && type_rank(before[k as int]) < x,
                !below ==> k == before.len() || type_rank(before[k as int]) >= x,
            decreases self.ids.len() - k,
        {
            assert(ranks(before)[k as int] == type_rank(before[k as int]));
            ids.push(self.ids[k]);
            k += 1;
            below = k < self.ids.len() && id_precedes(&self.ids[k], &id);
            assert(ids@ =~= before.take(k as int));
        }
        let ghost at = k as int;
        proof {
            let s = ranks(before);
            assert forall|i: int| at <= i < s.len() implies s[i] >= x by {
                assert(s[at] == type_rank(before[at]));
                assert(s[at] >= x);
            }
            lemma_insertion_point_unique(s, x, at);
            lemma_insert_keeps_ascending(s, x);
        }
        ids.push(id);
        assert(ids@ =~= before.insert(at, id).take(k + 1));
        while k < self.ids.len()
            invariant
                0 <= at <= k <= self.ids.len(),
                self.ids@ == before,
                ids@ == before.insert(at, id).take(k + 1),
            decreases self.ids.len() - k,
        {
            ids.push(self.ids[k]);
            k += 1;
            assert(ids@ =~= before.insert(at, id).take(k + 1));
        }
        proof {
            assert(ids@ =~= before.insert(at, id));
            assert(ranks(before.insert(at, id)) =~= ranks(before).insert(at, x));
        }
        self.ids = ids;
    }

    /// The position of the component type `id` in the archetype, if it
    /// holds the type.
    pub fn position(&self, id: &TypeId) -> (r: Option<usize>)
        ensures
            match r {
                Some(k) => k < self@.len() && k == crate::archetypes::index_of(
                    self@,
                    type_rank(*id),
                    self@.len() as int,
                ),
                None => !self@.contains(type_rank(*id)),
            },
    {
        let ghost a = self@;
        let ghost x = type_rank(*id);
        let mut i: usize = 0;
        while i < self.ids.len()
            invariant
                i <= self.ids@.len(),
                a == ranks(self.ids@),
                x == type_rank(*id),
                crate::archetypes::index_of(a, x, i as int) == -1,
            decreases self.ids.len() - i,
        {
            assert(a[i as int] == type_rank(self.ids@[i as int]));
            if id_matches(&self.ids[i], id) {
                proof {
                    crate::archetypes::lemma_index_of_stable(a, x, i + 1, a.len() as int);
                }
                return Some(i);
            }
            i += 1;
        }
        proof {
            crate::archetypes::lemma_index_of(a, x, a.len() as int);
        }
        None
    }

    /// Whether the two archetypes hold the same component types.
    pub fn same_types(&self, other: &Archetype) -> (r: bool)
        ensures
            r == (self@ == other@),
    {
        if self.ids.len() != other.ids.len() {
            assert(self@.len() != other@.len());
            return false;
        }
        let mut i: usize = 0;
        while i < self.ids.len()
            invariant
                i <= self.ids.len(),
                self.ids@.len() == other.ids@.len(),
                forall|k: int| 0 <= k < i ==> self@[k] == other@[k],
            decreases self.ids.len() - i,
        {
            assert(self@[i as int] == type_rank(self.ids@[i as int]));
            assert(other@[i as int] == type_rank(other.ids@[i as int]));
            if !id_matches(&self.ids[i], &other.ids[i]) {
                return false;
            }
            i += 1;
        }
        assert(self@ =~= other@);
        true
    }

    /// Returns `true` if `self` contains any of the same types as `other`.
    pub fn any_of(&self, other: &Archetype) -> (r: bool)
        ensures
            r == overlaps(self@, other@),
            r == !self.id_set().disjoint(other.id_set()),
    {
        proof {
            use_type_invariant(self);
            use_type_invariant(other);
        }
        let ghost a = self@;
        let ghost b = other@;
        let mut self_i: usize = 0;
        let mut other_i: usize = 0;
        let mut found = false;
        while !found && self_i != self.ids.len() && other_i != other.ids.len()
            invariant
                a == ranks(self.ids@),
                b == ranks(other.ids@),
                ascending(a),
                ascending(b),
                self_i <= self.ids.len(),
                other_i <= other.ids.len(),
                found ==> overlaps(a, b),
                !found ==> forall|i: int, j: int|
                    0 <= i < a.len() && 0 <= j < b.len() && a[i] == b[j] ==> i >= self_i && j
                        >= other_i,
            decreases
                    if found {
                        0int
                    } else {
                        1int
                    },
                    self.ids.len() - self_i + other.ids.len() - other_i,
        {
            let self_id = &self.ids[self_i];
            let other_id = &other.ids[other_i];
            assert(a[self_i as int] == type_rank(*self_id));
            assert(b[other_i as int] == type_rank(*other_id));
            if id_matches(self_id, other_id) {
                found = true;
            } else if id_precedes(self_id, other_id) {
                assert forall|i: int, j: int|
                    0 <= i < a.len() && 0 <= j < b.len() && a[i] == b[j] implies i >= self_i + 1
                    && j >= other_i by {
                    if i == self_i && j > other_i {
                        assert(b[other_i as int] <= b[j]);
                    }
                }
                self_i += 1;
            } else {
                assert forall|i: int, j: int|
                    0 <= i < a.len() && 0 <= j < b.len() && a[i] == b[j] implies i >= self_i
                    && j >= other_i + 1 by {
                    if j == other_i && i > self_i {
                        assert(a[self_i as int] <= a[i]);
                    }
                }
                other_i += 1;
            }
        }
        proof {
            if overlaps(a, b) {
                let (i, j) = choose|i: int, j: int|
                    0 <= i < a.len() && 0 <= j < b.len() && a[i] == b[j];
                assert(a.to_set().contains(a[i]) && b.to_set().contains(b[j]));
            }
            if !self.id_set().disjoint(other.id_set()) {
                let x = choose|x: int| a.to_set().contains(x) && b.to_set().contains(x);
                let i = choose|i: int| 0 <= i < a.len() && a[i] == x;
                let j = choose|j: int| 0 <= j < b.len() && b[j] == x;
                assert(a[i] == b[j]);
            }
        }
        found
    }

    /// Compares two archetypes and returns `true` if this archetype is a subset of the `other`:
    /// one pass from left to right through `other` meets every identifier of
    /// `self` in order. Between valid archetypes that is set inclusion.
    pub fn subset_of(&self, other: &Archetype) -> (r: bool)
        ensures
            r == embeds(self@, other@),
            self.is_valid() && other.is_valid() ==> r == self.id_set().subset_of(other.id_set()),
    {
        let ghost a = self@;
        let ghost b = other@;
        proof {
            if self.is_valid() && other.is_valid() {
                lemma_embeds_iff_subset(a, b);
            }
        }
        if self.ids.len() == 0 {
            return true;
        }
        let mut i: usize = 0;
        let mut j: usize = 0;
        assert(a.skip(0) =~= a && b.skip(0) =~= b);
        while j < other.ids.len()
            invariant
                a == ranks(self.ids@),
                b == ranks(other.ids@),
                i < self.ids.len(),
                j <= other.ids.len(),
                embeds(a, b) == embeds(a.skip(i as int), b.skip(j as int)),
                self.is_valid() && other.is_valid() ==> embeds(a, b) == a.to_set().subset_of(
                    b.to_set(),
                ),
            decreases other.ids.len() - j,
        {
            proof {
                let a1 = a.skip(i as int);
                let b1 = b.skip(j as int);
                assert(a1[0] == a[i as int] && b1[0] == b[j as int]);
                assert(a[i as int] == type_rank(self.ids@[i as int]));
                assert(b[j as int] == type_rank(other.ids@[j as int]));
                assert(a1.skip(1) =~= a.skip(i + 1));
                assert(b1.skip(1) =~= b.skip(j + 1));
            }
            if id_matches(&other.ids[j], &self.ids[i]) {
                i += 1;
                if i == self.ids.len() {
                    assert(a.skip(i as int).len() == 0);
                    assert(embeds(a.skip(i as int), b.skip(j + 1)));
                    return true;
                }
            }
            j += 1;
        }
        assert(b.skip(j as int).len() == 0 && a.skip(i as int).len() > 0);
        false
    }
}

} // verus!
