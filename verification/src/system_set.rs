//! Sets of systems: one bit per system slot.

use bitvec::array::BitArray;
use bitvec::order::Lsb0;
use vstd::prelude::*;
use vstd::set_lib::{lemma_int_range, lemma_len_subset, set_int_range};

verus! {

/// Maximum number of systems allowed in a dispatcher.
pub const MAX_SYSTEMS: usize = 128;

/// Bits which represent a set of systems: bit `i` stands for system `i`.
/// The bits are kept in a `bitvec` array of `MAX_SYSTEMS` bits.
#[verifier::external_body]
pub struct SystemSet {
    bits: BitArray<[u32; 4], Lsb0>,
}

/// The positions whose bit is set in the array that a `SystemSet` holds.
pub uninterp spec fn held(s: SystemSet) -> Set<int>;

impl View for SystemSet {
    type V = Set<int>;

    /// The systems in the set: the slots below `MAX_SYSTEMS` whose bit is set.
    open spec fn view(&self) -> Set<int> {
        Set::new(|i: int| 0 <= i < MAX_SYSTEMS && held(*self).contains(i))
    }
}

/// `v` lists the members of `s` in ascending order, each once.
pub open spec fn lists(v: Seq<usize>, s: Set<int>) -> bool {
    &&& forall|k: int| 0 <= k < v.len() ==> s.contains(#[trigger] v[k] as int)
    &&& forall|i: int| s.contains(i) ==> exists|k: int| 0 <= k < v.len() && #[trigger] v[k] == i
    &&& forall|k: int, l: int| 0 <= k < l < v.len() ==> v[k] < v[l]
}

/// `d` is one of the indices in `v`.
pub open spec fn names(v: Seq<usize>, d: int) -> bool {
    exists|k: int| 0 <= k < v.len() && #[trigger] v[k] == d
}

/// A set of slots is finite and has at most `MAX_SYSTEMS` members.
pub proof fn lemma_slots_finite(s: Set<int>)
    requires
        forall|i: int| s.contains(i) ==> 0 <= i < MAX_SYSTEMS,
    ensures
        s.finite(),
        s.len() <= MAX_SYSTEMS,
{
    lemma_int_range(0, MAX_SYSTEMS as int);
    assert(s.subset_of(set_int_range(0, MAX_SYSTEMS as int)));
    lemma_len_subset(s, set_int_range(0, MAX_SYSTEMS as int));
}

impl SystemSet {
    /// Trusted: `BitArray::ZERO`, the array with every bit cleared.
    #[verifier::external_body]
    pub(crate) fn empty() -> (r: SystemSet)
        ensures
            held(r) == Set::<int>::empty(),
    {
        SystemSet { bits: BitArray::ZERO }
    }

    /// Trusted: `BitArray`'s `clone`, which copies the array bit by bit.
    #[verifier::external_body]
    pub(crate) fn copy(&self) -> (r: SystemSet)
        ensures
            r@ == self@,
    {
        SystemSet { bits: self.bits.clone() }
    }

    /// Trusted: `BitSlice::set`, which writes one bit and leaves the others.
    /// It panics on an index that is not below the array's length, which is
    /// `MAX_SYSTEMS`.
    #[verifier::external_body]
    pub(crate) fn put(&mut self, idx: usize, value: bool)
        requires
            idx < MAX_SYSTEMS,
        ensures
            final(self)@ == if value {
                old(self)@.insert(idx as int)
            } else {
                old(self)@.remove(idx as int)
            },
    {
        self.bits.set(idx, value);
    }

    /// Trusted: `BitSlice`'s index operator, which reads one bit. It panics on
    /// an index that is not below the array's length, which is `MAX_SYSTEMS`.
    #[verifier::external_body]
    pub(crate) fn has(&self, idx: usize) -> (r: bool)
        requires
            idx < MAX_SYSTEMS,
        ensures
            r == self@.contains(idx as int),
    {
        self.bits[idx]
    }

    /// Trusted: `BitArray`'s `|`, the bit-wise or of two arrays.
    #[verifier::external_body]
    pub(crate) fn union(&self, other: &SystemSet) -> (r: SystemSet)
        ensures
            r@ == self@.union(other@),
    {
        SystemSet { bits: self.bits | other.bits }
    }

    /// Trusted: `BitArray`'s `&`, the bit-wise and of two arrays.
    #[verifier::external_body]
    pub(crate) fn intersection(&self, other: &SystemSet) -> (r: SystemSet)
        ensures
            r@ == self@.intersect(other@),
    {
        SystemSet { bits: self.bits & other.bits }
    }

    /// Trusted: `BitArray`'s `!`, which flips each of the `MAX_SYSTEMS` bits.
    #[verifier::external_body]
    pub(crate) fn complement(&self) -> (r: SystemSet)
        ensures
            r@ == set_int_range(0, MAX_SYSTEMS as int).difference(self@),
    {
        SystemSet { bits: !self.bits }
    }

    /// Trusted: `BitSlice::not_any`, true where no bit is set.
    #[verifier::external_body]
    pub(crate) fn not_any(&self) -> (r: bool)
        ensures
            r == (forall|i: int| !self@.contains(i)),
    {
        self.bits.not_any()
    }

    /// Trusted: `BitSlice::first_one`, the lowest position whose bit is set,
    /// or `None` where no bit is set.
    #[verifier::external_body]
    pub(crate) fn first_one(&self) -> (r: Option<usize>)
        ensures
            match r {
                Some(k) => self@.contains(k as int) && forall|i: int|
                    0 <= i < k ==> !self@.contains(i),
                None => forall|i: int| !self@.contains(i),
            },
    {
        self.bits.first_one()
    }

    /// Trusted: `BitSlice::count_ones`, the number of bits that are set.
    #[verifier::external_body]
    pub(crate) fn count_ones(&self) -> (r: usize)
        ensures
            r == self@.len(),
    {
        self.bits.count_ones()
    }

    /// Trusted: `BitSlice::iter_ones`, which yields the positions of the set
    /// bits from the lowest up; they are collected into a vector.
    #[verifier::external_body]
    pub(crate) fn ones(&self) -> (r: Vec<usize>)
        ensures
            lists(r@, self@),
    {
        self.bits.iter_ones().collect()
    }

    /// Trusted: `BitArray`'s `==`, true where the two arrays agree bit by bit.
    #[verifier::external_body]
    pub(crate) fn same(&self, other: &SystemSet) -> (r: bool)
        ensures
            r == (self@ == other@),
    {
        self.bits == other.bits
    }

    /// The systems outside `other`.
    pub(crate) fn difference(&self, other: &SystemSet) -> (r: SystemSet)
        ensures
            r@ == self@.difference(other@),
    {
        let r = self.intersection(&other.complement());
        assert(r@ =~= self@.difference(other@));
        r
    }

    /// The set of the systems listed in `indices`. Indices that are not below
    /// `MAX_SYSTEMS` name no slot and are passed over.
    pub fn from_indices(indices: &Vec<usize>) -> (r: SystemSet)
        ensures
            forall|i: int|
                r@.contains(i) <==> 0 <= i < MAX_SYSTEMS && indices@.contains(i as usize),
    {
        let mut r = SystemSet::empty();
        let mut k: usize = 0;
        while k < indices.len()
            invariant
                k <= indices.len(),
                forall|i: int|
                    r@.contains(i) <==> 0 <= i < MAX_SYSTEMS && indices@.take(k as int).contains(
                        i as usize,
                    ),
            decreases indices.len() - k,
        {
            let idx = indices[k];
            let ghost before = r@;
            if idx < MAX_SYSTEMS {
                r.put(idx, true);
            }
            proof {
                let t0 = indices@.take(k as int);
                let t1 = indices@.take(k + 1);
                assert(t1 =~= t0.push(idx));
                assert forall|i: int|
                    r@.contains(i) <==> 0 <= i < MAX_SYSTEMS && t1.contains(i as usize) by {
                    if 0 <= i < MAX_SYSTEMS && t1.contains(i as usize) {
                        let j = choose|j: int| 0 <= j < t1.len() && t1[j] == i as usize;
                        if j < k {
                            assert(t0[j] == i as usize);
                        }
                    }
                    if r@.contains(i) {
                        if before.contains(i) {
                            let j = choose|j: int| 0 <= j < t0.len() && t0[j] == i as usize;
                            assert(t1[j] == i as usize);
                        } else {
                            assert(t1[k as int] == idx);
                        }
                    }
                }
            }
            k += 1;
        }
        assert(indices@.take(k as int) =~= indices@);
        r
    }

    /// The systems in the set, in ascending order.
    pub fn indices(&self) -> (r: Vec<usize>)
        ensures
            lists(r@, self@),
    {
        self.ones()
    }
}

} // verus!
