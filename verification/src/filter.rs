//! Component filters: which component types a system or a query reads and
//! which it writes.

use crate::archetype::{ascending, insertion_point, lemma_insert_keeps_ascending, Archetype};
use crate::archetypes::{index_of, ArchetypeDescriptor};
use crate::component::Component;
use crate::type_key::{id_of, type_rank};
use std::any::TypeId;
use std::marker::PhantomData;
use vstd::prelude::*;

verus! {

/// Marks a component type as read.
pub struct Read<T: Component> {
    _phantom: PhantomData<T>,
}

/// Marks a component type as written.
pub struct Write<T: Component> {
    _phantom: PhantomData<T>,
}

/// Represents a request for access on a particular component (read or write).
pub trait ComponentAccess {
    /// Indicates this access type needs mutable access.
    spec fn mutable() -> bool;

    fn is_mutable() -> (r: bool)
        ensures
            r == Self::mutable(),
    ;

    /// The identifier of the component type being accessed.
    fn component_id() -> TypeId;
}

impl<C: Component + 'static> ComponentAccess for Read<C> {
    open spec fn mutable() -> bool {
        false
    }

    fn is_mutable() -> (r: bool) {
        false
    }

    fn component_id() -> TypeId {
        id_of::<C>()
    }
}

impl<C: Component + 'static> ComponentAccess for Write<C> {
    open spec fn mutable() -> bool {
        true
    }

    fn is_mutable() -> (r: bool) {
        true
    }

    fn component_id() -> TypeId {
        id_of::<C>()
    }
}

/// One access of a filter: the rank of the component type, and whether the
/// access is mutable.
pub struct AccessView {
    pub rank: int,
    pub mutable: bool,
}

/// The ranks of a sequence, each inserted in turn at its insertion point:
/// the sequence in ascending order.
pub open spec fn in_ascending_order(s: Seq<int>) -> Seq<int>
    decreases s.len(),
{
    if s.len() == 0 {
        Seq::empty()
    } else {
        let rest = in_ascending_order(s.drop_last());
        rest.insert(insertion_point(rest, s.last()), s.last())
    }
}

/// The ranks of the accesses that a predicate on their mutability picks, in
/// the order of the accesses.
pub open spec fn picked(s: Seq<AccessView>, reads: bool, writes: bool) -> Seq<int>
    decreases s.len(),
{
    if s.len() == 0 {
        Seq::empty()
    } else {
        let rest = picked(s.drop_last(), reads, writes);
        if (s.last().mutable && writes) || (!s.last().mutable && reads) {
            rest.push(s.last().rank)
        } else {
            rest
        }
    }
}

/// Putting a sequence in ascending order gives an ascending sequence with the
/// same elements.
pub proof fn lemma_in_ascending_order(s: Seq<int>)
    ensures
        ascending(in_ascending_order(s)),
        in_ascending_order(s).len() == s.len(),
        in_ascending_order(s).to_set() == s.to_set(),
    decreases s.len(),
{
    if s.len() == 0 {
        assert(in_ascending_order(s).to_set() =~= s.to_set());
    } else {
        let rest = in_ascending_order(s.drop_last());
        lemma_in_ascending_order(s.drop_last());
        lemma_insert_keeps_ascending(rest, s.last());
        let k = insertion_point(rest, s.last());
        let out = rest.insert(k, s.last());
        assert forall|x: int| out.to_set().contains(x) <==> s.to_set().contains(x) by {
            if out.to_set().contains(x) {
                let i = choose|i: int| 0 <= i < out.len() && out[i] == x;
                if i < k {
                    assert(rest[i] == x);
                    assert(rest.to_set().contains(x));
                } else if i > k {
                    assert(rest[i - 1] == x);
                    assert(rest.to_set().contains(x));
                }
                if i != k {
                    let j = choose|j: int| 0 <= j < s.drop_last().len() && s.drop_last()[j] == x;
                    assert(s[j] == x);
                } else {
                    assert(s[s.len() - 1] == x);
                }
            }
            if s.to_set().contains(x) {
                let j = choose|j: int| 0 <= j < s.len() && s[j] == x;
                if j == s.len() - 1 {
                    assert(out[k] == x);
                } else {
                    assert(s.drop_last()[j] == x);
                    assert(s.drop_last().to_set().contains(x));
                    let i = choose|i: int| 0 <= i < rest.len() && rest[i] == x;
                    if i < k {
                        assert(out[i] == x);
                    } else {
                        assert(out[i + 1] == x);
                    }
                }
            }
        }
        assert(out.to_set() =~= s.to_set());
    }
}

/// Describes a particular way to access a subset of entities based on what
/// components they have: a list of accesses, in the order in which they were
/// asked for.
pub struct ComponentFilter {
    ids: Vec<TypeId>,
    writes: Vec<bool>,
}

impl View for ComponentFilter {
    type V = Seq<AccessView>;

    closed spec fn view(&self) -> Seq<AccessView> {
        Seq::new(
            self.ids@.len(),
            |i: int| AccessView { rank: type_rank(self.ids@[i]), mutable: self.writes@[i] },
        )
    }
}

impl ComponentFilter {
    #[verifier::type_invariant]
    spec fn paired(&self) -> bool {
        self.ids@.len() == self.writes@.len()
    }

    /// The filter without any access.
    pub fn new() -> (r: Self)
        ensures
            r@ == Seq::<AccessView>::empty(),
    {
        let r = ComponentFilter { ids: Vec::new(), writes: Vec::new() };
        assert(r@ =~= Seq::<AccessView>::empty());
        r
    }

    /// The number of accesses.
    pub fn len(&self) -> (r: usize)
        ensures
            r == self@.len(),
    {
        self.ids.len()
    }

    /// Adds the access `A`: a `Read` or a `Write` of a component type.
    pub fn add<A: ComponentAccess>(&mut self)
        ensures
            exists|id: TypeId|
                final(self)@ == old(self)@.push(
                    AccessView { rank: #[trigger] type_rank(id), mutable: A::mutable() },
                ),
    {
        let id = A::component_id();
        self.add_by_id(id, A::is_mutable());
    }

    /// Adds an access to the component type `id`.
    pub fn add_by_id(&mut self, id: TypeId, mutable: bool)
        ensures
            final(self)@ == old(self)@.push(AccessView { rank: type_rank(id), mutable }),
    {
        proof {
            use_type_invariant(&*self);
        }
        let mut ids: Vec<TypeId> = Vec::new();
        let mut writes: Vec<bool> = Vec::new();
        let mut k: usize = 0;
        while k < self.ids.len()
            invariant
                k <= self.ids.len(),
                self.ids@.len() == self.writes@.len(),
                ids@ == self.ids@.take(k as int),
                writes@ == self.writes@.take(k as int),
            decreases self.ids.len() - k,
        {
            ids.push(self.ids[k]);
            writes.push(self.writes[k]);
            k += 1;
            assert(ids@ =~= self.ids@.take(k as int));
            assert(writes@ =~= self.writes@.take(k as int));
        }
        ids.push(id);
        writes.push(mutable);
        let ghost before = self@;
        let r = ComponentFilter { ids, writes };
        assert(r@ =~= before.push(AccessView { rank: type_rank(id), mutable }));
        *self = r;
    }

    /// The archetype of the accesses that are picked: the reads where `reads`
    /// is set, the writes where `writes` is.
    fn archetype_of(&self, reads: bool, writes: bool) -> (r: Archetype)
        ensures
            r@ == in_ascending_order(picked(self@, reads, writes)),
    {
        proof {
            use_type_invariant(self);
        }
        let mut archetype = Archetype::default();
        let mut k: usize = 0;
        assert(self@.take(0) =~= Seq::<AccessView>::empty());
        while k < self.ids.len()
            invariant
                k <= self.ids.len(),
                self.ids@.len() == self.writes@.len(),
                archetype@ == in_ascending_order(picked(self@.take(k as int), reads, writes)),
            decreases self.ids.len() - k,
        {
            proof {
                let s = self@.take(k + 1);
                assert(s.drop_last() =~= self@.take(k as int));
                assert(s.last() == self@[k as int]);
            }
            let mutable = self.writes[k];
            if (mutable && writes) || (!mutable && reads) {
                archetype.add_component_by_id(self.ids[k]);
                proof {
                    let q = picked(self@.take(k + 1), reads, writes);
                    assert(q.drop_last() =~= picked(self@.take(k as int), reads, writes));
                }
            }
            k += 1;
        }
        assert(self@.take(k as int) =~= self@);
        archetype
    }

    /// Given an archetype descriptor, tells for each access of the filter,
    /// in their order, the row that holds the components of its type for
    /// that descriptor. The archetype of the descriptor has to hold every
    /// component type of the filter.
    pub fn make_storage_set(&self, descriptor: &ArchetypeDescriptor) -> (r: Vec<usize>)
        requires
            descriptor@.component_map.len() == descriptor@.archetype.len(),
            forall|k: int|
                0 <= k < self@.len() ==> descriptor@.archetype.contains((#[trigger] self@[k]).rank),
        ensures
            r@.len() == self@.len(),
            forall|k: int|
                0 <= k < self@.len() ==> #[trigger] r@[k] == descriptor@.component_map[index_of(
                    descriptor@.archetype,
                    self@[k].rank,
                    descriptor@.archetype.len() as int,
                )],
    {
        proof {
            use_type_invariant(self);
        }
        let mut rows: Vec<usize> = Vec::new();
        let mut k: usize = 0;
        while k < self.ids.len()
            invariant
                k <= self.ids@.len(),
                self.ids@.len() == self.writes@.len(),
                self@.len() == self.ids@.len(),
                descriptor@.component_map.len() == descriptor@.archetype.len(),
                forall|j: int|
                    0 <= j < self@.len() ==> descriptor@.archetype.contains(
                        (#[trigger] self@[j]).rank,
                    ),
                rows@.len() == k,
                forall|j: int|
                    0 <= j < k ==> #[trigger] rows@[j] == descriptor@.component_map[index_of(
                        descriptor@.archetype,
                        self@[j].rank,
                        descriptor@.archetype.len() as int,
                    )],
            decreases self.ids.len() - k,
        {
            assert(self@[k as int].rank == type_rank(self.ids@[k as int]));
            let at = descriptor.archetype().position(&self.ids[k]).unwrap();
            rows.push(descriptor.component_map()[at]);
            k += 1;
        }
        rows
    }

    /// Creates an archetype which has every component within the filter.
    pub fn archetype(&self) -> (r: Archetype)
        ensures
            r@ == in_ascending_order(picked(self@, true, true)),
    {
        self.archetype_of(true, true)
    }

    /// Creates an archetype which contains only components that are read.
    pub fn read_archetype(&self) -> (r: Archetype)
        ensures
            r@ == in_ascending_order(picked(self@, true, false)),
    {
        self.archetype_of(true, false)
    }

    /// Creates an archetype which contains only components that are written.
    pub fn write_archetype(&self) -> (r: Archetype)
        ensures
            r@ == in_ascending_order(picked(self@, false, true)),
    {
        self.archetype_of(false, true)
    }
}

} // verus!
