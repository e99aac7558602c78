//! Queries: which entities a filter selects, and in which order they are
//! visited.

use crate::archetype::{embeds, Archetype};
use crate::archetypes::Archetypes;
use crate::filter::{in_ascending_order, picked, ComponentFilter};
use vstd::prelude::*;

verus! {

/// Makes the queries of one system, and holds what the system may touch.
pub struct QueryGenerator {
    all_components: Archetype,
    mut_components: Archetype,
}

/// The place of an entity in the registry: the index of the descriptor of
/// its archetype, and its index in the rows of that descriptor.
#[derive(Debug, Clone, Copy, PartialEq, Eq, Structural)]
pub struct QueryItem {
    pub descriptor: usize,
    pub index: usize,
}

/// The rows of one descriptor that a query goes through.
#[derive(Clone, Copy)]
struct QuerySet {
    descriptor: usize,
    len: usize,
}

/// A query visits the entities whose archetype holds every component type
/// of a filter: descriptor by descriptor, the one registered last first,
/// and within a descriptor in the order of the rows.
pub struct Query {
    /// The descriptors still to visit; the last one is visited next.
    sets: Vec<QuerySet>,
    /// The descriptor that is being visited.
    set: Option<QuerySet>,
    /// The index in its rows of the entity to visit next.
    idx: usize,
    len: usize,
}

/// The places `from..len` of the rows of descriptor `d`, in order.
pub open spec fn row_places(d: int, from: int, len: int) -> Seq<(int, int)> {
    Seq::new((len - from) as nat, |i: int| (d, from + i))
}

/// The places that a query for the archetype `wanted` visits among the first
/// `upto` descriptors, in the order in which it visits them: the rows of
/// the descriptor registered last first. A descriptor is visited where one
/// pass through its archetype finds every wanted component type.
pub open spec fn visits<C>(archetypes: Archetypes<C>, wanted: Seq<int>, upto: int) -> Seq<
    (int, int),
>
    decreases upto,
{
    if upto <= 0 {
        Seq::empty()
    } else {
        let d = archetypes.descriptors_view()[upto - 1];
        let rest = visits(archetypes, wanted, upto - 1);
        if embeds(wanted, d.archetype) && d.entities < archetypes.entity_rows().len() {
            row_places(upto - 1, 0, archetypes.entity_row(d).len() as int) + rest
        } else {
            rest
        }
    }
}

/// A query for the archetype `wanted` can be made: the row of entities of
/// no descriptor that it visits is being written, and the places that it
/// visits can be counted in a `usize`.
pub open spec fn can_visit<C>(archetypes: Archetypes<C>, wanted: Seq<int>) -> bool {
    &&& forall|i: int|
        0 <= i < archetypes.descriptors_view().len() && embeds(
            wanted,
            (#[trigger] archetypes.descriptors_view()[i]).archetype,
        ) && archetypes.descriptors_view()[i].entities < archetypes.entity_rows().len()
            ==> archetypes.entity_buffers().counts()[archetypes.descriptors_view()[i].entities as int]
            != crate::prw_lock::EXCLUSIVE
    &&& visits(archetypes, wanted, archetypes.descriptors_view().len() as int).len()
        <= usize::MAX
}

/// A query visits no more places than the descriptors hold entities.
pub proof fn lemma_visits_population<C>(archetypes: Archetypes<C>, wanted: Seq<int>, upto: int)
    ensures
        visits(archetypes, wanted, upto).len() <= archetypes.population(upto),
    decreases upto,
{
    if upto > 0 {
        lemma_visits_population(archetypes, wanted, upto - 1);
    }
}

/// Where no row of entities is being written and the entities can be
/// counted, every query can be made.
pub proof fn lemma_can_visit<C>(archetypes: Archetypes<C>, wanted: Seq<int>)
    requires
        archetypes.entities_readable(),
        archetypes.countable(),
    ensures
        can_visit(archetypes, wanted),
{
    lemma_visits_population(archetypes, wanted, archetypes.descriptors_view().len() as int);
}

impl QueryGenerator {
    /// The archetype of everything the system may touch.
    pub closed spec fn all(&self) -> Seq<int> {
        self.all_components@
    }

    /// The archetype of what the system may write.
    pub closed spec fn writes(&self) -> Seq<int> {
        self.mut_components@
    }

    /// The generator for a system with the filter `filter`.
    pub fn new(filter: &ComponentFilter) -> (r: Self)
        ensures
            r.all() == in_ascending_order(picked(filter@, true, true)),
            r.writes() == in_ascending_order(picked(filter@, false, true)),
    {
        Self { all_components: filter.archetype(), mut_components: filter.write_archetype() }
    }

    /// Whether the system may make a query with the filter `query`: it may
    /// touch what the query reads, and may write what the query writes.
    pub fn allows(&self, query: &ComponentFilter) -> (r: bool)
        ensures
            r == (embeds(in_ascending_order(picked(query@, true, false)), self.all()) && embeds(
                in_ascending_order(picked(query@, false, true)),
                self.writes(),
            )),
    {
        query.read_archetype().subset_of(&self.all_components)
            && query.write_archetype().subset_of(&self.mut_components)
    }

    /// Constructs a new query. The query has to be one that is allowed
    /// by what the system requested, and nobody may be writing the row of
    /// entities of a descriptor that it visits. Other rows may be held.
    pub fn create<C>(&self, archetypes: &Archetypes<C>, query: &ComponentFilter) -> (r: Query)
        requires
            embeds(in_ascending_order(picked(query@, true, false)), self.all()),
            embeds(in_ascending_order(picked(query@, false, true)), self.writes()),
            can_visit(*archetypes, in_ascending_order(picked(query@, true, true))),
        ensures
            r.wf(),
            r.remaining() == visits(
                *archetypes,
                in_ascending_order(picked(query@, true, true)),
                archetypes.descriptors_view().len() as int,
            ),
            r.total() == r.remaining().len(),
    {
        Query::new(archetypes, query)
    }
}

/// What the sets still to visit hold, the last one first.
pub open spec fn waiting_places(sets: Seq<(int, int)>) -> Seq<(int, int)>
    decreases sets.len(),
{
    if sets.len() == 0 {
        Seq::empty()
    } else {
        row_places(sets.last().0, 0, sets.last().1) + waiting_places(sets.drop_last())
    }
}

impl Query {
    /// The descriptors still to visit, each with the length of its rows.
    pub closed spec fn waiting_sets(&self) -> Seq<(int, int)> {
        self.sets@.map_values(|s: QuerySet| (s.descriptor as int, s.len as int))
    }

    /// The places still to visit, in the order in which they are visited.
    pub closed spec fn remaining(&self) -> Seq<(int, int)> {
        match self.set {
            Some(s) => row_places(s.descriptor as int, self.idx as int, s.len as int) + waiting_places(
                self.waiting_sets(),
            ),
            None => Seq::empty(),
        }
    }

    /// The number of places that the query had to visit when it was made.
    pub closed spec fn total(&self) -> int {
        self.len as int
    }

    /// The place to visit next exists, and no descriptor to visit is empty.
    pub closed spec fn wf(&self) -> bool {
        &&& match self.set {
            Some(s) => self.idx < s.len,
            None => self.sets@.len() == 0,
        }
        &&& forall|k: int| 0 <= k < self.sets@.len() ==> (#[trigger] self.sets@[k]).len > 0
    }

    /// The query for `filter` over the registry.
    fn new<C>(archetypes: &Archetypes<C>, filter: &ComponentFilter) -> (r: Self)
        requires
            can_visit(*archetypes, in_ascending_order(picked(filter@, true, true))),
        ensures
            r.wf(),
            r.remaining() == visits(
                *archetypes,
                in_ascending_order(picked(filter@, true, true)),
                archetypes.descriptors_view().len() as int,
            ),
            r.total() == r.remaining().len(),
    {
        // Generate the archetype for the filter
        let archetype = filter.archetype();
        let ghost wanted = archetype@;
        let descriptors = archetypes.descriptors();
        let ghost n = descriptors@.len() as int;
        let mut len: usize = 0;
        let mut sets: Vec<QuerySet> = Vec::new();
        let mut i: usize = 0;
        proof {
            lemma_visits_grow(*archetypes, wanted, n, n);
        }
        while i < descriptors.len()
            invariant
                i <= n,
                n == descriptors@.len(),
                n == archetypes.descriptors_view().len(),
                crate::archetypes::descriptor_views(descriptors@) == archetypes.descriptors_view(),
                wanted == archetype@,
                can_visit(*archetypes, wanted),
                waiting_places(sets@.map_values(|s: QuerySet| (s.descriptor as int, s.len as int)))
                    == visits(*archetypes, wanted, i as int),
                len == visits(*archetypes, wanted, i as int).len(),
                forall|k: int| 0 <= k < sets@.len() ==> (#[trigger] sets@[k]).len > 0,
            decreases n - i,
        {
            let descriptor = &descriptors[i];
            let ghost d = archetypes.descriptors_view()[i as int];
            assert(d == descriptor@);
            proof {
                lemma_visits_grow(*archetypes, wanted, i + 1, n);
            }
            let ghost before = sets@.map_values(|s: QuerySet| (s.descriptor as int, s.len as int));
            // Must be compatible
            if archetype.subset_of(descriptor.archetype()) {
                let rows = archetypes.get_entity_buffers();
                if descriptor.entities() < rows.len() {
                    proof {
                        rows.lemma_counts_len();
                    }
                    // Grab entity storage
                    let count = rows.row_len(descriptor.entities());
                    // Must have non-zero entity count
                    if count != 0 {
                        len = len + count;
                        sets.push(QuerySet { descriptor: i, len: count });
                        proof {
                            let after = sets@.map_values(
                                |s: QuerySet| (s.descriptor as int, s.len as int),
                            );
                            assert(after.drop_last() =~= before);
                            assert(after.last() == (i as int, count as int));
                        }
                    } else {
                        assert(row_places(i as int, 0, 0) =~= Seq::<(int, int)>::empty());
                        assert(visits(*archetypes, wanted, i + 1) =~= visits(
                            *archetypes,
                            wanted,
                            i as int,
                        ));
                    }
                }
            }
            i += 1;
        }
        // Grab the starting set
        let ghost all = sets@.map_values(|s: QuerySet| (s.descriptor as int, s.len as int));
        let set = sets.pop();
        let r = Query { sets, set, idx: 0, len };
        proof {
            if all.len() > 0 {
                assert(r.waiting_sets() =~= all.drop_last());
            } else {
                assert(r.waiting_sets() =~= all);
            }
        }
        r
    }

    /// Whether the query had nothing to visit when it was made.
    pub fn is_empty(&self) -> (r: bool)
        ensures
            r == (self.total() == 0),
    {
        self.len == 0
    }

    /// The number of places that the query had to visit when it was made.
    pub fn len(&self) -> (r: usize)
        ensures
            r == self.total(),
    {
        self.len
    }

    /// The place to visit next, or `None` when every place has been visited.
    pub fn next(&mut self) -> (r: Option<QueryItem>)
        requires
            old(self).wf(),
        ensures
            final(self).wf(),
            final(self).total() == old(self).total(),
            match r {
                None => old(self).remaining().len() == 0 && final(self).remaining().len() == 0,
                Some(item) => old(self).remaining().len() > 0 && (
                item.descriptor as int,
                item.index as int,
                ) == old(self).remaining()[0] && final(self).remaining() == old(
                    self,
                ).remaining().skip(1),
            },
    {
        let ghost before = self.remaining();
        let ghost waiting = self.waiting_sets();
        // Check if we have a working set
        match self.set {
            Some(set) => {
                let item = QueryItem { descriptor: set.descriptor, index: self.idx };
                let ghost here = row_places(set.descriptor as int, self.idx as int, set.len as int);
                // Move to the next set if the current is invalid
                self.idx += 1;
                if self.idx >= set.len {
                    self.set = self.sets.pop();
                    self.idx = 0;
                    proof {
                        assert(here =~= seq![(item.descriptor as int, item.index as int)]);
                        if waiting.len() > 0 {
                            assert(self.waiting_sets() =~= waiting.drop_last());
                            assert(self.remaining() =~= waiting_places(waiting));
                        } else {
                            assert(waiting_places(waiting) =~= Seq::<(int, int)>::empty());
                        }
                        assert(before.skip(1) =~= waiting_places(waiting));
                    }
                } else {
                    proof {
                        let there = row_places(set.descriptor as int, self.idx as int, set.len as int);
                        assert(here.skip(1) =~= there);
                        assert(before.skip(1) =~= there + waiting_places(waiting));
                    }
                }
                Some(item)
            },
            None => None,
        }
    }
}

/// Every place that a query visits is a place of an entity: at an index of
/// the row of entities of a descriptor whose archetype holds what is wanted.
pub proof fn lemma_visits_entities<C>(
    archetypes: Archetypes<C>,
    wanted: Seq<int>,
    upto: int,
    k: int,
)
    requires
        0 <= upto <= archetypes.descriptors_view().len(),
        0 <= k < visits(archetypes, wanted, upto).len(),
    ensures
        ({
            let (d, i) = visits(archetypes, wanted, upto)[k];
            &&& 0 <= d < upto
            &&& embeds(wanted, archetypes.descriptors_view()[d].archetype)
            &&& archetypes.descriptors_view()[d].entities < archetypes.entity_rows().len()
            &&& 0 <= i < archetypes.entity_row(archetypes.descriptors_view()[d]).len()
        }),
    decreases upto,
{
    let d = archetypes.descriptors_view()[upto - 1];
    let rest = visits(archetypes, wanted, upto - 1);
    if embeds(wanted, d.archetype) && d.entities < archetypes.entity_rows().len() {
        let here = row_places(upto - 1, 0, archetypes.entity_row(d).len() as int);
        if k >= here.len() {
            lemma_visits_entities(archetypes, wanted, upto - 1, k - here.len());
            assert((here + rest)[k] == rest[k - here.len()]);
        } else {
            assert((here + rest)[k] == here[k]);
        }
    } else {
        lemma_visits_entities(archetypes, wanted, upto - 1, k);
    }
}

/// The places visited among the first `upto` descriptors are among those
/// visited among the first `n`.
pub proof fn lemma_visits_grow<C>(archetypes: Archetypes<C>, wanted: Seq<int>, upto: int, n: int)
    requires
        0 <= upto <= n,
    ensures
        visits(archetypes, wanted, upto).len() <= visits(archetypes, wanted, n).len(),
    decreases n - upto,
{
    if upto < n {
        lemma_visits_grow(archetypes, wanted, upto + 1, n);
    }
}

} // verus!
