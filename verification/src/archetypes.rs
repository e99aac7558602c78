//! The registry of archetypes: where the components and the entities of each
//! archetype are kept.

use crate::archetype::{strictly_ascending, Archetype};
use crate::buffer::DataBuffers;
use crate::entity::Entity;
use crate::prw_lock::{PrwReadHandle, PrwWriteHandle, EXCLUSIVE};
use crate::type_key::{id_matches, type_rank};
use std::any::TypeId;
use vstd::prelude::*;

verus! {

/// Unique ID for an archetype descriptor.
#[derive(Debug, Copy, Clone, Hash)]
pub struct ArchetypeDescriptorId(u32);

/// Unique ID for a `DataBuffers` object.
#[derive(Debug, Copy, Clone, Hash)]
pub struct DataBuffersId(u32);

impl View for ArchetypeDescriptorId {
    type V = int;

    closed spec fn view(&self) -> int {
        self.0 as int
    }
}

impl View for DataBuffersId {
    type V = int;

    closed spec fn view(&self) -> int {
        self.0 as int
    }
}

impl Default for ArchetypeDescriptorId {
    fn default() -> (r: Self)
        ensures
            r@ == 0,
    {
        ArchetypeDescriptorId(0)
    }
}

impl Default for DataBuffersId {
    fn default() -> (r: Self)
        ensures
            r@ == 0,
    {
        DataBuffersId(0)
    }
}

impl From<u32> for ArchetypeDescriptorId {
    fn from(item: u32) -> (r: Self)
        ensures
            r@ == item,
    {
        ArchetypeDescriptorId(item)
    }
}

impl vstd::std_specs::convert::FromSpecImpl<u32> for ArchetypeDescriptorId {
    open spec fn obeys_from_spec() -> bool {
        true
    }

    closed spec fn from_spec(item: u32) -> Self {
        ArchetypeDescriptorId(item)
    }
}

impl From<usize> for ArchetypeDescriptorId {
    /// The ID for an index: its lower 32 bits.
    fn from(item: usize) -> (r: Self)
        ensures
            item <= u32::MAX ==> r@ == item,
    {
        ArchetypeDescriptorId(#[verifier::truncate] (item as u32))
    }
}

impl vstd::std_specs::convert::FromSpecImpl<usize> for ArchetypeDescriptorId {
    open spec fn obeys_from_spec() -> bool {
        true
    }

    closed spec fn from_spec(item: usize) -> Self {
        ArchetypeDescriptorId(item as u32)
    }
}

impl From<ArchetypeDescriptorId> for u32 {
    fn from(item: ArchetypeDescriptorId) -> (r: u32)
        ensures
            r == item@,
    {
        item.0
    }
}

impl vstd::std_specs::convert::FromSpecImpl<ArchetypeDescriptorId> for u32 {
    open spec fn obeys_from_spec() -> bool {
        true
    }

    closed spec fn from_spec(item: ArchetypeDescriptorId) -> u32 {
        item.0
    }
}

impl From<ArchetypeDescriptorId> for usize {
    fn from(item: ArchetypeDescriptorId) -> (r: usize)
        ensures
            r == item@,
    {
        item.0 as usize
    }
}

impl vstd::std_specs::convert::FromSpecImpl<ArchetypeDescriptorId> for usize {
    open spec fn obeys_from_spec() -> bool {
        true
    }

    closed spec fn from_spec(item: ArchetypeDescriptorId) -> usize {
        item.0 as usize
    }
}

impl From<u32> for DataBuffersId {
    fn from(item: u32) -> (r: Self)
        ensures
            r@ == item,
    {
        DataBuffersId(item)
    }
}

impl vstd::std_specs::convert::FromSpecImpl<u32> for DataBuffersId {
    open spec fn obeys_from_spec() -> bool {
        true
    }

    closed spec fn from_spec(item: u32) -> Self {
        DataBuffersId(item)
    }
}

impl From<usize> for DataBuffersId {
    /// The ID for an index: its lower 32 bits.
    fn from(item: usize) -> (r: Self)
        ensures
            item <= u32::MAX ==> r@ == item,
    {
        DataBuffersId(#[verifier::truncate] (item as u32))
    }
}

impl vstd::std_specs::convert::FromSpecImpl<usize> for DataBuffersId {
    open spec fn obeys_from_spec() -> bool {
        true
    }

    closed spec fn from_spec(item: usize) -> Self {
        DataBuffersId(item as u32)
    }
}

impl From<DataBuffersId> for u32 {
    fn from(item: DataBuffersId) -> (r: u32)
        ensures
            r == item@,
    {
        item.0
    }
}

impl vstd::std_specs::convert::FromSpecImpl<DataBuffersId> for u32 {
    open spec fn obeys_from_spec() -> bool {
        true
    }

    closed spec fn from_spec(item: DataBuffersId) -> u32 {
        item.0
    }
}

impl From<DataBuffersId> for usize {
    fn from(item: DataBuffersId) -> (r: usize)
        ensures
            r == item@,
    {
        item.0 as usize
    }
}

impl vstd::std_specs::convert::FromSpecImpl<DataBuffersId> for usize {
    open spec fn obeys_from_spec() -> bool {
        true
    }

    closed spec fn from_spec(item: DataBuffersId) -> usize {
        item.0 as usize
    }
}

/// Describes where the data for an archetype exists within the `Archetypes` object.
pub struct ArchetypeDescriptor {
    /// The actual archetype being described.
    archetype: Archetype,
    /// A one-to-one mapping between the component type IDs within the archetype and the index
    /// of the row that holds the components for this archetype: entry `k`
    /// is the row of the `k`-th type of the archetype in ascending order.
    component_map: Vec<usize>,
    /// Index of the entity data buffer.
    entities: usize,
}

/// What a descriptor holds: the ranks of the archetype's component types,
/// the row of each of them, and the row of the entities.
pub struct DescriptorView {
    pub archetype: Seq<int>,
    pub component_map: Seq<usize>,
    pub entities: usize,
}

impl View for ArchetypeDescriptor {
    type V = DescriptorView;

    closed spec fn view(&self) -> DescriptorView {
        DescriptorView {
            archetype: self.archetype@,
            component_map: self.component_map@,
            entities: self.entities,
        }
    }
}

impl ArchetypeDescriptor {
    /// The descriptor of `archetype` whose components are in the rows
    /// `component_map` and whose entities are in the row `entities`.
    pub fn new(archetype: Archetype, component_map: Vec<usize>, entities: usize) -> (r: Self)
        ensures
            r@ == (DescriptorView {
                archetype: archetype@,
                component_map: component_map@,
                entities,
            }),
    {
        ArchetypeDescriptor { archetype, component_map, entities }
    }

    pub fn archetype(&self) -> (r: &Archetype)
        ensures
            r@ == self@.archetype,
    {
        &self.archetype
    }

    pub fn component_map(&self) -> (r: &[usize])
        ensures
            r@ == self@.component_map,
    {
        self.component_map.as_slice()
    }

    pub fn entities(&self) -> (r: usize)
        ensures
            r == self@.entities,
    {
        self.entities
    }
}

/// The views of a sequence of descriptors.
pub open spec fn descriptor_views(s: Seq<ArchetypeDescriptor>) -> Seq<DescriptorView> {
    s.map_values(|d: ArchetypeDescriptor| d@)
}

/// The index of the last descriptor of `archetype` among the first `upto`;
/// -1 where none of them describes it.
pub open spec fn last_of(s: Seq<DescriptorView>, archetype: Seq<int>, upto: int) -> int
    decreases upto,
{
    if upto <= 0 {
        -1
    } else if s[upto - 1].archetype == archetype {
        upto - 1
    } else {
        last_of(s, archetype, upto - 1)
    }
}

/// The index of the first occurrence of `x` among the first `upto` ranks;
/// -1 where it does not occur.
pub open spec fn index_of(ranks: Seq<int>, x: int, upto: int) -> int
    decreases upto,
{
    if upto <= 0 {
        -1
    } else {
        let below = index_of(ranks, x, upto - 1);
        if below >= 0 {
            below
        } else if ranks[upto - 1] == x {
            upto - 1
        } else {
            -1
        }
    }
}

/// `index_of` finds an occurrence where there is one.
pub proof fn lemma_index_of(ranks: Seq<int>, x: int, upto: int)
    requires
        0 <= upto <= ranks.len(),
    ensures
        -1 <= index_of(ranks, x, upto) < upto,
        index_of(ranks, x, upto) >= 0 ==> ranks[index_of(ranks, x, upto)] == x,
        index_of(ranks, x, upto) == -1 ==> forall|i: int| 0 <= i < upto ==> ranks[i] != x,
    decreases upto,
{
    if upto > 0 {
        lemma_index_of(ranks, x, upto - 1);
    }
}

/// Once found, the first occurrence stays the first.
pub proof fn lemma_index_of_stable(ranks: Seq<int>, x: int, from: int, upto: int)
    requires
        0 <= from <= upto <= ranks.len(),
        index_of(ranks, x, from) >= 0,
    ensures
        index_of(ranks, x, upto) == index_of(ranks, x, from),
    decreases upto - from,
{
    if from < upto {
        lemma_index_of_stable(ranks, x, from, upto - 1);
    }
}

/// Two descriptors share no row: their entities are in different rows, and
/// where they have a component type in common, its components are too.
pub open spec fn apart(d: DescriptorView, e: DescriptorView) -> bool {
    &&& d.entities != e.entities
    &&& forall|k: int, l: int|
        0 <= k < d.archetype.len() && 0 <= l < e.archetype.len() && #[trigger] d.archetype[k]
            == #[trigger] e.archetype[l] ==> d.component_map[k] != e.component_map[l]
}

/// The rows `new` hold every row of `old` as it was; rows may have been
/// added behind them.
pub open spec fn rows_extend<C>(old: Seq<Seq<Seq<C>>>, new: Seq<Seq<Seq<C>>>) -> bool {
    &&& old.len() <= new.len()
    &&& forall|b: int| 0 <= b < old.len() ==> old[b].len() <= (#[trigger] new[b]).len()
    &&& forall|b: int, r: int|
        0 <= b < old.len() && 0 <= r < old[b].len() ==> #[trigger] new[b][r] == old[b][r]
}

/// The number of rows that container `b` had in `old`; none where `old` had
/// no such container.
pub open spec fn rows_before<C>(old: Seq<Seq<Seq<C>>>, b: int) -> int {
    if 0 <= b < old.len() {
        old[b].len() as int
    } else {
        0
    }
}

/// A rank that has a place among the first ranks keeps it when ranks are
/// added behind them.
pub proof fn lemma_index_of_prefix(old: Seq<int>, new: Seq<int>, x: int)
    requires
        old.len() <= new.len(),
        new.take(old.len() as int) == old,
        index_of(old, x, old.len() as int) >= 0,
    ensures
        index_of(new, x, new.len() as int) == index_of(old, x, old.len() as int),
{
    lemma_index_of_same(old, new, x, old.len() as int);
    lemma_index_of_stable(new, x, old.len() as int, new.len() as int);
}

/// `index_of` depends on the ranks below `upto` only.
pub proof fn lemma_index_of_same(old: Seq<int>, new: Seq<int>, x: int, upto: int)
    requires
        0 <= upto <= old.len() <= new.len(),
        new.take(old.len() as int) == old,
    ensures
        index_of(new, x, upto) == index_of(old, x, upto),
    decreases upto,
{
    if upto > 0 {
        lemma_index_of_same(old, new, x, upto - 1);
        assert(new.take(old.len() as int)[upto - 1] == new[upto - 1]);
    }
}

/// A handle on a row of components: to read it, or to read and change it.
pub enum RowHandle<C> {
    Read(PrwReadHandle<Vec<C>>),
    Write(PrwWriteHandle<Vec<C>>),
}

/// The count of accesses of a row after it has been taken: one reader more,
/// or the writer.
pub open spec fn count_taken(count: u32, mutable: bool) -> int {
    if mutable {
        EXCLUSIVE as int
    } else {
        count + 1
    }
}

/// The count of accesses of a row after it has been given back: one reader
/// less, or nobody after the writer.
pub open spec fn count_given_back(count: u32, mutable: bool) -> int {
    if mutable {
        0
    } else {
        count - 1
    }
}

/// Holds all of the archetype containers used in a world. `C` is the type of
/// a component value as it is stored.
pub struct Archetypes<C> {
    /// All currently registered archetype descriptors.
    archetype_descriptors: Vec<ArchetypeDescriptor>,
    /// The containers for component data, one per component type.
    buffers: Vec<DataBuffers<C>>,
    /// The component type of each container.
    buffer_types: Vec<TypeId>,
    /// Data buffers for entities.
    entities: DataBuffers<Entity>,
}

impl<C> Default for Archetypes<C> {
    fn default() -> (r: Self)
        ensures
            r.descriptors_view() == Seq::<DescriptorView>::empty(),
            r.buffer_ranks() == Seq::<int>::empty(),
            r.component_buffers() == Seq::<DataBuffers<C>>::empty(),
            r.entity_rows() == Seq::<Seq<Entity>>::empty(),
            r.wf(),
            r.all_idle(),
    {
        Archetypes::new()
    }
}

impl<C> Archetypes<C> {
    /// The registered descriptors, in the order of registration.
    pub closed spec fn descriptors_view(&self) -> Seq<DescriptorView> {
        descriptor_views(self.archetype_descriptors@)
    }

    /// The ranks of the component types that have a container, in the order
    /// in which the containers were created.
    pub closed spec fn buffer_ranks(&self) -> Seq<int> {
        self.buffer_types@.map_values(|t: TypeId| type_rank(t))
    }

    /// The containers for component data, in the order of `buffer_ranks`.
    pub closed spec fn component_buffers(&self) -> Seq<DataBuffers<C>> {
        self.buffers@
    }

    /// The container for entities.
    pub closed spec fn entity_buffers(&self) -> DataBuffers<Entity> {
        self.entities
    }

    /// The rows of each container, in the order of `buffer_ranks`.
    pub open spec fn buffer_rows(&self) -> Seq<Seq<Seq<C>>> {
        self.component_buffers().map_values(|b: DataBuffers<C>| b@)
    }

    /// The rows of entities.
    pub open spec fn entity_rows(&self) -> Seq<Seq<Entity>> {
        self.entity_buffers()@
    }

    /// Every container has its component type, and every descriptor an
    /// index that fits in 32 bits.
    pub closed spec fn wf(&self) -> bool {
        &&& self.buffers@.len() == self.buffer_types@.len()
        &&& self.archetype_descriptors@.len() <= u32::MAX + 1
    }

    /// No row of any container is held by anybody.
    pub open spec fn all_idle(&self) -> bool {
        &&& self.entity_buffers().all_idle()
        &&& forall|b: int|
            0 <= b < self.component_buffers().len() ==> (
            #[trigger] self.component_buffers()[b]).all_idle()
    }

    /// In a well-formed registry every container has its component type.
    pub proof fn lemma_wf(&self)
        requires
            self.wf(),
        ensures
            self.buffer_rows().len() == self.buffer_ranks().len(),
            self.component_buffers().len() == self.buffer_ranks().len(),
    {
    }

    /// The position of the container of the component type of rank `x`;
    /// -1 where it has none.
    pub open spec fn buffer_of(&self, x: int) -> int {
        index_of(self.buffer_ranks(), x, self.buffer_ranks().len() as int)
    }

    /// The row that holds, for descriptor `d`, the components of its `k`-th
    /// component type.
    pub open spec fn component_row(&self, d: DescriptorView, k: int) -> Seq<C> {
        self.buffer_rows()[self.buffer_of(d.archetype[k])][d.component_map[k] as int]
    }

    /// The row that holds the entities of descriptor `d`.
    pub open spec fn entity_row(&self, d: DescriptorView) -> Seq<Entity> {
        self.entity_rows()[d.entities as int]
    }

    /// The `k`-th component type of descriptor `d` has a container, and the
    /// row that `d` names in it exists.
    pub open spec fn has_row(&self, d: DescriptorView, k: int) -> bool {
        &&& 0 <= self.buffer_of(d.archetype[k]) < self.buffer_rows().len()
        &&& d.component_map[k] < self.buffer_rows()[self.buffer_of(d.archetype[k])].len()
    }

    /// Descriptor `d` fits the registry: its archetype is valid, each of its
    /// component types has its row, the entities have theirs, and all these
    /// rows are equally long.
    pub open spec fn describes(&self, d: DescriptorView) -> bool {
        &&& strictly_ascending(d.archetype)
        &&& d.component_map.len() == d.archetype.len()
        &&& d.entities < self.entity_rows().len()
        &&& forall|k: int|
            0 <= k < d.archetype.len() ==> #[trigger] self.has_row(d, k) && self.component_row(
                d,
                k,
            ).len() == self.entity_row(d).len()
    }

    /// Every registered descriptor fits the registry, and no two of them
    /// share a row.
    pub open spec fn populated(&self) -> bool {
        &&& forall|i: int|
            0 <= i < self.descriptors_view().len() ==> self.describes(
                #[trigger] self.descriptors_view()[i],
            )
        &&& forall|i: int, j: int|
            0 <= i < j < self.descriptors_view().len() ==> apart(
                #[trigger] self.descriptors_view()[i],
                #[trigger] self.descriptors_view()[j],
            )
    }

    pub fn new() -> (r: Self)
        ensures
            r.descriptors_view() == Seq::<DescriptorView>::empty(),
            r.buffer_ranks() == Seq::<int>::empty(),
            r.component_buffers() == Seq::<DataBuffers<C>>::empty(),
            r.entity_rows() == Seq::<Seq<Entity>>::empty(),
            r.wf(),
            r.all_idle(),
    {
        let r = Archetypes {
            archetype_descriptors: Vec::new(),
            buffers: Vec::new(),
            buffer_types: Vec::new(),
            entities: DataBuffers::default(),
        };
        assert(r.descriptors_view() =~= Seq::<DescriptorView>::empty());
        assert(r.buffer_ranks() =~= Seq::<int>::empty());
        assert(r.component_buffers() =~= Seq::<DataBuffers<C>>::empty());
        r
    }

    /// The registered descriptors, in the order of registration.
    pub fn descriptors(&self) -> (r: &[ArchetypeDescriptor])
        ensures
            descriptor_views(r@) == self.descriptors_view(),
    {
        self.archetype_descriptors.as_slice()
    }

    /// Add a new archetype descriptor to the container and return a unique ID for it:
    /// its index in the order of registration, which has to fit in 32 bits.
    pub fn add_archetype(&mut self, descriptor: ArchetypeDescriptor) -> (r: ArchetypeDescriptorId)
        requires
            old(self).wf(),
            old(self).descriptors_view().len() <= u32::MAX,
        ensures
            final(self).wf(),
            r@ == old(self).descriptors_view().len(),
            final(self).descriptors_view() == old(self).descriptors_view().push(descriptor@),
            final(self).buffer_ranks() == old(self).buffer_ranks(),
            final(self).component_buffers() == old(self).component_buffers(),
            final(self).entity_buffers() == old(self).entity_buffers(),
    {
        let id = ArchetypeDescriptorId::from(self.archetype_descriptors.len());
        self.archetype_descriptors.push(descriptor);
        assert(self.descriptors_view() =~= old(self).descriptors_view().push(descriptor@));
        id
    }

    /// Get a references to an archetype descriptor and its ID by the archetype it describes:
    /// the descriptor that was registered last for it.
    ///
    /// Returns `None` if a descriptor matching the provided archetype doesn't exist.
    pub fn get_archetype_descriptor(&self, archetype: &Archetype) -> (r: Option<
        (&ArchetypeDescriptor, ArchetypeDescriptorId),
    >)
        requires
            self.wf(),
        ensures
            match r {
                None => last_of(
                    self.descriptors_view(),
                    archetype@,
                    self.descriptors_view().len() as int,
                ) == -1,
                Some((d, id)) => id@ == last_of(
                    self.descriptors_view(),
                    archetype@,
                    self.descriptors_view().len() as int,
                ) && 0 <= id@ < self.descriptors_view().len() && d@
                    == self.descriptors_view()[id@] && d@.archetype == archetype@,
            },
    {
        let ghost s = self.descriptors_view();
        let mut i: usize = self.archetype_descriptors.len();
        while i > 0
            invariant
                i <= self.archetype_descriptors@.len(),
                s == self.descriptors_view(),
                s.len() <= u32::MAX + 1,
                last_of(s, archetype@, s.len() as int) == last_of(s, archetype@, i as int),
            decreases i,
        {
            assert(s[i - 1] == self.archetype_descriptors@[i - 1]@);
            if self.archetype_descriptors[i - 1].archetype.same_types(archetype) {
                let d = &self.archetype_descriptors[i - 1];
                return Some((d, ArchetypeDescriptorId::from(i - 1)));
            }
            i -= 1;
        }
        None
    }

    pub fn get_entity_buffers(&self) -> (r: &DataBuffers<Entity>)
        ensures
            *r == self.entity_buffers(),
    {
        &self.entities
    }

    pub fn get_entity_buffers_mut(&mut self) -> (r: &mut DataBuffers<Entity>)
        ensures
            *r == old(self).entity_buffers(),
            final(self).entity_buffers() == *final(r),
            final(self).descriptors_view() == old(self).descriptors_view(),
            final(self).buffer_ranks() == old(self).buffer_ranks(),
            final(self).component_buffers() == old(self).component_buffers(),
            final(self).wf() == old(self).wf(),
    {
        &mut self.entities
    }

    /// The position of the container for the component type `id`.
    fn find_buffers(&self, id: &TypeId) -> (r: Option<usize>)
        requires
            self.wf(),
        ensures
            match r {
                None => index_of(self.buffer_ranks(), type_rank(*id), self.buffer_ranks().len() as int)
                    == -1,
                Some(b) => b == index_of(
                    self.buffer_ranks(),
                    type_rank(*id),
                    self.buffer_ranks().len() as int,
                ) && b < self.buffer_ranks().len(),
            },
    {
        let ghost ranks = self.buffer_ranks();
        let ghost x = type_rank(*id);
        let mut i: usize = 0;
        while i < self.buffer_types.len()
            invariant
                i <= self.buffer_types@.len(),
                ranks == self.buffer_ranks(),
                x == type_rank(*id),
                index_of(ranks, x, i as int) == -1,
            decreases self.buffer_types.len() - i,
        {
            assert(ranks[i as int] == type_rank(self.buffer_types@[i as int]));
            if id_matches(&self.buffer_types[i], id) {
                proof {
                    lemma_index_of_stable(ranks, x, i + 1, ranks.len() as int);
                }
                return Some(i);
            }
            i += 1;
        }
        None
    }

    /// Get the data buffers for a component type.
    ///
    /// Returns `None` if data buffers for the component don't exist.
    pub fn get_component_buffers(&self, id: &TypeId) -> (r: Option<&DataBuffers<C>>)
        requires
            self.wf(),
        ensures
            match r {
                None => !self.buffer_ranks().contains(type_rank(*id)),
                Some(b) => self.buffer_ranks().contains(type_rank(*id)) && *b
                    == self.component_buffers()[index_of(
                    self.buffer_ranks(),
                    type_rank(*id),
                    self.buffer_ranks().len() as int,
                )],
            },
    {
        proof {
            lemma_index_of(self.buffer_ranks(), type_rank(*id), self.buffer_ranks().len() as int);
        }
        match self.find_buffers(id) {
            Some(b) => Some(&self.buffers[b]),
            None => None,
        }
    }

    /// Get mutable access to the data buffers for a component type.
    ///
    /// Returns `None` if data buffers for the component don't exist.
    pub fn get_component_buffers_mut(&mut self, id: &TypeId) -> (r: Option<&mut DataBuffers<C>>)
        requires
            old(self).wf(),
        ensures
            final(self).wf(),
            final(self).descriptors_view() == old(self).descriptors_view(),
            final(self).buffer_ranks() == old(self).buffer_ranks(),
            final(self).entity_buffers() == old(self).entity_buffers(),
            match r {
                None => !old(self).buffer_ranks().contains(type_rank(*id))
                    && final(self).component_buffers() == old(self).component_buffers(),
                Some(b) => old(self).buffer_ranks().contains(type_rank(*id))
                    && *b == old(self).component_buffers()[index_of(
                    old(self).buffer_ranks(),
                    type_rank(*id),
                    old(self).buffer_ranks().len() as int,
                )] && final(self).component_buffers() == old(self).component_buffers().update(
                    index_of(
                        old(self).buffer_ranks(),
                        type_rank(*id),
                        old(self).buffer_ranks().len() as int,
                    ),
                    *final(b),
                ),
            },
    {
        proof {
            lemma_index_of(self.buffer_ranks(), type_rank(*id), self.buffer_ranks().len() as int);
        }
        match self.find_buffers(id) {
            Some(b) => {
                let r = &mut self.buffers[b];
                Some(r)
            },
            None => None,
        }
    }

    /// The entity at index `index` of the rows of descriptor `descriptor`.
    /// Nobody may be writing the row of entities.
    pub fn entity_at(&self, descriptor: usize, index: usize) -> (r: Entity)
        requires
            self.wf(),
            descriptor < self.descriptors_view().len(),
            self.descriptors_view()[descriptor as int].entities < self.entity_rows().len(),
            index < self.entity_row(self.descriptors_view()[descriptor as int]).len(),
            self.entity_buffers().counts()[self.descriptors_view()[descriptor as int].entities as int]
                != crate::prw_lock::EXCLUSIVE,
        ensures
            r == self.entity_row(self.descriptors_view()[descriptor as int])[index as int],
    {
        assert(self.descriptors_view()[descriptor as int]
            == self.archetype_descriptors@[descriptor as int]@);
        let row = self.archetype_descriptors[descriptor].entities;
        self.entities.peek_row(row)[index]
    }

    /// The component at index `index` of the row that holds, for descriptor
    /// `descriptor`, the components of its `k`-th component type. Nobody may
    /// be writing that row.
    pub fn component_at(&self, descriptor: usize, k: usize, index: usize) -> (r: &C)
        requires
            self.wf(),
            descriptor < self.descriptors_view().len(),
            k < self.descriptors_view()[descriptor as int].archetype.len(),
            k < self.descriptors_view()[descriptor as int].component_map.len(),
            self.has_row(self.descriptors_view()[descriptor as int], k as int),
            index < self.component_row(self.descriptors_view()[descriptor as int], k as int).len(),
            self.component_buffers()[self.buffer_of(
                self.descriptors_view()[descriptor as int].archetype[k as int],
            )].counts()[self.descriptors_view()[descriptor as int].component_map[k as int] as int]
                != crate::prw_lock::EXCLUSIVE,
        ensures
            *r
                == self.component_row(self.descriptors_view()[descriptor as int], k as int)[index as int],
    {
        let ghost d = self.descriptors_view()[descriptor as int];
        assert(d == self.archetype_descriptors@[descriptor as int]@);
        let entry = &self.archetype_descriptors[descriptor];
        let ty = entry.archetype().get(k);
        let row = entry.component_map()[k];
        proof {
            lemma_index_of(self.buffer_ranks(), type_rank(ty), self.buffer_ranks().len() as int);
        }
        let b = self.find_buffers(&ty).unwrap();
        &self.buffers[b].peek_row(row)[index]
    }

    /// No row of entities is being written.
    pub open spec fn entities_readable(&self) -> bool {
        forall|e: int|
            0 <= e < self.entity_rows().len() ==> #[trigger] self.entity_buffers().counts()[e]
                != EXCLUSIVE
    }

    /// The number of entities in the rows of the first `upto` descriptors.
    pub open spec fn population(&self, upto: int) -> nat
        decreases upto,
    {
        if upto <= 0 {
            0
        } else {
            let d = self.descriptors_view()[upto - 1];
            self.population(upto - 1) + if d.entities < self.entity_rows().len() {
                self.entity_row(d).len()
            } else {
                0
            }
        }
    }

    /// The entities of the registry can be counted in a `usize`.
    pub open spec fn countable(&self) -> bool {
        self.population(self.descriptors_view().len() as int) <= usize::MAX
    }

    /// Whether no row of entities is being written and the entities of the
    /// registry can be counted: what a system's queries need.
    pub fn can_be_queried(&self) -> (r: bool)
        ensures
            r == (self.entities_readable() && self.countable()),
    {
        let rows = self.entities.len();
        let mut e: usize = 0;
        while e < rows
            invariant
                e <= rows,
                rows == self.entity_rows().len(),
                rows == self.entity_buffers().counts().len(),
                forall|k: int| 0 <= k < e ==> #[trigger] self.entity_buffers().counts()[k] != EXCLUSIVE,
            decreases rows - e,
        {
            if self.entities.access_state(e) == EXCLUSIVE {
                return false;
            }
            e += 1;
        }
        let n = self.archetype_descriptors.len();
        let mut total: usize = 0;
        let mut i: usize = 0;
        while i < n
            invariant
                i <= n,
                n == self.descriptors_view().len(),
                rows == self.entity_rows().len(),
                self.entities_readable(),
                total == self.population(i as int),
            decreases n - i,
        {
            assert(self.descriptors_view()[i as int] == self.archetype_descriptors@[i as int]@);
            let row = self.archetype_descriptors[i].entities;
            if row < rows {
                let count = self.entities.row_len(row);
                if count > usize::MAX - total {
                    proof {
                        self.lemma_population_grows(i + 1, n as int);
                    }
                    return false;
                }
                total = total + count;
            }
            i += 1;
        }
        true
    }

    /// The first descriptors hold no more entities than all of them.
    pub proof fn lemma_population_grows(&self, upto: int, n: int)
        requires
            0 <= upto <= n,
        ensures
            self.population(upto) <= self.population(n),
        decreases n - upto,
    {
        if upto < n {
            self.lemma_population_grows(upto + 1, n);
        }
    }

    /// The counts of accesses of the rows of each container, in the order
    /// of `buffer_ranks`.
    pub open spec fn row_counts(&self) -> Seq<Seq<u32>> {
        self.component_buffers().map_values(|b: DataBuffers<C>| b.counts())
    }

    /// The count of accesses of the row that holds, for descriptor `d`, the
    /// components of its `k`-th component type.
    pub open spec fn row_count(&self, d: DescriptorView, k: int) -> u32 {
        self.row_counts()[self.buffer_of(d.archetype[k])][d.component_map[k] as int]
    }

    /// Takes the row that holds, for descriptor `descriptor`, the
    /// components of its `k`-th component type: to read it, or, where
    /// `mutable` is set, to read and change it. Nobody may be writing the
    /// row, and nobody may hold it at all where it is taken to change it.
    pub fn hold_row(&mut self, descriptor: usize, k: usize, mutable: bool) -> (r: RowHandle<C>)
        requires
            old(self).wf(),
            descriptor < old(self).descriptors_view().len(),
            k < old(self).descriptors_view()[descriptor as int].archetype.len(),
            k < old(self).descriptors_view()[descriptor as int].component_map.len(),
            old(self).has_row(old(self).descriptors_view()[descriptor as int], k as int),
            if mutable {
                old(self).row_count(old(self).descriptors_view()[descriptor as int], k as int) == 0
            } else {
                old(self).row_count(old(self).descriptors_view()[descriptor as int], k as int)
                    != EXCLUSIVE
            },
        ensures
            final(self).wf(),
            final(self).descriptors_view() == old(self).descriptors_view(),
            final(self).buffer_ranks() == old(self).buffer_ranks(),
            final(self).buffer_rows() == old(self).buffer_rows(),
            final(self).entity_buffers() == old(self).entity_buffers(),
            mutable == (r is Write),
            final(self).row_counts() == old(self).row_counts().update(
                old(self).buffer_of(old(self).descriptors_view()[descriptor as int].archetype[k as int]),
                old(self).row_counts()[old(self).buffer_of(
                    old(self).descriptors_view()[descriptor as int].archetype[k as int],
                )].update(
                    old(self).descriptors_view()[descriptor as int].component_map[k as int] as int,
                    count_taken(
                        old(self).row_count(
                            old(self).descriptors_view()[descriptor as int],
                            k as int,
                        ),
                        mutable,
                    ) as u32,
                ),
            ),
    {
        let ghost d = self.descriptors_view()[descriptor as int];
        let ghost b = self.buffer_of(d.archetype[k as int]);
        let ghost rows0 = self.buffer_rows();
        let ghost counts0 = self.row_counts();
        assert(d == self.archetype_descriptors@[descriptor as int]@);
        let entry = &self.archetype_descriptors[descriptor];
        let ty = entry.archetype().get(k);
        let row = entry.component_map()[k];
        proof {
            lemma_index_of(self.buffer_ranks(), type_rank(ty), self.buffer_ranks().len() as int);
        }
        let buffers = self.get_component_buffers_mut(&ty).unwrap();
        proof {
            buffers.lemma_counts_len();
        }
        let handle = if mutable {
            RowHandle::Write(buffers.get_mut(row))
        } else {
            RowHandle::Read(buffers.get(row))
        };
        proof {
            assert(self.buffer_rows() =~= rows0);
            assert(self.row_counts() =~= counts0.update(
                b,
                counts0[b].update(row as int, count_taken(counts0[b][row as int], mutable) as u32),
            ));
        }
        handle
    }

    /// Gives a row back that was taken with `hold_row`.
    pub fn release_row(&mut self, descriptor: usize, k: usize, handle: RowHandle<C>)
        requires
            old(self).wf(),
            descriptor < old(self).descriptors_view().len(),
            k < old(self).descriptors_view()[descriptor as int].archetype.len(),
            k < old(self).descriptors_view()[descriptor as int].component_map.len(),
            old(self).has_row(old(self).descriptors_view()[descriptor as int], k as int),
            if handle is Write {
                old(self).row_count(old(self).descriptors_view()[descriptor as int], k as int)
                    == EXCLUSIVE
            } else {
                0 < old(self).row_count(old(self).descriptors_view()[descriptor as int], k as int)
                    < EXCLUSIVE
            },
        ensures
            final(self).wf(),
            final(self).descriptors_view() == old(self).descriptors_view(),
            final(self).buffer_ranks() == old(self).buffer_ranks(),
            final(self).buffer_rows() == old(self).buffer_rows(),
            final(self).entity_buffers() == old(self).entity_buffers(),
            final(self).row_counts() == old(self).row_counts().update(
                old(self).buffer_of(old(self).descriptors_view()[descriptor as int].archetype[k as int]),
                old(self).row_counts()[old(self).buffer_of(
                    old(self).descriptors_view()[descriptor as int].archetype[k as int],
                )].update(
                    old(self).descriptors_view()[descriptor as int].component_map[k as int] as int,
                    count_given_back(
                        old(self).row_count(
                            old(self).descriptors_view()[descriptor as int],
                            k as int,
                        ),
                        handle is Write,
                    ) as u32,
                ),
            ),
    {
        let ghost d = self.descriptors_view()[descriptor as int];
        let ghost b = self.buffer_of(d.archetype[k as int]);
        let ghost rows0 = self.buffer_rows();
        let ghost counts0 = self.row_counts();
        let ghost mutable = handle is Write;
        assert(d == self.archetype_descriptors@[descriptor as int]@);
        let entry = &self.archetype_descriptors[descriptor];
        let ty = entry.archetype().get(k);
        let row = entry.component_map()[k];
        proof {
            lemma_index_of(self.buffer_ranks(), type_rank(ty), self.buffer_ranks().len() as int);
        }
        let buffers = self.get_component_buffers_mut(&ty).unwrap();
        proof {
            buffers.lemma_counts_len();
        }
        match handle {
            RowHandle::Write(h) => buffers.release_mut(row, h),
            RowHandle::Read(h) => buffers.release(row, h),
        }
        proof {
            assert(self.buffer_rows() =~= rows0);
            assert(self.row_counts() =~= counts0.update(
                b,
                counts0[b].update(
                    row as int,
                    count_given_back(counts0[b][row as int], mutable) as u32,
                ),
            ));
        }
    }

    /// The component at index `index` of the row that holds, for descriptor
    /// `descriptor`, the components of its `k`-th component type, for who
    /// holds that row.
    pub fn component_held(&self, descriptor: usize, k: usize, index: usize, handle: &RowHandle<C>)
        -> (r: &C)
        requires
            self.wf(),
            descriptor < self.descriptors_view().len(),
            k < self.descriptors_view()[descriptor as int].archetype.len(),
            k < self.descriptors_view()[descriptor as int].component_map.len(),
            self.has_row(self.descriptors_view()[descriptor as int], k as int),
            index < self.component_row(self.descriptors_view()[descriptor as int], k as int).len(),
            if handle is Write {
                self.row_count(self.descriptors_view()[descriptor as int], k as int) == EXCLUSIVE
            } else {
                0 < self.row_count(self.descriptors_view()[descriptor as int], k as int)
                    < EXCLUSIVE
            },
        ensures
            *r == self.component_row(
                self.descriptors_view()[descriptor as int],
                k as int,
            )[index as int],
    {
        let ghost d = self.descriptors_view()[descriptor as int];
        assert(d == self.archetype_descriptors@[descriptor as int]@);
        let entry = &self.archetype_descriptors[descriptor];
        let ty = entry.archetype().get(k);
        let row = entry.component_map()[k];
        proof {
            lemma_index_of(self.buffer_ranks(), type_rank(ty), self.buffer_ranks().len() as int);
        }
        let b = self.find_buffers(&ty).unwrap();
        match handle {
            RowHandle::Write(h) => &self.buffers[b].written_row(row, h)[index],
            RowHandle::Read(h) => &self.buffers[b].row(row, h)[index],
        }
    }

    /// Takes the row of entities of descriptor `descriptor` to read it.
    /// Nobody may be writing it.
    pub fn hold_entities(&mut self, descriptor: usize) -> (r: PrwReadHandle<Vec<Entity>>)
        requires
            old(self).wf(),
            descriptor < old(self).descriptors_view().len(),
            old(self).descriptors_view()[descriptor as int].entities
                < old(self).entity_rows().len(),
            old(self).entity_buffers().counts()[old(
                self,
            ).descriptors_view()[descriptor as int].entities as int] != EXCLUSIVE,
        ensures
            final(self).wf(),
            final(self).descriptors_view() == old(self).descriptors_view(),
            final(self).buffer_ranks() == old(self).buffer_ranks(),
            final(self).component_buffers() == old(self).component_buffers(),
            final(self).entity_rows() == old(self).entity_rows(),
            final(self).entity_buffers().counts() == old(self).entity_buffers().counts().update(
                old(self).descriptors_view()[descriptor as int].entities as int,
                (old(self).entity_buffers().counts()[old(
                    self,
                ).descriptors_view()[descriptor as int].entities as int] + 1) as u32,
            ),
    {
        assert(self.descriptors_view()[descriptor as int]
            == self.archetype_descriptors@[descriptor as int]@);
        let row = self.archetype_descriptors[descriptor].entities;
        self.entities.get(row)
    }

    /// Gives the row of entities of descriptor `descriptor` back.
    pub fn release_entities(&mut self, descriptor: usize, handle: PrwReadHandle<Vec<Entity>>)
        requires
            old(self).wf(),
            descriptor < old(self).descriptors_view().len(),
            old(self).descriptors_view()[descriptor as int].entities
                < old(self).entity_rows().len(),
            0 < old(self).entity_buffers().counts()[old(
                self,
            ).descriptors_view()[descriptor as int].entities as int] < EXCLUSIVE,
        ensures
            final(self).wf(),
            final(self).descriptors_view() == old(self).descriptors_view(),
            final(self).buffer_ranks() == old(self).buffer_ranks(),
            final(self).component_buffers() == old(self).component_buffers(),
            final(self).entity_rows() == old(self).entity_rows(),
            final(self).entity_buffers().counts() == old(self).entity_buffers().counts().update(
                old(self).descriptors_view()[descriptor as int].entities as int,
                (old(self).entity_buffers().counts()[old(
                    self,
                ).descriptors_view()[descriptor as int].entities as int] - 1) as u32,
            ),
    {
        assert(self.descriptors_view()[descriptor as int]
            == self.archetype_descriptors@[descriptor as int]@);
        let row = self.archetype_descriptors[descriptor].entities;
        self.entities.release(row, handle);
    }

    /// Writes `value` at index `index` of the row that holds, for descriptor
    /// `descriptor`, the components of its `k`-th component type, for the
    /// writer of the row.
    pub fn set_component(
        &mut self,
        descriptor: usize,
        k: usize,
        index: usize,
        handle: &RowHandle<C>,
        value: C,
    )
        requires
            old(self).wf(),
            descriptor < old(self).descriptors_view().len(),
            k < old(self).descriptors_view()[descriptor as int].archetype.len(),
            k < old(self).descriptors_view()[descriptor as int].component_map.len(),
            old(self).has_row(old(self).descriptors_view()[descriptor as int], k as int),
            index < old(self).component_row(
                old(self).descriptors_view()[descriptor as int],
                k as int,
            ).len(),
            handle is Write,
            old(self).row_count(old(self).descriptors_view()[descriptor as int], k as int)
                == EXCLUSIVE,
        ensures
            final(self).wf(),
            final(self).descriptors_view() == old(self).descriptors_view(),
            final(self).buffer_ranks() == old(self).buffer_ranks(),
            final(self).entity_buffers() == old(self).entity_buffers(),
            final(self).row_counts() == old(self).row_counts(),
            final(self).buffer_rows() == old(self).buffer_rows().update(
                old(self).buffer_of(old(self).descriptors_view()[descriptor as int].archetype[k as int]),
                old(self).buffer_rows()[old(self).buffer_of(
                    old(self).descriptors_view()[descriptor as int].archetype[k as int],
                )].update(
                    old(self).descriptors_view()[descriptor as int].component_map[k as int] as int,
                    old(self).component_row(
                        old(self).descriptors_view()[descriptor as int],
                        k as int,
                    ).update(index as int, value),
                ),
            ),
    {
        let ghost d = self.descriptors_view()[descriptor as int];
        let ghost b = self.buffer_of(d.archetype[k as int]);
        let ghost rows0 = self.buffer_rows();
        let ghost counts0 = self.row_counts();
        assert(d == self.archetype_descriptors@[descriptor as int]@);
        let entry = &self.archetype_descriptors[descriptor];
        let ty = entry.archetype().get(k);
        let row = entry.component_map()[k];
        proof {
            lemma_index_of(self.buffer_ranks(), type_rank(ty), self.buffer_ranks().len() as int);
        }
        let buffers = self.get_component_buffers_mut(&ty).unwrap();
        proof {
            buffers.lemma_counts_len();
        }
        match handle {
            RowHandle::Write(h) => buffers.set(row, h, index, value),
            RowHandle::Read(_) => {},
        }
        proof {
            assert(self.row_counts() =~= counts0);
            assert(self.buffer_rows() =~= rows0.update(
                b,
                rows0[b].update(row as int, rows0[b][row as int].update(index as int, value)),
            ));
        }
    }

    /// Registers a descriptor for `archetype`, with a new, empty row for
    /// each of its component types and one for its entities. Containers
    /// are created for the component types that have none.
    pub fn create_archetype(&mut self, archetype: &Archetype) -> (id: ArchetypeDescriptorId)
        requires
            old(self).wf(),
            old(self).populated(),
            old(self).all_idle(),
            archetype.is_valid(),
            old(self).descriptors_view().len() <= u32::MAX,
        ensures
            final(self).wf(),
            final(self).populated(),
            final(self).all_idle(),
            id@ == old(self).descriptors_view().len(),
            final(self).descriptors_view().len() == old(self).descriptors_view().len() + 1,
            final(self).descriptors_view().drop_last() == old(self).descriptors_view(),
            final(self).descriptors_view()[id@].archetype == archetype@,
            final(self).entity_row(final(self).descriptors_view()[id@]) == Seq::<Entity>::empty(),
            final(self).entity_rows().drop_last() == old(self).entity_rows(),
            final(self).buffer_ranks().take(old(self).buffer_ranks().len() as int)
                == old(self).buffer_ranks(),
            rows_extend(old(self).buffer_rows(), final(self).buffer_rows()),
    {
        let ghost ranks0 = self.buffer_ranks();
        let ghost rows0 = self.buffer_rows();
        let ghost d0 = self.descriptors_view();
        let ghost a = archetype@;
        let n = archetype.len();
        let mut map: Vec<usize> = Vec::new();
        let mut k: usize = 0;
        proof {
            assert(ranks0.take(ranks0.len() as int) =~= ranks0);
        }
        while k < n
            invariant
                k <= n,
                n == a.len(),
                a == archetype@,
                strictly_ascending(a),
                self.wf(),
                self.all_idle(),
                self.descriptors_view() == d0,
                self.entity_buffers() == old(self).entity_buffers(),
                ranks0.len() <= self.buffer_ranks().len(),
                self.buffer_ranks().take(ranks0.len() as int) == ranks0,
                self.buffer_rows().len() == self.buffer_ranks().len(),
                rows0.len() == ranks0.len(),
                rows_extend(rows0, self.buffer_rows()),
                map@.len() == k,
                forall|j: int|
                    0 <= j < k ==> {
                        let b = self.buffer_of(#[trigger] a[j]);
                        &&& 0 <= b < self.buffer_rows().len()
                        &&& rows_before(rows0, b) <= map@[j] < self.buffer_rows()[b].len()
                        &&& self.buffer_rows()[b][map@[j] as int] == Seq::<C>::empty()
                    },
            decreases n - k,
        {
            let ty = archetype.get(k);
            let ghost x = type_rank(ty);
            let ghost ranks1 = self.buffer_ranks();
            let ghost rows1 = self.buffer_rows();
            let ghost bufs1 = self.component_buffers();
            proof {
                lemma_index_of(ranks1, x, ranks1.len() as int);
            }
            self.create_component_buffers(ty);
            let ghost ranks2 = self.buffer_ranks();
            let ghost rows2 = self.buffer_rows();
            let ghost bufs2 = self.component_buffers();
            proof {
                lemma_index_of(ranks2, x, ranks2.len() as int);
                if !ranks1.contains(x) {
                    assert(ranks2[ranks1.len() as int] == x);
                    assert forall|c: int| 0 <= c < bufs1.len() implies bufs2[c] == bufs1[c] by {
                        assert(bufs2.drop_last()[c] == bufs2[c]);
                    }
                    assert(rows2 =~= rows1.push(Seq::<Seq<C>>::empty()));
                    assert(ranks2.take(ranks1.len() as int) =~= ranks1);
                } else {
                    assert(rows2 =~= rows1);
                    assert(ranks2.take(ranks1.len() as int) =~= ranks1);
                }
                assert(ranks2.take(ranks0.len() as int) =~= ranks0);
                assert forall|j: int| 0 <= j < k implies self.buffer_of(#[trigger] a[j])
                    == index_of(ranks1, a[j], ranks1.len() as int) by {
                    lemma_index_of_prefix(ranks1, ranks2, a[j]);
                }
            }
            let ghost b = self.buffer_of(x);
            let storage = self.get_component_buffers_mut(&ty).unwrap();
            proof {
                storage.lemma_counts_len();
            }
            let row = storage.create();
            map.push(row);
            proof {
                storage.lemma_counts_len();
                assert(storage.all_idle());
            }
            proof {
                let rows3 = self.buffer_rows();
                let ranks3 = self.buffer_ranks();
                assert(ranks3 == ranks2);
                assert(rows3 =~= rows2.update(b, rows2[b].push(Seq::<C>::empty())));
                assert forall|c: int| 0 <= c < self.component_buffers().len() implies (
                #[trigger] self.component_buffers()[c]).all_idle() by {
                    if c != b {
                        assert(self.component_buffers()[c] == bufs2[c]);
                        if c < bufs1.len() {
                            assert(bufs1[c].all_idle());
                        }
                    }
                }
                assert forall|j: int| 0 <= j < k + 1 implies ({
                    let bj = self.buffer_of(#[trigger] a[j]);
                    &&& 0 <= bj < rows3.len()
                    &&& rows_before(rows0, bj) <= map@[j] < rows3[bj].len()
                    &&& rows3[bj][map@[j] as int] == Seq::<C>::empty()
                }) by {
                    let bj = self.buffer_of(a[j]);
                    if j < k {
                        lemma_index_of(ranks3, a[j], ranks3.len() as int);
                        assert(a[j] != a[k as int]);
                        assert(bj != b);
                        assert(rows3[bj] == rows1[bj]);
                    }
                }
            }
            k += 1;
        }
        let ghost ranks4 = self.buffer_ranks();
        let ghost rows4 = self.buffer_rows();
        let ghost e0 = self.entity_rows();
        proof {
            self.entities.lemma_counts_len();
        }
        let e = self.entities.create();
        let descriptor = ArchetypeDescriptor::new(archetype.clone(), map, e);
        let ghost d = descriptor@;
        let id = self.add_archetype(descriptor);
        proof {
            let e1 = self.entity_rows();
            assert(e1.drop_last() =~= e0);
            assert(self.descriptors_view().drop_last() =~= d0);
            self.entities.lemma_counts_len();
            assert(self.describes(d));
            assert forall|i: int| 0 <= i < d0.len() implies self.describes(#[trigger] d0[i])
                && apart(d0[i], d) by {
                let o = d0[i];
                assert(old(self).describes(o));
                assert forall|l: int| 0 <= l < o.archetype.len() implies #[trigger] self.has_row(
                    o,
                    l,
                ) && self.component_row(o, l).len() == self.entity_row(o).len() by {
                    assert(old(self).has_row(o, l));
                    lemma_index_of_prefix(ranks0, ranks4, o.archetype[l]);
                    let bl = old(self).buffer_of(o.archetype[l]);
                    assert(rows4[bl][o.component_map[l] as int]
                        == rows0[bl][o.component_map[l] as int]);
                    assert(e1[o.entities as int] == e0[o.entities as int]);
                }
                assert forall|l: int, m: int|
                    0 <= l < o.archetype.len() && 0 <= m < d.archetype.len()
                        && #[trigger] o.archetype[l] == #[trigger] d.archetype[m] implies o.component_map[l]
                    != d.component_map[m] by {
                    assert(old(self).has_row(o, l));
                    lemma_index_of_prefix(ranks0, ranks4, o.archetype[l]);
                }
            }
            assert forall|i: int| 0 <= i < self.descriptors_view().len() implies self.describes(
                #[trigger] self.descriptors_view()[i],
            ) by {
                if i < d0.len() {
                    assert(self.descriptors_view()[i] == d0[i]);
                }
            }
            assert forall|i: int, j: int|
                0 <= i < j < self.descriptors_view().len() implies apart(
                #[trigger] self.descriptors_view()[i],
                #[trigger] self.descriptors_view()[j],
            ) by {
                assert(self.descriptors_view()[i] == d0[i]);
                if j < d0.len() {
                    assert(self.descriptors_view()[j] == d0[j]);
                }
            }
        }
        id
    }

    /// Appends `entities` to the row of entities of descriptor `id` and
    /// returns the index at which the first of them stands.
    pub fn append_entities(&mut self, id: ArchetypeDescriptorId, entities: &[Entity]) -> (begin:
        usize)
        requires
            old(self).wf(),
            old(self).all_idle(),
            0 <= id@ < old(self).descriptors_view().len(),
            old(self).descriptors_view()[id@].entities < old(self).entity_rows().len(),
        ensures
            final(self).wf(),
            final(self).all_idle(),
            final(self).descriptors_view() == old(self).descriptors_view(),
            final(self).buffer_ranks() == old(self).buffer_ranks(),
            final(self).component_buffers() == old(self).component_buffers(),
            begin == old(self).entity_row(old(self).descriptors_view()[id@]).len(),
            begin + entities@.len() <= usize::MAX,
            final(self).entity_rows() == old(self).entity_rows().update(
                old(self).descriptors_view()[id@].entities as int,
                old(self).entity_row(old(self).descriptors_view()[id@]) + entities@,
            ),
    {
        let row = self.archetype_descriptors[usize::from(id)].entities;
        assert(self.descriptors_view()[id@] == self.archetype_descriptors@[id@]@);
        let mut copies: Vec<Entity> = Vec::new();
        let mut i: usize = 0;
        while i < entities.len()
            invariant
                i <= entities@.len(),
                copies@ == entities@.take(i as int),
            decreases entities.len() - i,
        {
            copies.push(entities[i]);
            i += 1;
            assert(copies@ =~= entities@.take(i as int));
        }
        assert(copies@ =~= entities@);
        let ghost counts = self.entities.counts();
        proof {
            self.entities.lemma_counts_len();
        }
        let handle = self.entities.get_mut(row);
        let begin = self.entities.written_row(row, &handle).len();
        self.entities.append(row, &handle, &mut copies);
        let end = self.entities.written_row(row, &handle).len();
        assert(end == begin + entities@.len());
        self.entities.release_mut(row, handle);
        proof {
            assert(self.entities.counts() =~= counts);
            assert(self.component_buffers() =~= old(self).component_buffers());
            assert forall|b: int| 0 <= b < self.component_buffers().len() implies (
            #[trigger] self.component_buffers()[b]).all_idle() by {
                assert(old(self).component_buffers()[b].all_idle());
            }
        }
        begin
    }

    /// Appends `values` to the row that holds, for descriptor `id`, the
    /// components of its `k`-th component type, and leaves `values` empty.
    pub fn append_components(&mut self, id: ArchetypeDescriptorId, k: usize, values: &mut Vec<C>)
        requires
            old(self).wf(),
            old(self).all_idle(),
            0 <= id@ < old(self).descriptors_view().len(),
            k < old(self).descriptors_view()[id@].archetype.len(),
            k < old(self).descriptors_view()[id@].component_map.len(),
            old(self).has_row(old(self).descriptors_view()[id@], k as int),
        ensures
            final(self).wf(),
            final(self).all_idle(),
            final(self).descriptors_view() == old(self).descriptors_view(),
            final(self).buffer_ranks() == old(self).buffer_ranks(),
            final(self).entity_buffers() == old(self).entity_buffers(),
            final(values)@ == Seq::<C>::empty(),
            final(self).buffer_rows() == old(self).buffer_rows().update(
                old(self).buffer_of(old(self).descriptors_view()[id@].archetype[k as int]),
                old(self).buffer_rows()[old(self).buffer_of(
                    old(self).descriptors_view()[id@].archetype[k as int],
                )].update(
                    old(self).descriptors_view()[id@].component_map[k as int] as int,
                    old(self).component_row(old(self).descriptors_view()[id@], k as int)
                        + old(values)@,
                ),
            ),
    {
        let ghost d = self.descriptors_view()[id@];
        let ghost b = self.buffer_of(d.archetype[k as int]);
        let ghost rows0 = self.buffer_rows();
        let ghost bufs0 = self.component_buffers();
        assert(d == self.archetype_descriptors@[id@]@);
        let descriptor = &self.archetype_descriptors[usize::from(id)];
        let ty = descriptor.archetype().get(k);
        let row = descriptor.component_map()[k];
        proof {
            lemma_index_of(self.buffer_ranks(), type_rank(ty), self.buffer_ranks().len() as int);
        }
        let buffers = self.get_component_buffers_mut(&ty).unwrap();
        let ghost counts = buffers.counts();
        assert(buffers.all_idle());
        proof {
            buffers.lemma_counts_len();
        }
        let handle = buffers.get_mut(row);
        buffers.append(row, &handle, values);
        buffers.release_mut(row, handle);
        assert(buffers.counts() =~= counts);
        proof {
            assert(self.buffer_rows() =~= rows0.update(
                b,
                rows0[b].update(row as int, rows0[b][row as int] + old(values)@),
            ));
            assert forall|c: int| 0 <= c < self.component_buffers().len() implies (
            #[trigger] self.component_buffers()[c]).all_idle() by {
                if c != b {
                    assert(self.component_buffers()[c] == bufs0[c]);
                }
            }
        }
    }

    /// Create data buffers for a component type. Does nothing if data buffers for the
    /// component type already exist.
    pub fn create_component_buffers(&mut self, id: TypeId)
        requires
            old(self).wf(),
        ensures
            final(self).wf(),
            final(self).descriptors_view() == old(self).descriptors_view(),
            final(self).entity_buffers() == old(self).entity_buffers(),
            old(self).buffer_ranks().contains(type_rank(id)) ==> {
                &&& final(self).buffer_ranks() == old(self).buffer_ranks()
                &&& final(self).component_buffers() == old(self).component_buffers()
            },
            !old(self).buffer_ranks().contains(type_rank(id)) ==> {
                &&& final(self).buffer_ranks() == old(self).buffer_ranks().push(type_rank(id))
                &&& final(self).component_buffers().len() == old(self).component_buffers().len()
                    + 1
                &&& final(self).component_buffers().drop_last() == old(self).component_buffers()
                &&& final(self).component_buffers().last()@ == Seq::<Seq<C>>::empty()
                &&& final(self).component_buffers().last().counts() == Seq::<u32>::empty()
            },
    {
        proof {
            lemma_index_of(self.buffer_ranks(), type_rank(id), self.buffer_ranks().len() as int);
        }
        if self.find_buffers(&id).is_some() {
            return ;
        }
        let new_data: DataBuffers<C> = DataBuffers::default();
        self.buffers.push(new_data);
        self.buffer_types.push(id);
        proof {
            assert(self.buffer_ranks() =~= old(self).buffer_ranks().push(type_rank(id)));
            assert(self.component_buffers().drop_last() =~= old(self).component_buffers());
        }
    }
}

} // verus!
