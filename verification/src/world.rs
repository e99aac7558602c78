//! The world: where entities are made.

use crate::archetype::strictly_ascending;
use crate::archetypes::{ArchetypeDescriptorId, Archetypes};
use crate::entity::{Entity, EntityView};
use crate::pack::{column_ranks, equal_lengths, moved, ColumnView, ComponentPack};
use vstd::prelude::*;

verus! {

/// What the world knows of the slot of an entity id.
struct EntityInfo {
    /// Current version of the entity.
    ver: u32,
    /// Archetype that the entities components exist within.
    archetype: ArchetypeDescriptorId,
    /// Index within the data buffers of the archetype the components are located at.
    index: usize,
}

/// A slot of the side table: the current version of the entity id, the
/// descriptor of the archetype that its components are in, and its index in
/// the rows of that descriptor.
pub struct SlotView {
    pub ver: int,
    pub archetype: int,
    pub index: int,
}

/// The world is where entities and components are stored, and the interface used for creating or
/// destroying them.
pub struct World<C> {
    archetypes: Archetypes<C>,
    entities: Vec<EntityInfo>,
    free: Vec<u32>,
    /// Cache for newly created entity handles.
    entity_cache: Vec<Entity>,
}

/// The handle that the world gives to the `j`-th new entity: a free id with
/// the version of its slot, the free ids taken from the end of their list,
/// or else a new id with version 1.
pub open spec fn minted(slots: Seq<SlotView>, free: Seq<u32>, j: int) -> EntityView {
    if j < free.len() {
        EntityView {
            id: free[free.len() - 1 - j] as int,
            ver: slots[free[free.len() - 1 - j] as int].ver,
        }
    } else {
        EntityView { id: slots.len() + (j - free.len()), ver: 1 }
    }
}

/// What `create` does to a world. The components and the new entities are
/// moved into the rows of descriptor `id` from index `begin` on, the free
/// ids that were used are free no more, new slots stand behind the old ones,
/// the slot of the `j`-th new entity says descriptor `id` and index
/// `begin + j`, and every other slot says what it said.
pub open spec fn created<C>(
    old: World<C>,
    new: World<C>,
    cols: Seq<ColumnView<C>>,
    news: Seq<Entity>,
    id: int,
    begin: int,
) -> bool {
    let f = old.free_ids().len() as int;
    let n = news.len() as int;
    &&& moved(old.registry(), new.registry(), cols, news, id, begin)
    &&& new.free_ids() == old.free_ids().take(if n <= f {
        f - n
    } else {
        0
    })
    &&& new.slots().len() == old.slots().len() + if n <= f {
        0
    } else {
        n - f
    }
    &&& forall|j: int|
        0 <= j < n ==> 0 <= (#[trigger] news[j])@.id < new.slots().len() && new.slots()[news[j]@.id]
            == (SlotView { ver: news[j]@.ver, archetype: id, index: begin + j })
    &&& forall|x: int|
        0 <= x < old.slots().len() && (forall|j: int| 0 <= j < n ==> (#[trigger] news[j])@.id != x)
            ==> #[trigger] new.slots()[x] == old.slots()[x]
}

/// The new handles have different ids: free ids, of which no two are the
/// same, and ids behind the old slots.
pub proof fn lemma_new_ids(slots: Seq<SlotView>, free: Seq<u32>, news: Seq<Entity>)
    requires
        forall|t: int| 0 <= t < news.len() ==> (#[trigger] news[t])@ == minted(slots, free, t),
        forall|k: int| 0 <= k < free.len() ==> (#[trigger] free[k]) < slots.len(),
        free.no_duplicates(),
    ensures
        forall|t: int|
            0 <= t < news.len() ==> 0 <= (#[trigger] news[t])@.id < slots.len() + if news.len()
                <= free.len() {
                0
            } else {
                news.len() - free.len()
            },
        forall|t: int, u: int|
            0 <= t < u < news.len() ==> (#[trigger] news[t])@.id != (#[trigger] news[u])@.id,
        forall|t: int|
            0 <= t < news.len() ==> ((#[trigger] news[t])@.id < slots.len() <==> t < free.len()),
{
    assert forall|t: int, u: int| 0 <= t < u < news.len() implies (#[trigger] news[t])@.id != (
    #[trigger] news[u])@.id by {
        if u < free.len() {
            assert(free[free.len() - 1 - t] != free[free.len() - 1 - u]);
        } else if t < free.len() {
            assert(free[free.len() - 1 - t] < slots.len());
        }
    }
    assert forall|t: int| 0 <= t < news.len() implies 0 <= (#[trigger] news[t])@.id < slots.len()
        + if news.len() <= free.len() {
        0
    } else {
        news.len() - free.len()
    } by {
        if t < free.len() {
            assert(free[free.len() - 1 - t] < slots.len());
        }
    }
    assert forall|t: int| 0 <= t < news.len() implies ((#[trigger] news[t])@.id < slots.len()
        <==> t < free.len()) by {
        if t < free.len() {
            assert(free[free.len() - 1 - t] < slots.len());
        }
    }
}

/// In a consistent world, an entity whose id is not free has its handle in
/// the row of entities of its descriptor, at its index, and a component at
/// the same index in the row of every component type of its archetype.
pub proof fn lemma_entity_has_components<C>(world: World<C>, i: int, k: int)
    requires
        world.wf(),
        0 <= i < world.slots().len(),
        !world.free_ids().contains(i as u32),
        0 <= k < world.registry().descriptors_view()[world.slots()[i].archetype].archetype.len(),
    ensures
        world.located(i),
        world.registry().has_row(
            world.registry().descriptors_view()[world.slots()[i].archetype],
            k,
        ),
        world.slots()[i].index < world.registry().component_row(
            world.registry().descriptors_view()[world.slots()[i].archetype],
            k,
        ).len(),
{
    assert(world.located(i));
    let d = world.registry().descriptors_view()[world.slots()[i].archetype];
    assert(world.registry().describes(d));
    assert(world.registry().has_row(d, k));
}

impl<C> Default for World<C> {
    fn default() -> (r: Self)
        ensures
            r.wf(),
            r.slots() == Seq::<SlotView>::empty(),
            r.free_ids() == Seq::<u32>::empty(),
            r.registry().descriptors_view().len() == 0,
    {
        World::new()
    }
}

impl<C> World<C> {
    /// The registry of archetypes of the world.
    pub closed spec fn registry(&self) -> Archetypes<C> {
        self.archetypes
    }

    /// The side table: one slot per entity id.
    pub closed spec fn slots(&self) -> Seq<SlotView> {
        Seq::new(
            self.entities@.len(),
            |i: int|
                SlotView {
                    ver: self.entities@[i].ver as int,
                    archetype: self.entities@[i].archetype@,
                    index: self.entities@[i].index as int,
                },
        )
    }

    /// The ids that can be used again.
    pub closed spec fn free_ids(&self) -> Seq<u32> {
        self.free@
    }

    /// The entity of slot `i` stands where the side table says: in the row
    /// of entities of its descriptor, at its index.
    pub open spec fn located(&self, i: int) -> bool {
        let slot = self.slots()[i];
        let d = self.registry().descriptors_view();
        &&& 0 <= slot.archetype < d.len()
        &&& 0 <= slot.index < self.registry().entity_row(d[slot.archetype]).len()
        &&& self.registry().entity_row(d[slot.archetype])[slot.index]@ == (EntityView {
            id: i,
            ver: slot.ver,
        })
    }

    /// The world is consistent: the registry is, no row is held, versions
    /// are not zero, the free ids are ids and no two of them the same, and
    /// every entity whose id is not free stands where the side table says.
    pub open spec fn wf(&self) -> bool {
        &&& self.registry().wf()
        &&& self.registry().populated()
        &&& self.registry().all_idle()
        &&& self.slots().len() <= u32::MAX
        &&& forall|i: int| 0 <= i < self.slots().len() ==> (#[trigger] self.slots()[i]).ver != 0
        &&& forall|k: int|
            0 <= k < self.free_ids().len() ==> (#[trigger] self.free_ids()[k]) < self.slots().len()
        &&& self.free_ids().no_duplicates()
        &&& forall|i: int|
            0 <= i < self.slots().len() && !self.free_ids().contains(i as u32)
                ==> #[trigger] self.located(i)
    }

    pub fn new() -> (r: Self)
        ensures
            r.wf(),
            r.slots() == Seq::<SlotView>::empty(),
            r.free_ids() == Seq::<u32>::empty(),
            r.registry().descriptors_view().len() == 0,
    {
        let r = World {
            archetypes: Archetypes::new(),
            entities: Vec::new(),
            free: Vec::new(),
            entity_cache: Vec::new(),
        };
        assert(r.slots() =~= Seq::<SlotView>::empty());
        r
    }

    /// The registry of archetypes of the world.
    pub fn archetypes(&self) -> (r: &Archetypes<C>)
        ensures
            *r == self.registry(),
    {
        &self.archetypes
    }

    /// Makes one entity for each row of the pack, with the components of
    /// that row, and returns the handles of the new entities. The columns of
    /// the pack have to be equally long and of different component types.
    #[verifier::rlimit(60)]
    pub fn create(&mut self, components: ComponentPack<C>) -> (r: &Vec<Entity>)
        requires
            old(self).wf(),
            components.wf(),
            components@.len() > 0,
            equal_lengths(components@),
            strictly_ascending(column_ranks(components@)),
            old(self).slots().len() + components@[0].values.len() <= u32::MAX,
            old(self).registry().descriptors_view().len() <= u32::MAX,
        ensures
            final(self).wf(),
            r@.len() == components@[0].values.len(),
            forall|j: int|
                0 <= j < r@.len() ==> (#[trigger] r@[j])@ == minted(
                    old(self).slots(),
                    old(self).free_ids(),
                    j,
                ),
            exists|id: int, begin: int|
                created(*old(self), *final(self), components@, r@, id, begin),
    {
        let ghost s0 = self.slots();
        let ghost f0 = self.free_ids();
        let ghost reg0 = self.registry();
        let ghost cols = components@;
        let mut components = components;
        let n = components.len();
        // Create entity handles
        self.entity_cache.clear();
        let mut j: usize = 0;
        while j < n
            invariant
                j <= n,
                s0.len() + n <= u32::MAX,
                self.archetypes == reg0,
                self.entity_cache@.len() == j,
                forall|t: int|
                    0 <= t < j ==> (#[trigger] self.entity_cache@[t])@ == minted(s0, f0, t),
                forall|k: int| 0 <= k < f0.len() ==> (#[trigger] f0[k]) < s0.len(),
                forall|i: int| 0 <= i < s0.len() ==> (#[trigger] s0[i]).ver != 0,
                self.free@ == f0.take(if j <= f0.len() {
                    f0.len() - j
                } else {
                    0
                }),
                self.slots().len() == s0.len() + if j <= f0.len() {
                    0
                } else {
                    j - f0.len()
                },
                forall|i: int| 0 <= i < s0.len() ==> #[trigger] self.slots()[i] == s0[i],
                forall|i: int|
                    s0.len() <= i < self.slots().len() ==> (#[trigger] self.slots()[i]).ver == 1,
            decreases n - j,
        {
            let ghost before = self.slots();
            match self.free.pop() {
                Some(free) => {
                    assert(free == f0[f0.len() - 1 - j]);
                    assert(before[free as int] == s0[free as int]);
                    let ver = self.entities[free as usize].ver;
                    self.entity_cache.push(Entity::from_raw_parts(free, ver));
                    assert(self.free@ =~= f0.take(f0.len() - (j + 1)));
                    assert(self.slots() =~= before);
                },
                None => {
                    self.entities.push(
                        EntityInfo { ver: 1, archetype: ArchetypeDescriptorId::default(), index: 0 },
                    );
                    let id = (self.entities.len() - 1) as u32;
                    self.entity_cache.push(Entity::from_raw_parts(id, 1));
                    assert(self.free@ =~= f0.take(0));
                    assert forall|i: int| 0 <= i < s0.len() implies #[trigger] self.slots()[i]
                        == s0[i] by {
                        assert(before[i] == s0[i]);
                    }
                    assert forall|i: int| s0.len() <= i < self.slots().len() implies (
                    #[trigger] self.slots()[i]).ver == 1 by {
                        if i < before.len() {
                            assert(self.slots()[i] == before[i]);
                        }
                    }
                },
            }
            j += 1;
        }
        let ghost s1 = self.slots();
        let ghost f1 = self.free_ids();
        // Move the components into their archetype
        let (archetype, begin) = components.move_into(
            self.entity_cache.as_slice(),
            &mut self.archetypes,
        );
        let ghost reg1 = self.registry();
        let ghost news = self.entity_cache@;
        proof {
            lemma_new_ids(s0, f0, news);
        }
        // Update the created entities archetypes
        let mut i: usize = 0;
        while i < self.entity_cache.len()
            invariant
                i <= news.len(),
                self.entity_cache@ == news,
                self.archetypes == reg1,
                self.free@ == f1,
                self.slots().len() == s1.len(),
                moved(reg0, reg1, cols, news, archetype@, begin as int),
                begin + news.len() <= usize::MAX,
                forall|t: int| 0 <= t < news.len() ==> 0 <= (#[trigger] news[t])@.id < s1.len(),
                forall|t: int, u: int|
                    0 <= t < u < news.len() ==> (#[trigger] news[t])@.id != (
                    #[trigger] news[u])@.id,
                forall|t: int|
                    0 <= t < news.len() ==> s1[(#[trigger] news[t])@.id].ver == news[t]@.ver,
                forall|t: int|
                    0 <= t < i ==> self.slots()[(#[trigger] news[t])@.id] == (SlotView {
                        ver: news[t]@.ver,
                        archetype: archetype@,
                        index: begin + t,
                    }),
                forall|x: int|
                    0 <= x < s1.len() && (forall|t: int|
                        0 <= t < i ==> (#[trigger] news[t])@.id != x) ==> #[trigger] self.slots()[x]
                        == s1[x],
            decreases news.len() - i,
        {
            let ghost before = self.slots();
            let id = self.entity_cache[i].id() as usize;
            self.entities[id].archetype = archetype;
            self.entities[id].index = begin + i;
            proof {
                let now = self.slots();
                assert forall|x: int| 0 <= x < s1.len() && x != id implies now[x] == before[x] by {}
                assert forall|t: int| 0 <= t < i + 1 implies now[(#[trigger] news[t])@.id] == (
                SlotView { ver: news[t]@.ver, archetype: archetype@, index: begin + t }) by {
                    if t < i {
                        assert(news[t]@.id != news[i as int]@.id);
                    } else {
                        assert(before[id as int] == s1[id as int]);
                    }
                }
            }
            i += 1;
        }
        proof {
            let f = f0.len() as int;
            let m = news.len() as int;
            let d0 = reg0.descriptors_view();
            let d1 = reg1.descriptors_view();
            let found = crate::archetypes::last_of(d0, column_ranks(cols), d0.len() as int);
            let row = reg1.entity_row(d1[archetype@]);
            assert forall|x: int| 0 <= x < s0.len() && (forall|t: int|
                0 <= t < m ==> (#[trigger] news[t])@.id != x) implies #[trigger] self.slots()[x]
                == s0[x] by {
                assert(self.slots()[x] == s1[x]);
            }
            assert(created(*old(self), *self, cols, news, archetype@, begin as int));
            assert forall|x: int| 0 <= x < self.slots().len() implies (
            #[trigger] self.slots()[x]).ver != 0 by {
                if exists|t: int| 0 <= t < m && (#[trigger] news[t])@.id == x {
                    let t = choose|t: int| 0 <= t < m && (#[trigger] news[t])@.id == x;
                    assert(s1[news[t]@.id].ver == news[t]@.ver);
                } else {
                    assert(self.slots()[x] == s1[x]);
                }
                if x < s0.len() {
                    assert(s1[x] == s0[x]);
                }
            }
            assert forall|x: int|
                0 <= x < self.slots().len() && !self.free_ids().contains(
                    x as u32,
                ) implies #[trigger] self.located(x) by {
                let is_new = exists|t: int| 0 <= t < m && (#[trigger] news[t])@.id == x;
                if x < s0.len() && f0.contains(x as u32) && !is_new {
                    let k = choose|k: int| 0 <= k < f && f0[k] == x as u32;
                    if k < f - m {
                        assert(f1[k] == x as u32);
                    } else {
                        assert(news[f - 1 - k]@.id == x);
                    }
                }
                if x >= s0.len() && !is_new {
                    let t = x - s0.len() + f;
                    assert(news[t]@.id == x);
                }
                if is_new {
                    let t = choose|t: int| 0 <= t < m && (#[trigger] news[t])@.id == x;
                    assert(row.subrange(begin as int, begin + m)[t] == row[begin + t]);
                } else {
                    assert(old(self).located(x));
                    let slot = s0[x];
                    assert(self.slots()[x] == slot);
                    assert(d1[slot.archetype] == d0[slot.archetype]);
                    if slot.archetype != archetype@ {
                        assert(crate::pack::kept(reg0, reg1, d0[slot.archetype]));
                    } else {
                        assert(found >= 0);
                        assert(row.take(begin as int)[slot.index] == row[slot.index]);
                    }
                }
            }
        }
        &self.entity_cache
    }

    /// The registry of archetypes of the world, for the systems of a tick
    /// to change component values in. Whoever changes more than values,
    /// by adding rows or descriptors or by making rows longer, leaves the
    /// world inconsistent.
    pub fn archetypes_mut(&mut self) -> (r: &mut Archetypes<C>)
        ensures
            *r == old(self).registry(),
            final(self).registry() == *final(r),
            final(self).slots() == old(self).slots(),
            final(self).free_ids() == old(self).free_ids(),
    {
        &mut self.archetypes
    }

    /// The number of entity ids in use or free.
    pub fn entity_count(&self) -> (r: usize)
        ensures
            r == self.slots().len(),
    {
        self.entities.len()
    }
}

} // verus!
