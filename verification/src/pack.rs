//! Component packs: the columns of components with which entities are made.

use crate::archetype::{
    ascending, insertion_point, lemma_insert_keeps_ascending, lemma_insertion_point_unique,
    strictly_ascending, Archetype,
};
use crate::archetypes::{
    apart, last_of, lemma_index_of, ArchetypeDescriptorId, Archetypes, DescriptorView,
};
use crate::entity::Entity;
use crate::type_key::{id_precedes, type_rank};
use std::any::TypeId;
use vstd::prelude::*;

verus! {

/// A set of component columns, one per component type: the components of
/// the entities to make, entity by entity. The columns are kept in ascending
/// order of their types.
pub struct ComponentPack<C> {
    types: Vec<TypeId>,
    columns: Vec<Vec<C>>,
}

/// A column of a pack: the rank of its component type and its values.
pub struct ColumnView<C> {
    pub rank: int,
    pub values: Seq<C>,
}

/// The ranks of the types of a sequence of columns.
pub open spec fn column_ranks<C>(s: Seq<ColumnView<C>>) -> Seq<int> {
    s.map_values(|c: ColumnView<C>| c.rank)
}

/// All columns are as long as the first.
pub open spec fn equal_lengths<C>(s: Seq<ColumnView<C>>) -> bool {
    forall|k: int| 0 <= k < s.len() ==> (#[trigger] s[k]).values.len() == s[0].values.len()
}

impl<C> View for ComponentPack<C> {
    type V = Seq<ColumnView<C>>;

    closed spec fn view(&self) -> Seq<ColumnView<C>> {
        Seq::new(
            self.types@.len(),
            |k: int| ColumnView { rank: type_rank(self.types@[k]), values: self.columns@[k]@ },
        )
    }
}

impl<C> ComponentPack<C> {
    /// Every column has its type, and the types are in ascending order.
    pub closed spec fn wf(&self) -> bool {
        &&& self.types@.len() == self.columns@.len()
        &&& ascending(column_ranks(self@))
    }

    /// The pack without any column.
    pub fn new() -> (r: Self)
        ensures
            r.wf(),
            r@ == Seq::<ColumnView<C>>::empty(),
    {
        let r = ComponentPack { types: Vec::new(), columns: Vec::new() };
        assert(r@ =~= Seq::<ColumnView<C>>::empty());
        r
    }

    /// Adds the column of the components of type `id`, at its place in the
    /// ascending order of the types.
    pub fn add_column(&mut self, id: TypeId, values: Vec<C>)
        requires
            old(self).wf(),
        ensures
            final(self).wf(),
            final(self)@ == old(self)@.insert(
                insertion_point(column_ranks(old(self)@), type_rank(id)),
                ColumnView { rank: type_rank(id), values: values@ },
            ),
    {
        let ghost before = self@;
        let ghost rs = column_ranks(before);
        let ghost x = type_rank(id);
        let mut k: usize = 0;
        let mut below = self.types.len() > 0 && id_precedes(&self.types[0], &id);
        while below
            invariant
                k <= self.types@.len(),
                *self == *old(self),
                self.wf(),
                before == self@,
                rs == column_ranks(before),
                x == type_rank(id),
                forall|i: int| 0 <= i < k ==> rs[i] < x,
                below ==> k < rs.len() && rs[k as int] < x,
                !below ==> k == rs.len() || rs[k as int] >= x,
            decreases self.types.len() - k,
        {
            k += 1;
            below = k < self.types.len() && id_precedes(&self.types[k], &id);
        }
        proof {
            assert forall|i: int| k <= i < rs.len() implies rs[i] >= x by {
                assert(rs[k as int] >= x);
            }
            lemma_insertion_point_unique(rs, x, k as int);
            lemma_insert_keeps_ascending(rs, x);
        }
        self.types.insert(k, id);
        self.columns.insert(k, values);
        proof {
            let col = ColumnView { rank: x, values: values@ };
            assert(self@ =~= before.insert(k as int, col));
            assert(column_ranks(self@) =~= rs.insert(k as int, x));
        }
    }

    /// Whether all columns have the same length.
    pub fn is_valid(&self) -> (r: bool)
        requires
            self.wf(),
        ensures
            r == equal_lengths(self@),
    {
        if self.columns.len() == 0 {
            return true;
        }
        let len = self.columns[0].len();
        let mut k: usize = 1;
        while k < self.columns.len()
            invariant
                1 <= k <= self.columns@.len(),
                self.wf(),
                len == self@[0].values.len(),
                forall|j: int| 0 <= j < k ==> (#[trigger] self@[j]).values.len() == len,
            decreases self.columns.len() - k,
        {
            if self.columns[k].len() != len {
                assert(self@[k as int].values.len() != len);
                return false;
            }
            k += 1;
        }
        true
    }

    /// Whether no component type has two columns.
    pub fn has_distinct_types(&self) -> (r: bool)
        requires
            self.wf(),
        ensures
            r == strictly_ascending(column_ranks(self@)),
    {
        let ghost rs = column_ranks(self@);
        let mut k: usize = 1;
        while k < self.types.len()
            invariant
                1 <= k,
                self.wf(),
                rs == column_ranks(self@),
                forall|i: int, j: int| 0 <= i < j < k && j < rs.len() ==> rs[i] < rs[j],
            decreases self.types.len() - k,
        {
            assert(rs[k - 1] == type_rank(self.types@[k - 1]));
            assert(rs[k as int] == type_rank(self.types@[k as int]));
            if !id_precedes(&self.types[k - 1], &self.types[k]) {
                return false;
            }
            proof {
                assert forall|i: int, j: int| 0 <= i < j < k + 1 && j < rs.len() implies rs[i]
                    < rs[j] by {
                    if j == k && i < k - 1 {
                        assert(rs[i] <= rs[k - 1]);
                    }
                }
            }
            k += 1;
        }
        true
    }

    /// The number of columns.
    pub fn width(&self) -> (r: usize)
        requires
            self.wf(),
        ensures
            r == self@.len(),
    {
        self.types.len()
    }

    /// The number of entities that the pack describes: the length of its
    /// columns, which have to be equally long.
    pub fn len(&self) -> (r: usize)
        requires
            self.wf(),
            equal_lengths(self@),
        ensures
            r == if self@.len() == 0 {
                0
            } else {
                self@[0].values.len()
            },
    {
        if self.columns.len() == 0 {
            0
        } else {
            self.columns[0].len()
        }
    }

    pub fn is_empty(&self) -> (r: bool)
        requires
            self.wf(),
            equal_lengths(self@),
        ensures
            r == (self@.len() == 0 || self@[0].values.len() == 0),
    {
        self.len() == 0
    }

    /// Moves all of the components in the pack into component storage along with their associated
    /// entities: into the rows of the descriptor of the pack's archetype,
    /// which is registered with new rows where the archetype has none.
    ///
    /// Returns the ID of the archetype the components are contained within and the beginning
    /// index within each buffer the components were inserted at (in that order).
    pub fn move_into(&mut self, entities: &[Entity], archetypes: &mut Archetypes<C>) -> (r: (
        ArchetypeDescriptorId,
        usize,
    ))
        requires
            old(self).wf(),
            equal_lengths(old(self)@),
            strictly_ascending(column_ranks(old(self)@)),
            old(self)@.len() > 0 ==> entities@.len() >= old(self)@[0].values.len(),
            old(archetypes).wf(),
            old(archetypes).populated(),
            old(archetypes).all_idle(),
            old(archetypes).descriptors_view().len() <= u32::MAX,
        ensures
            final(self).wf(),
            column_ranks(final(self)@) == column_ranks(old(self)@),
            forall|k: int|
                0 <= k < final(self)@.len() ==> (#[trigger] final(self)@[k]).values
                    == Seq::<C>::empty(),
            final(archetypes).wf(),
            final(archetypes).all_idle(),
            r.1 + entities@.len() <= usize::MAX,
            moved(
                *old(archetypes),
                *final(archetypes),
                old(self)@,
                entities@,
                r.0@,
                r.1 as int,
            ),
            old(self)@.len() > 0
                && entities@.len() == old(self)@[0].values.len() ==> final(archetypes).populated(),
    {
        let ghost cols = self@;
        let ghost a = column_ranks(cols);
        let ghost before = *archetypes;
        let ghost d0 = archetypes.descriptors_view();
        let archetype = self.archetype();
        let found = match archetypes.get_archetype_descriptor(&archetype) {
            Some((_, id)) => Some(id),
            None => None,
        };
        let id = match found {
            Some(id) => id,
            None => archetypes.create_archetype(&archetype),
        };
        let ghost first = *archetypes;
        let ghost d1 = archetypes.descriptors_view();
        let ghost d = d1[id@];
        proof {
            assert(first.describes(d));
            before.lemma_wf();
            first.lemma_wf();
            if found.is_some() {
                assert(d1 == d0);
                assert(first == before);
            } else {
                assert forall|i: int| 0 <= i < d0.len() implies #[trigger] d1[i] == d0[i] by {
                    assert(d1.drop_last()[i] == d1[i]);
                }
                assert(first.entity_rows().take(before.entity_rows().len() as int)
                    =~= first.entity_rows().drop_last());
                assert forall|i: int| 0 <= i < d0.len() implies kept(
                    before,
                    first,
                    #[trigger] d0[i],
                ) by {
                    assert(before.describes(d0[i]));
                    lemma_kept_after_create(before, first, d0[i]);
                }
            }
        }
        let begin = archetypes.append_entities(id, entities);
        let ghost second = *archetypes;
        proof {
            let row = second.entity_row(d);
            assert(row == first.entity_row(d) + entities@);
            assert(row.subrange(begin as int, begin + entities@.len()) =~= entities@);
            assert(row.take(begin as int) =~= first.entity_row(d));
            assert forall|i: int| 0 <= i < d1.len() && i != id@ implies second.entity_row(
                #[trigger] d1[i],
            ) == first.entity_row(d1[i]) by {
                assert(first.describes(d1[i]));
                if i < id@ {
                    assert(apart(d1[i], d1[id@]));
                } else {
                    assert(apart(d1[id@], d1[i]));
                }
            }
        }
        let n = self.types.len();
        let mut k: usize = 0;
        while k < n
            invariant
                k <= n,
                n == cols.len(),
                self.types@.len() == n,
                self.columns@.len() == n,
                self.types == old(self).types,
                cols == old(self)@,
                a == column_ranks(cols),
                forall|j: int|
                    0 <= j < k ==> (#[trigger] self.columns@[j])@ == Seq::<C>::empty(),
                forall|j: int|
                    k <= j < n ==> (#[trigger] self.columns@[j])@ == cols[j].values,
                archetypes.wf(),
                archetypes.all_idle(),
                archetypes.descriptors_view() == d1,
                0 <= id@ < d1.len(),
                d == d1[id@],
                d.archetype == a,
                first.describes(d),
                first.populated(),
                first.descriptors_view() == d1,
                first.buffer_rows().len() == first.buffer_ranks().len(),
                archetypes.buffer_ranks() == first.buffer_ranks(),
                archetypes.entity_rows() == second.entity_rows(),
                archetypes.buffer_rows().len() == first.buffer_rows().len(),
                forall|b: int|
                    0 <= b < first.buffer_rows().len() ==> (
                    #[trigger] archetypes.buffer_rows()[b]).len() == first.buffer_rows()[b].len(),
                forall|j: int|
                    0 <= j < k ==> #[trigger] archetypes.component_row(d, j) == first.component_row(
                        d,
                        j,
                    ) + cols[j].values,
                forall|j: int|
                    k <= j < n ==> #[trigger] archetypes.component_row(d, j)
                        == first.component_row(d, j),
                forall|i: int, l: int|
                    0 <= i < d1.len() && i != id@ && 0 <= l < d1[i].archetype.len()
                        ==> #[trigger] archetypes.component_row(d1[i], l) == first.component_row(
                        d1[i],
                        l,
                    ),
            decreases n - k,
        {
            let ghost prev = *archetypes;
            let ghost rows = archetypes.buffer_rows();
            proof {
                assert(first.has_row(d, k as int));
                assert(cols[k as int].values == self.columns@[k as int]@);
            }
            archetypes.append_components(id, k, &mut self.columns[k]);
            proof {
                let b = first.buffer_of(a[k as int]);
                let row = d.component_map[k as int] as int;
                lemma_index_of(
                    first.buffer_ranks(),
                    a[k as int],
                    first.buffer_ranks().len() as int,
                );
                assert forall|j: int| 0 <= j < n
                    && j != k implies #[trigger] archetypes.component_row(
                    d,
                    j,
                ) == prev.component_row(d, j) by {
                    assert(first.has_row(d, j));
                    lemma_index_of(
                        first.buffer_ranks(),
                        a[j],
                        first.buffer_ranks().len() as int,
                    );
                    assert(a[j] != a[k as int]);
                }
                assert forall|i: int, l: int|
                    0 <= i < d1.len() && i != id@ && 0 <= l < d1[i].archetype.len()
                        implies #[trigger] archetypes.component_row(d1[i], l)
                    == first.component_row(d1[i], l) by {
                    let o = d1[i];
                    assert(first.describes(o));
                    assert(first.has_row(o, l));
                    lemma_index_of(
                        first.buffer_ranks(),
                        o.archetype[l],
                        first.buffer_ranks().len() as int,
                    );
                    if i < id@ {
                        assert(apart(d1[i], d1[id@]));
                    } else {
                        assert(apart(d1[id@], d1[i]));
                    }
                    assert(prev.component_row(o, l) == first.component_row(o, l));
                    if first.buffer_of(o.archetype[l]) == b {
                        assert(o.archetype[l] == a[k as int]);
                        assert(o.component_map[l] != d.component_map[k as int]);
                    }
                }
            }
            k += 1;
        }
        proof {
            assert(column_ranks(self@) =~= a);
            assert(ascending(a));
            let last = *archetypes;
            assert(last.entity_rows() == second.entity_rows());
            assert forall|i: int| 0 <= i < d0.len() && i != id@ implies kept(
                before,
                last,
                #[trigger] d0[i],
            ) by {
                assert(kept(before, first, d0[i]));
                assert(d1[i] == d0[i]);
                assert(last.entity_row(d1[i]) == first.entity_row(d1[i]));
                assert forall|l: int| 0 <= l
                    < d0[i].archetype.len() implies #[trigger] last.component_row(
                    d0[i],
                    l,
                ) == before.component_row(d0[i], l) by {
                    assert(last.component_row(d1[i], l) == first.component_row(d1[i], l));
                    assert(first.component_row(d0[i], l) == before.component_row(d0[i], l));
                }
            }
            assert forall|j: int| 0 <= j < cols.len() implies ({
                let row = #[trigger] last.component_row(d, j);
                &&& row.len() == begin + cols[j].values.len()
                &&& row.subrange(begin as int, begin + cols[j].values.len()) == cols[j].values
                &&& found.is_some() ==> row.take(begin as int) == before.component_row(d0[id@], j)
            }) by {
                let row = last.component_row(d, j);
                let was = first.component_row(d, j);
                assert(first.has_row(d, j));
                assert(was.len() == first.entity_row(d).len());
                assert(row == was + cols[j].values);
                assert(row.subrange(begin as int, begin + cols[j].values.len())
                    =~= cols[j].values);
                assert(row.take(begin as int) =~= was);
            }
            if found.is_none() {
                assert(first.entity_row(d) =~= Seq::<Entity>::empty());
            }
            if cols.len() > 0 && entities@.len() == cols[0].values.len() {
                assert forall|j: int| 0 <= j < d.archetype.len() implies (
                #[trigger] last.component_row(d, j)).len() == first.component_row(d, j).len()
                    + entities@.len() by {
                    assert(last.component_row(d, j) == first.component_row(d, j)
                        + cols[j].values);
                    assert(cols[j].values.len() == cols[0].values.len());
                }
                lemma_populated_after_move(first, last, id@, entities@);
            }
        }
        (id, begin)
    }

    /// The archetype of the pack: the types of its columns.
    pub fn archetype(&self) -> (r: Archetype)
        requires
            self.wf(),
        ensures
            r@ == column_ranks(self@),
    {
        let ghost rs = column_ranks(self@);
        let mut archetype = Archetype::default();
        let mut k: usize = 0;
        while k < self.types.len()
            invariant
                k <= self.types@.len(),
                self.wf(),
                rs == column_ranks(self@),
                archetype@ == rs.take(k as int),
            decreases self.types.len() - k,
        {
            proof {
                let t = rs.take(k as int);
                let x = rs[k as int];
                assert(x == type_rank(self.types@[k as int]));
                assert forall|i: int| 0 <= i < t.len() implies t[i] <= x by {
                    assert(t[i] == rs[i]);
                }
                assert(ascending(t)) by {
                    assert forall|i: int, j: int| 0 <= i < j < t.len() implies t[i] <= t[j] by {
                        assert(t[i] == rs[i] && t[j] == rs[j]);
                    }
                }
                lemma_append_point(t, x);
                assert(t.insert(t.len() as int, x) =~= rs.take(k + 1));
            }
            archetype.add_component_by_id(self.types[k]);
            k += 1;
        }
        assert(rs.take(k as int) =~= rs);
        archetype
    }
}

/// The rows of descriptor `o` hold in `new` what they held in `old`.
pub open spec fn kept<C>(old: Archetypes<C>, new: Archetypes<C>, o: DescriptorView) -> bool {
    &&& new.entity_row(o) == old.entity_row(o)
    &&& forall|l: int|
        0 <= l < o.archetype.len() ==> #[trigger] new.component_row(o, l) == old.component_row(o, l)
}

/// What `move_into` does to a registry. The descriptor `id` is the last one
/// registered for the archetype of the columns, or a new one where there was
/// none. Its rows held `begin` values each; now the row of entities holds the
/// new entities behind them, and the row of each component type the values
/// of its column. The rows of every other descriptor hold what they held.
pub open spec fn moved<C>(
    old: Archetypes<C>,
    new: Archetypes<C>,
    cols: Seq<ColumnView<C>>,
    entities: Seq<Entity>,
    id: int,
    begin: int,
) -> bool {
    let d0 = old.descriptors_view();
    let d1 = new.descriptors_view();
    let found = last_of(d0, column_ranks(cols), d0.len() as int);
    &&& 0 <= id < d1.len()
    &&& d1[id].archetype == column_ranks(cols)
    &&& found >= 0 ==> id == found && d1 == d0 && begin == old.entity_row(d0[id]).len()
    &&& found < 0 ==> id == d0.len() && d1.len() == d0.len() + 1 && d1.drop_last() == d0 && begin
        == 0
    &&& new.entity_row(d1[id]).len() == begin + entities.len()
    &&& new.entity_row(d1[id]).subrange(begin, begin + entities.len()) == entities
    &&& found >= 0 ==> new.entity_row(d1[id]).take(begin) == old.entity_row(d0[id])
    &&& forall|k: int|
        0 <= k < cols.len() ==> {
            let row = #[trigger] new.component_row(d1[id], k);
            &&& row.len() == begin + cols[k].values.len()
            &&& row.subrange(begin, begin + cols[k].values.len()) == cols[k].values
            &&& found >= 0 ==> row.take(begin) == old.component_row(d0[id], k)
        }
    &&& forall|i: int| 0 <= i < d0.len() && i != id ==> kept(old, new, #[trigger] d0[i])
}

/// The rows of one descriptor, the row of entities with them, have all
/// grown by as many values as there are new entities, and nothing else has
/// changed.
pub open spec fn grown<C>(first: Archetypes<C>, last: Archetypes<C>, id: int, news: Seq<Entity>) -> bool {
    let ds = first.descriptors_view();
    &&& last.descriptors_view() == ds
    &&& 0 <= id < ds.len()
    &&& last.buffer_ranks() == first.buffer_ranks()
    &&& last.buffer_rows().len() == first.buffer_rows().len()
    &&& forall|b: int|
        0 <= b < first.buffer_rows().len() ==> (#[trigger] last.buffer_rows()[b]).len()
            == first.buffer_rows()[b].len()
    &&& last.entity_rows() == first.entity_rows().update(
        ds[id].entities as int,
        first.entity_row(ds[id]) + news,
    )
    &&& forall|j: int|
        0 <= j < ds[id].archetype.len() ==> (#[trigger] last.component_row(ds[id], j)).len()
            == first.component_row(ds[id], j).len() + news.len()
    &&& forall|i: int, l: int|
        0 <= i < ds.len() && i != id && 0 <= l < ds[i].archetype.len()
            ==> #[trigger] last.component_row(ds[i], l) == first.component_row(ds[i], l)
}

/// After the rows of descriptor `id` have grown, descriptor `i` fits the
/// registry as it did before.
pub proof fn lemma_describes_after_move<C>(
    first: Archetypes<C>,
    last: Archetypes<C>,
    id: int,
    news: Seq<Entity>,
    i: int,
)
    requires
        first.populated(),
        grown(first, last, id, news),
        0 <= i < first.descriptors_view().len(),
    ensures
        last.describes(first.descriptors_view()[i]),
{
    let ds = first.descriptors_view();
    let d = ds[id];
    let o = ds[i];
    assert(first.describes(d));
    assert(first.describes(o));
    if i != id {
        if i < id {
            assert(apart(ds[i], ds[id]));
        } else {
            assert(apart(ds[id], ds[i]));
        }
        assert(last.entity_row(o) == first.entity_row(o));
    } else {
        assert(last.entity_row(o) == first.entity_row(o) + news);
    }
    assert forall|l: int| 0 <= l < o.archetype.len() implies #[trigger] last.has_row(o, l)
        && last.component_row(o, l).len() == last.entity_row(o).len() by {
        assert(first.has_row(o, l));
        assert(first.component_row(o, l).len() == first.entity_row(o).len());
        let b = first.buffer_of(o.archetype[l]);
        assert(last.buffer_rows()[b].len() == first.buffer_rows()[b].len());
        if i != id {
            assert(last.component_row(ds[i], l) == first.component_row(ds[i], l));
        } else {
            assert(last.component_row(ds[id], l).len() == first.component_row(ds[id], l).len()
                + news.len());
        }
    }
}

/// A registry stays populated when the rows of one descriptor, the row of
/// entities with them, have all grown by as many values as there are new
/// entities, and nothing else has changed.
pub proof fn lemma_populated_after_move<C>(
    first: Archetypes<C>,
    last: Archetypes<C>,
    id: int,
    news: Seq<Entity>,
)
    requires
        first.populated(),
        grown(first, last, id, news),
    ensures
        last.populated(),
{
    let ds = first.descriptors_view();
    assert forall|i: int| 0 <= i < ds.len() implies last.describes(#[trigger] ds[i]) by {
        lemma_describes_after_move(first, last, id, news, i);
    }
    assert forall|i: int, j: int| 0 <= i < j < ds.len() implies apart(
        #[trigger] ds[i],
        #[trigger] ds[j],
    ) by {}
}

/// The rows of a descriptor that fitted the registry before a descriptor
/// was created hold afterwards what they held.
pub proof fn lemma_kept_after_create<C>(old: Archetypes<C>, new: Archetypes<C>, o: DescriptorView)
    requires
        old.describes(o),
        old.buffer_rows().len() == old.buffer_ranks().len(),
        new.entity_rows().len() >= old.entity_rows().len(),
        new.entity_rows().take(old.entity_rows().len() as int) == old.entity_rows(),
        old.buffer_ranks().len() <= new.buffer_ranks().len(),
        new.buffer_ranks().take(old.buffer_ranks().len() as int) == old.buffer_ranks(),
        crate::archetypes::rows_extend(old.buffer_rows(), new.buffer_rows()),
    ensures
        kept(old, new, o),
{
    assert(new.entity_rows().take(old.entity_rows().len() as int)[o.entities as int]
        == new.entity_rows()[o.entities as int]);
    assert forall|l: int| 0 <= l < o.archetype.len() implies #[trigger] new.component_row(o, l)
        == old.component_row(o, l) by {
        assert(old.has_row(o, l));
        crate::archetypes::lemma_index_of_prefix(
            old.buffer_ranks(),
            new.buffer_ranks(),
            o.archetype[l],
        );
    }
}

/// An element that is not below any element of an ascending sequence can be
/// inserted at the insertion point, which leaves the elements before it that
/// are below it, and so gives the same ranks as appending where the order
/// allows both.
pub proof fn lemma_append_point(t: Seq<int>, x: int)
    requires
        ascending(t),
        forall|i: int| 0 <= i < t.len() ==> t[i] <= x,
    ensures
        t.insert(insertion_point(t, x), x) == t.insert(t.len() as int, x),
{
    crate::archetype::lemma_insertion_point(t, x);
    let k = insertion_point(t, x);
    let a = t.insert(k, x);
    let b = t.insert(t.len() as int, x);
    assert forall|i: int| 0 <= i < a.len() implies a[i] == b[i] by {
        if i < k {
        } else if i == k {
            if k < t.len() {
                assert(t[k] >= x && t[k] <= x);
            }
        } else {
            assert(a[i] == t[i - 1]);
            assert(t[i - 1] >= x && t[i - 1] <= x);
            if i < t.len() {
                assert(t[i] >= x && t[i] <= x);
            }
        }
    }
    assert(a =~= b);
}

} // verus!
