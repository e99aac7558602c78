//! Rows of values of one type, each behind its own lock.

use crate::prw_lock::{PrwLock, PrwReadHandle, PrwWriteHandle};
use vstd::prelude::*;

verus! {

/// Holds lists of objects of a single type. The `Archetypes` uses these to allocate memory for
/// components and entities.
pub struct DataBuffers<T> {
    buffers: Vec<PrwLock<Vec<T>>>,
}

/// What the containers of every component type have in common: rows can be
/// allocated in them.
pub trait GenericDataBuffers {
    /// The number of rows.
    spec fn row_count(&self) -> nat;

    /// Allocates a new row of component storage and returns the index of the row.
    fn create(&mut self) -> (r: usize)
        ensures
            r == old(self).row_count(),
            final(self).row_count() == old(self).row_count() + 1,
    ;
}

impl<T> View for DataBuffers<T> {
    type V = Seq<Seq<T>>;

    /// The rows, each with the values it holds.
    closed spec fn view(&self) -> Seq<Seq<T>> {
        Seq::new(self.buffers@.len(), |i: int| self.buffers@[i].value()@)
    }
}

impl<T> Default for DataBuffers<T> {
    fn default() -> (r: Self)
        ensures
            r@ == Seq::<Seq<T>>::empty(),
            r.counts() == Seq::<u32>::empty(),
    {
        let r = DataBuffers { buffers: Vec::new() };
        assert(r@ =~= Seq::<Seq<T>>::empty());
        assert(r.counts() =~= Seq::<u32>::empty());
        r
    }
}

impl<T> DataBuffers<T> {
    /// The count of accesses of each row's lock.
    pub closed spec fn counts(&self) -> Seq<u32> {
        Seq::new(self.buffers@.len(), |i: int| self.buffers@[i].count())
    }

    /// Every row has its lock.
    pub proof fn lemma_counts_len(&self)
        ensures
            self.counts().len() == self@.len(),
    {
    }

    /// No row is held by anybody.
    pub open spec fn all_idle(&self) -> bool {
        forall|i: int| 0 <= i < self.counts().len() ==> self.counts()[i] == 0
    }

    /// The number of rows.
    pub fn len(&self) -> (r: usize)
        ensures
            r == self@.len(),
            self.counts().len() == self@.len(),
    {
        self.buffers.len()
    }

    /// The count of accesses of row `i`.
    pub fn access_state(&self, i: usize) -> (r: u32)
        requires
            i < self@.len(),
        ensures
            r == self.counts()[i as int],
    {
        self.buffers[i].access_state()
    }

    /// The number of values in row `i`, which nobody may be writing: the row
    /// is read, and given back at once.
    pub fn row_len(&self, i: usize) -> (r: usize)
        requires
            i < self@.len(),
            self.counts()[i as int] != crate::prw_lock::EXCLUSIVE,
        ensures
            r == self@[i as int].len(),
    {
        self.buffers[i].peek().len()
    }

    /// Row `i` as a reader would see it who takes the row and gives it back
    /// at once. Nobody may be writing it.
    pub fn peek_row(&self, i: usize) -> (r: &Vec<T>)
        requires
            i < self@.len(),
            self.counts()[i as int] != crate::prw_lock::EXCLUSIVE,
        ensures
            r@ == self@[i as int],
    {
        self.buffers[i].peek()
    }

    /// Allocates a new row and returns the index of the row: rows are
    /// numbered in the order of their allocation.
    pub fn create(&mut self) -> (r: usize)
        ensures
            r == old(self)@.len(),
            final(self)@ == old(self)@.push(Seq::<T>::empty()),
            final(self).counts() == old(self).counts().push(0),
    {
        let r = self.buffers.len();
        self.buffers.push(PrwLock::new(Vec::new()));
        assert(self@ =~= old(self)@.push(Seq::<T>::empty()));
        assert(self.counts() =~= old(self).counts().push(0));
        r
    }

    /// Requests immutable access to a buffer within the container. The row
    /// has to exist, and nobody may be writing it.
    pub fn get(&mut self, i: usize) -> (r: PrwReadHandle<Vec<T>>)
        requires
            i < old(self)@.len(),
            old(self).counts()[i as int] != crate::prw_lock::EXCLUSIVE,
        ensures
            final(self)@ == old(self)@,
            final(self).counts() == old(self).counts().update(
                i as int,
                (old(self).counts()[i as int] + 1) as u32,
            ),
    {
        let h = self.buffers[i].read();
        assert(self@ =~= old(self)@);
        assert(self.counts() =~= old(self).counts().update(
            i as int,
            (old(self).counts()[i as int] + 1) as u32,
        ));
        h
    }

    /// Requests mutable access to a buffer within the container. The row has
    /// to exist, and nobody may hold it.
    pub fn get_mut(&mut self, i: usize) -> (r: PrwWriteHandle<Vec<T>>)
        requires
            i < old(self)@.len(),
            old(self).counts()[i as int] == 0,
        ensures
            final(self)@ == old(self)@,
            final(self).counts() == old(self).counts().update(
                i as int,
                crate::prw_lock::EXCLUSIVE,
            ),
    {
        let h = self.buffers[i].write();
        assert(self@ =~= old(self)@);
        assert(self.counts() =~= old(self).counts().update(
            i as int,
            crate::prw_lock::EXCLUSIVE,
        ));
        h
    }

    /// Gives a read handle on row `i` back.
    pub fn release(&mut self, i: usize, handle: PrwReadHandle<Vec<T>>)
        requires
            i < old(self)@.len(),
            0 < old(self).counts()[i as int] < crate::prw_lock::EXCLUSIVE,
        ensures
            final(self)@ == old(self)@,
            final(self).counts() == old(self).counts().update(
                i as int,
                (old(self).counts()[i as int] - 1) as u32,
            ),
    {
        self.buffers[i].release_read(handle);
        assert(self@ =~= old(self)@);
        assert(self.counts() =~= old(self).counts().update(
            i as int,
            (old(self).counts()[i as int] - 1) as u32,
        ));
    }

    /// Gives the write handle on row `i` back.
    pub fn release_mut(&mut self, i: usize, handle: PrwWriteHandle<Vec<T>>)
        requires
            i < old(self)@.len(),
            old(self).counts()[i as int] == crate::prw_lock::EXCLUSIVE,
        ensures
            final(self)@ == old(self)@,
            final(self).counts() == old(self).counts().update(i as int, 0),
    {
        self.buffers[i].release_write(handle);
        assert(self@ =~= old(self)@);
        assert(self.counts() =~= old(self).counts().update(i as int, 0));
    }

    /// Row `i`, for a reader of it.
    pub fn row(&self, i: usize, handle: &PrwReadHandle<Vec<T>>) -> (r: &Vec<T>)
        requires
            i < self@.len(),
            0 < self.counts()[i as int] < crate::prw_lock::EXCLUSIVE,
        ensures
            r@ == self@[i as int],
    {
        self.buffers[i].get(handle)
    }

    /// Row `i`, for the writer of it.
    pub fn written_row(&self, i: usize, handle: &PrwWriteHandle<Vec<T>>) -> (r: &Vec<T>)
        requires
            i < self@.len(),
            self.counts()[i as int] == crate::prw_lock::EXCLUSIVE,
        ensures
            r@ == self@[i as int],
    {
        self.buffers[i].get_written(handle)
    }

    /// Writes `value` at index `at` of row `i`, for the writer of it.
    pub fn set(&mut self, i: usize, handle: &PrwWriteHandle<Vec<T>>, at: usize, value: T)
        requires
            i < old(self)@.len(),
            old(self).counts()[i as int] == crate::prw_lock::EXCLUSIVE,
            at < old(self)@[i as int].len(),
        ensures
            final(self)@ == old(self)@.update(
                i as int,
                old(self)@[i as int].update(at as int, value),
            ),
            final(self).counts() == old(self).counts(),
    {
        let row = self.buffers[i].get_mut(handle);
        row[at] = value;
        assert(self@ =~= old(self)@.update(
            i as int,
            old(self)@[i as int].update(at as int, value),
        ));
        assert(self.counts() =~= old(self).counts());
    }

    /// Appends `values` to row `i`, for the writer of it, and leaves `values` empty.
    pub fn append(&mut self, i: usize, handle: &PrwWriteHandle<Vec<T>>, values: &mut Vec<T>)
        requires
            i < old(self)@.len(),
            old(self).counts()[i as int] == crate::prw_lock::EXCLUSIVE,
        ensures
            final(self)@ == old(self)@.update(i as int, old(self)@[i as int] + old(values)@),
            final(self).counts() == old(self).counts(),
            final(values)@ == Seq::<T>::empty(),
    {
        let row = self.buffers[i].get_mut(handle);
        row.append(values);
        assert(self@ =~= old(self)@.update(i as int, old(self)@[i as int] + old(values)@));
        assert(self.counts() =~= old(self).counts());
    }
}

impl<T> GenericDataBuffers for DataBuffers<T> {
    open spec fn row_count(&self) -> nat {
        self@.len()
    }

    fn create(&mut self) -> (r: usize) {
        DataBuffers::create(self)
    }
}

} // verus!
