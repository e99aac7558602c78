//! A panicky read-write lock, as a counter of accesses.
//!
//! The lock owns a value and counts who holds it: zero for nobody, the number
//! of readers while it is read, and the largest number while it is written.
//! It never waits. Taking it in a way that overlaps with a writer is a
//! mistake of the caller, which the contracts here rule out: `read` asks that
//! nobody writes, `write` that nobody holds the lock at all.

use std::marker::PhantomData;
use vstd::prelude::*;

verus! {

/// The count that stands for a writer.
pub const EXCLUSIVE: u32 = 0xffff_ffff;

/// A read-write lock that counts its accesses and never waits.
pub struct PrwLock<T> {
    data: T,
    access_state: u32,
}

/// The right to read the value of the lock it was taken from.
pub struct PrwReadHandle<T> {
    _phantom: PhantomData<T>,
}

/// The right to read and to change the value of the lock it was taken from.
pub struct PrwWriteHandle<T> {
    _phantom: PhantomData<T>,
}

impl<T> PrwLock<T> {
    /// The count of accesses.
    pub closed spec fn count(&self) -> u32 {
        self.access_state
    }

    /// The value that the lock guards.
    pub closed spec fn value(&self) -> T {
        self.data
    }

    /// Nobody holds the lock.
    pub open spec fn is_idle(&self) -> bool {
        self.count() == 0
    }

    /// A writer holds the lock.
    pub open spec fn is_exclusive(&self) -> bool {
        self.count() == EXCLUSIVE
    }

    /// Readers hold the lock, and nobody writes.
    pub open spec fn is_shared(&self) -> bool {
        0 < self.count() < EXCLUSIVE
    }

    pub fn new(data: T) -> (r: Self)
        ensures
            r.is_idle(),
            r.value() == data,
    {
        Self { data, access_state: 0 }
    }

    /// The count of accesses: zero, the number of readers, or `EXCLUSIVE`.
    pub fn access_state(&self) -> (r: u32)
        ensures
            r == self.count(),
    {
        self.access_state
    }

    /// Gets read access to the data in the lock: one reader more. Nobody may
    /// be writing.
    pub fn read(&mut self) -> (r: PrwReadHandle<T>)
        requires
            admits(old(self).count() as int, Access::Read),
        ensures
            final(self).count() == count_after(old(self).count() as int, Access::Read),
            final(self).value() == old(self).value(),
    {
        self.access_state = self.access_state + 1;
        PrwReadHandle { _phantom: PhantomData }
    }

    /// Gets write access to the data in the lock. Nobody may hold the lock.
    pub fn write(&mut self) -> (r: PrwWriteHandle<T>)
        requires
            admits(old(self).count() as int, Access::Write),
        ensures
            final(self).count() == count_after(old(self).count() as int, Access::Write),
            final(self).value() == old(self).value(),
    {
        self.access_state = EXCLUSIVE;
        PrwWriteHandle { _phantom: PhantomData }
    }

    /// Gives a read handle back: one reader less.
    pub fn release_read(&mut self, handle: PrwReadHandle<T>)
        requires
            admits(old(self).count() as int, Access::ReadDone),
        ensures
            final(self).count() == count_after(old(self).count() as int, Access::ReadDone),
            final(self).value() == old(self).value(),
    {
        self.access_state = self.access_state - 1;
    }

    /// Gives the write handle back: the lock is idle again, and holds the
    /// last value written.
    pub fn release_write(&mut self, handle: PrwWriteHandle<T>)
        requires
            admits(old(self).count() as int, Access::WriteDone),
        ensures
            final(self).count() == count_after(old(self).count() as int, Access::WriteDone),
            final(self).value() == old(self).value(),
    {
        self.access_state = 0;
    }

    /// The value as a reader would see it who takes the lock and gives it
    /// back at once. Nobody may be writing.
    pub fn peek(&self) -> (r: &T)
        requires
            !self.is_exclusive(),
        ensures
            *r == self.value(),
    {
        &self.data
    }

    /// The value, for a reader.
    pub fn get(&self, handle: &PrwReadHandle<T>) -> (r: &T)
        requires
            self.is_shared(),
        ensures
            *r == self.value(),
    {
        &self.data
    }

    /// The value, for the writer.
    pub fn get_written(&self, handle: &PrwWriteHandle<T>) -> (r: &T)
        requires
            self.is_exclusive(),
        ensures
            *r == self.value(),
    {
        &self.data
    }

    /// The value, for the writer to change.
    pub fn get_mut(&mut self, handle: &PrwWriteHandle<T>) -> (r: &mut T)
        requires
            old(self).is_exclusive(),
        ensures
            *r == old(self).value(),
            final(self).value() == *final(r),
            final(self).count() == old(self).count(),
    {
        &mut self.data
    }

    /// Writes a new value, for the writer.
    pub fn set(&mut self, handle: &PrwWriteHandle<T>, value: T)
        requires
            old(self).is_exclusive(),
        ensures
            final(self).is_exclusive(),
            final(self).value() == value,
    {
        self.data = value;
    }
}

/// What can be done with a lock: take it to read, give a read handle back,
/// take it to write, give the write handle back.
pub enum Access {
    Read,
    ReadDone,
    Write,
    WriteDone,
}

/// Whether a lock with the count `count` admits the access: what the
/// functions of the lock ask for.
pub open spec fn admits(count: int, access: Access) -> bool {
    match access {
        Access::Read => count != EXCLUSIVE,
        Access::ReadDone => 0 < count < EXCLUSIVE,
        Access::Write => count == 0,
        Access::WriteDone => count == EXCLUSIVE,
    }
}

/// The count of a lock after an access that it admits.
pub open spec fn count_after(count: int, access: Access) -> int {
    match access {
        Access::Read => count + 1,
        Access::ReadDone => count - 1,
        Access::Write => EXCLUSIVE as int,
        Access::WriteDone => 0,
    }
}

/// The count of a lock after a series of accesses; `None` where the lock
/// does not admit one of them.
pub open spec fn count_after_all(count: int, accesses: Seq<Access>) -> Option<int>
    decreases accesses.len(),
{
    if accesses.len() == 0 {
        Some(count)
    } else if admits(count, accesses[0]) {
        count_after_all(count_after(count, accesses[0]), accesses.skip(1))
    } else {
        None
    }
}

/// `n` times the same access.
pub open spec fn repeated(access: Access, n: nat) -> Seq<Access> {
    Seq::new(n, |i: int| access)
}

/// Readers never lock one another out: a lock that fewer than `EXCLUSIVE`
/// readers hold in all admits `n` more of them.
pub proof fn lemma_readers_come(count: int, n: nat)
    requires
        0 <= count,
        count + n < EXCLUSIVE,
    ensures
        count_after_all(count, repeated(Access::Read, n)) == Some(count + n),
    decreases n,
{
    let all = repeated(Access::Read, n);
    if n > 0 {
        assert(all.skip(1) =~= repeated(Access::Read, (n - 1) as nat));
        lemma_readers_come(count + 1, (n - 1) as nat);
    }
}

/// The readers of a lock can all give it back.
pub proof fn lemma_readers_go(count: int, n: nat)
    requires
        n <= count < EXCLUSIVE,
    ensures
        count_after_all(count, repeated(Access::ReadDone, n)) == Some(count - n),
    decreases n,
{
    let all = repeated(Access::ReadDone, n);
    if n > 0 {
        assert(all.skip(1) =~= repeated(Access::ReadDone, (n - 1) as nat));
        lemma_readers_go(count - 1, (n - 1) as nat);
    }
}

/// A writer overlaps with nobody: a lock admits a writer only when nobody
/// holds it, and while a writer holds it, it admits neither a reader nor
/// another writer. When the writer has given it back, it admits both.
pub proof fn lemma_writer_alone(count: int)
    requires
        0 <= count <= EXCLUSIVE,
    ensures
        admits(count, Access::Write) <==> count == 0,
        admits(count, Access::Write) ==> !admits(
            count_after(count, Access::Write),
            Access::Read,
        ) && !admits(count_after(count, Access::Write), Access::Write),
        admits(count, Access::WriteDone) ==> admits(
            count_after(count, Access::WriteDone),
            Access::Write,
        ) && admits(count_after(count, Access::WriteDone), Access::Read),
{
}

} // verus!
