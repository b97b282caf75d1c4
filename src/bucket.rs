//! A lazily allocated block of slots, the unit in which an arena grows.
use vstd::prelude::*;

use crate::location::{bucket_capacity, Location, BUCKETS};
use crate::slot::{Slot, State};

verus! {

/// `len` slots that hold nothing.
pub open(crate) spec fn fresh_slots<T>(len: nat) -> Seq<Slot<T>> {
    Seq::new(len, |i: int| Slot { state: State::Uninit, node: None })
}

/// A block of slots that is allocated on first use and then never moves.
pub struct Bucket<T> {
    pub(crate) entries: Option<Vec<Slot<T>>>,
}

impl<T> Bucket<T> {
    /// The block has been allocated.
    pub open(crate) spec fn is_allocated(&self) -> bool {
        self.entries is Some
    }

    /// The slots of an allocated block.
    pub open(crate) spec fn slots(&self) -> Seq<Slot<T>> {
        self.entries.unwrap()@
    }

    /// Bucket number `b` is either unallocated, or holds `bucket_capacity(b)`
    /// slots at rest.
    pub open(crate) spec fn wf(&self, b: nat) -> bool {
        self.is_allocated() ==> {
            &&& self.slots().len() == bucket_capacity(b)
            &&& forall|e: int| 0 <= e < self.slots().len() ==> (#[trigger] self.slots()[e]).wf()
        }
    }

    /// A block that is not allocated yet.
    pub(crate) fn empty() -> (r: Bucket<T>)
        ensures
            !r.is_allocated(),
    {
        Bucket { entries: None }
    }

    /// The slot at `entry`, if the block is allocated.
    pub fn get(&self, entry: usize) -> (r: Option<&Slot<T>>)
        requires
            self.is_allocated() ==> entry < self.slots().len(),
        ensures
            r == (if self.is_allocated() {
                Some(&self.slots()[entry as int])
            } else {
                None
            }),
    {
        match &self.entries {
            Some(entries) => Some(&entries[entry]),
            None => None,
        }
    }

    /// The slot at `loc`, in a block that is allocated first if it was not.
    pub fn acquire(&mut self, loc: Location) -> (r: &mut Slot<T>)
        requires
            loc.bucket < BUCKETS,
            loc.entry < bucket_capacity(loc.bucket as nat),
            old(self).wf(loc.bucket as nat),
        ensures
            ({
                let before = if old(self).is_allocated() {
                    old(self).slots()
                } else {
                    fresh_slots(bucket_capacity(loc.bucket as nat))
                };
                &&& *r == before[loc.entry as int]
                &&& final(self).is_allocated()
                &&& final(self).slots() == before.update(loc.entry as int, *final(r))
            }),
    {
        self.reserve(loc.bucket);
        match &mut self.entries {
            Some(entries) => &mut entries[loc.entry],
            None => vstd::pervasive::unreached(),
        }
    }

    /// Allocates an unallocated block of `len` slots.
    pub fn overwrite(&mut self, len: usize)
        requires
            !old(self).is_allocated(),
        ensures
            final(self).is_allocated(),
            final(self).slots() == fresh_slots::<T>(len as nat),
    {
        self.entries = Some(Self::allocate(len));
    }

    /// `len` slots that hold nothing.
    fn allocate(len: usize) -> (r: Vec<Slot<T>>)
        ensures
            r@ == fresh_slots::<T>(len as nat),
    {
        let mut entries: Vec<Slot<T>> = Vec::with_capacity(len);
        let mut i: usize = 0;
        while i < len
            invariant
                i <= len,
                entries@ == fresh_slots::<T>(i as nat),
            decreases len - i,
        {
            entries.push(Slot::new());
            i += 1;
            assert(entries@ =~= fresh_slots::<T>(i as nat));
        }
        entries
    }

    /// Allocates bucket number `bucket` if it is not allocated yet.
    pub fn reserve(&mut self, bucket: usize)
        requires
            bucket < BUCKETS,
        ensures
            final(self).is_allocated(),
            old(self).is_allocated() ==> *final(self) == *old(self),
            !old(self).is_allocated() ==> final(self).slots() == fresh_slots::<T>(
                bucket_capacity(bucket as nat),
            ),
    {
        if !self.is_alloc() {
            self.overwrite(Location::capacity(bucket));
        }
    }

    /// Whether the block is allocated.
    pub fn is_alloc(&self) -> (r: bool)
        ensures
            r == self.is_allocated(),
    {
        self.entries.is_some()
    }
}

} // verus!
