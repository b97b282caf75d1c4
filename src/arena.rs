//! The arena: a fixed table of buckets, and the counters that hand out indices.
use vstd::prelude::*;

use crate::bucket::{fresh_slots, Bucket};
use crate::index::{index_at, lemma_index_at, lemma_index_view_eq, AsParent, Index};
use crate::location::{
    bucket_capacity,
    bucket_of,
    entry_of,
    lemma_bucket_of_monotone,
    lemma_bucket_of_range,
    lemma_bucket_of_next,
    lemma_buckets_cover_max_index,
    lemma_index_at_location,
    lemma_location_in_bounds,
    lemma_location_of,
    lemma_slots_below_increases,
    slots_below,
    Location,
    BUCKETS,
    MAX_INDEX,
};
use crate::node::{link, Node};
use crate::slot::Slot;
use crate::tree::{
    children_before,
    children_of,
    is_forest,
    lemma_children_before_props,
    lemma_pushed_all_len,
    lemma_pushed_is_forest,
    pushed,
    pushed_all,
};

verus! {

/// Why an operation on an arena could not be done.
#[derive(Debug, Clone, Copy, PartialEq, Eq, Structural)]
pub enum Error {
    /// The arena already holds `MAX_INDEX + 1` nodes.
    CapacityOverflow,
    /// The index names no node of the arena.
    InvalidIndex,
}

/// The slots in the allocated ones among the first `n` buckets.
pub open spec fn allocated_slots(alloc: Seq<bool>, n: nat) -> nat
    decreases n,
{
    if n == 0 {
        0
    } else {
        allocated_slots(alloc, (n - 1) as nat) + if alloc[n - 1] {
            bucket_capacity((n - 1) as nat)
        } else {
            0
        }
    }
}

/// The slots in all allocated buckets: the capacity of an arena whose buckets
/// are allocated as `alloc` says.
pub open spec fn capacity_of(alloc: Seq<bool>) -> nat {
    allocated_slots(alloc, alloc.len())
}

/// The buckets of an arena that has allocated none.
pub open spec fn unallocated() -> Seq<bool> {
    Seq::new(BUCKETS as nat, |b: int| false)
}

/// `alloc` after every bucket up to the one holding index `upto` is allocated.
pub open spec fn reserved(alloc: Seq<bool>, upto: nat) -> Seq<bool> {
    Seq::new(alloc.len(), |b: int| alloc[b] || b <= bucket_of(upto))
}

/// Reserving up to `u` and then up to `v` reserves up to the larger of the two.
pub proof fn lemma_reserved_twice(alloc: Seq<bool>, u: nat, v: nat)
    ensures
        reserved(reserved(alloc, u), v) == reserved(alloc, if u < v { v } else { u }),
{
    if u < v {
        lemma_bucket_of_monotone(u, v);
    } else {
        lemma_bucket_of_monotone(v, u);
    }
    assert(reserved(reserved(alloc, u), v) =~= reserved(alloc, if u < v { v } else { u }));
}

/// `parent` is a root's (`None`) or names one of the first `len` nodes.
pub open spec fn parent_in(parent: Option<Index>, len: nat) -> bool {
    match parent {
        Some(p) => p@ < len,
        None => true,
    }
}

/// Relies on `std::ptr::eq`: references to one place in memory refer to one
/// value.
#[verifier::external_body]
fn same_node<T>(a: &Node<T>, b: &Node<T>) -> (r: bool)
    ensures
        r ==> *a == *b,
{
    std::ptr::eq(a, b)
}

/// The arena where nodes are stored.
pub struct Arena<T> {
    buckets: Vec<Bucket<T>>,
    /// The next index to hand out.
    index: usize,
    /// The number of nodes stored.
    count: usize,
}

impl<T> View for Arena<T> {
    type V = Seq<Node<T>>;

    /// The stored nodes, in the order of their indices.
    closed spec fn view(&self) -> Seq<Node<T>> {
        Seq::new(self.count as nat, |i: int| self.slot_at(i as nat).spec_node())
    }
}

impl<T> Arena<T> {
    /// Which buckets are allocated.
    pub closed spec fn allocation(&self) -> Seq<bool> {
        Seq::new(BUCKETS as nat, |b: int| self.buckets@[b].is_allocated())
    }

    /// The slot for index `i`.
    closed spec fn slot_at(&self, i: nat) -> Slot<T> {
        self.buckets@[bucket_of(i) as int].slots()[entry_of(i) as int]
    }

    /// What holds of the arena between steps of an append: indices below
    /// `index` are handed out, and the first `count` of them stored.
    closed spec fn inv(&self) -> bool {
        &&& self.buckets@.len() == BUCKETS
        &&& self.count <= self.index <= MAX_INDEX + 1
        &&& forall|b: int| 0 <= b < BUCKETS ==> (#[trigger] self.buckets@[b]).wf(b as nat)
        &&& forall|b1: int, b2: int|
            #![trigger self.buckets@[b1], self.buckets@[b2]]
            0 <= b1 <= b2 < BUCKETS && self.buckets@[b2].is_allocated()
                ==> self.buckets@[b1].is_allocated()
        &&& self.count > 0 ==> self.buckets@[bucket_of((self.count - 1) as nat) as int].is_allocated()
        &&& forall|b: int, e: int|
            0 <= b < BUCKETS && self.buckets@[b].is_allocated() && 0 <= e < bucket_capacity(
                b as nat,
            ) ==> ((#[trigger] self.buckets@[b].slots()[e]).is_active() <==> slots_below(b as nat)
                + e < self.count)
        &&& is_forest(self@)
    }

    /// The arena is well formed: every handed-out index is stored.
    pub closed spec fn wf(&self) -> bool {
        self.inv() && self.index == self.count
    }

    /// An unallocated bucket lies above every stored index.
    proof fn lemma_unallocated_above(&self, b: nat)
        requires
            self.inv(),
            b < BUCKETS,
            !self.buckets@[b as int].is_allocated(),
        ensures
            self.count <= slots_below(b),
    {
        if self.count > 0 {
            let last = (self.count - 1) as nat;
            lemma_bucket_of_range(last);
            lemma_location_in_bounds(last);
            assert(self.buckets@[bucket_of(last) as int].is_allocated());
            if b <= bucket_of(last) {
                assert(self.buckets@[b as int].is_allocated());
            }
            if b > bucket_of(last) + 1 {
                lemma_slots_below_increases(bucket_of(last) + 1, b);
            }
        }
    }

    /// A stored index lies in an allocated bucket, in an active slot.
    proof fn lemma_stored(&self, i: nat)
        requires
            self.inv(),
            i < self.count,
        ensures
            bucket_of(i) < BUCKETS,
            entry_of(i) < bucket_capacity(bucket_of(i)),
            self.buckets@[bucket_of(i) as int].is_allocated(),
            self.slot_at(i).is_active(),
            self.slot_at(i).wf(),
    {
        let last = (self.count - 1) as nat;
        lemma_location_in_bounds(i);
        lemma_location_in_bounds(last);
        lemma_bucket_of_monotone(i, last);
        lemma_bucket_of_range(i);
        assert(self.buckets@[bucket_of(i) as int].is_allocated());
        assert(self.buckets@[bucket_of(i) as int].wf(bucket_of(i)));
        assert(self.slot_at(i).is_active());
    }

    /// A new, empty arena, with no bucket allocated.
    pub fn new() -> (r: Arena<T>)
        ensures
            r.wf(),
            r@ == Seq::<Node<T>>::empty(),
            r.allocation() == unallocated(),
    {
        let mut buckets: Vec<Bucket<T>> = Vec::with_capacity(BUCKETS);
        let mut b: usize = 0;
        while b < BUCKETS
            invariant
                b <= BUCKETS,
                buckets@.len() == b,
                forall|c: int| 0 <= c < b ==> !(#[trigger] buckets@[c]).is_allocated(),
            decreases BUCKETS - b,
        {
            buckets.push(Bucket::empty());
            b += 1;
        }
        let r = Arena { buckets, index: 0, count: 0 };
        assert(r@ =~= Seq::<Node<T>>::empty());
        assert(r.allocation() =~= unallocated());
        r
    }

    /// The node at `index`; `None` where no node of this arena has it.
    pub fn get(&self, index: Index) -> (r: Option<&Node<T>>)
        requires
            self.wf(),
        ensures
            r == (if index@ < self@.len() {
                Some(&self@[index@ as int])
            } else {
                None
            }),
    {
        let loc = Location::new(index);
        proof {
            if index@ < self.count {
                self.lemma_stored(index@);
            } else {
                lemma_bucket_of_range(index@);
            }
        }
        match self.buckets[loc.bucket].get(loc.entry) {
            Some(slot) => slot.get(),
            None => None,
        }
    }

    /// `self` is `old` with some unallocated buckets now allocated, fresh.
    closed spec fn grown_from(&self, old: Arena<T>) -> bool {
        &&& self.buckets@.len() == old.buckets@.len()
        &&& self.index == old.index
        &&& self.count == old.count
        &&& forall|b: int|
            0 <= b < self.buckets@.len() ==> {
                ||| #[trigger] self.buckets@[b] == old.buckets@[b]
                ||| !old.buckets@[b].is_allocated() && self.buckets@[b].is_allocated()
                    && self.buckets@[b].slots() == fresh_slots::<T>(bucket_capacity(b as nat))
            }
    }

    /// Allocating buckets changes no node, and keeps the arena well formed
    /// where the allocated buckets still come first.
    proof fn lemma_grown(&self, old: Arena<T>)
        requires
            old.inv(),
            self.grown_from(old),
            forall|b1: int, b2: int|
                #![trigger self.buckets@[b1], self.buckets@[b2]]
                0 <= b1 <= b2 < BUCKETS && self.buckets@[b2].is_allocated()
                    ==> self.buckets@[b1].is_allocated(),
        ensures
            self.inv(),
            self@ == old@,
    {
        assert forall|i: int| 0 <= i < self.count implies #[trigger] self.slot_at(i as nat)
            == old.slot_at(i as nat) by {
            old.lemma_stored(i as nat);
        }
        assert(self@ =~= old@);
        assert forall|b: int| 0 <= b < BUCKETS implies (#[trigger] self.buckets@[b]).wf(b as nat) by {
            assert(old.buckets@[b].wf(b as nat));
            if self.buckets@[b] != old.buckets@[b] {
                assert forall|e: int| 0 <= e < self.buckets@[b].slots().len() implies (#[trigger] self.buckets@[b].slots()[e]).wf() by {}
            }
        }
        assert forall|b: int, e: int|
            0 <= b < BUCKETS && self.buckets@[b].is_allocated() && 0 <= e < bucket_capacity(
                b as nat,
            ) implies ((#[trigger] self.buckets@[b].slots()[e]).is_active() <==> slots_below(b as nat)
                + e < self.count) by {
            if self.buckets@[b] != old.buckets@[b] {
                old.lemma_unallocated_above(b as nat);
            }
        }
        if self.count > 0 {
            let last = (self.count - 1) as nat;
            lemma_location_in_bounds(last);
            assert(old.buckets@[bucket_of(last) as int].is_allocated());
        }
    }

    /// The number of slots in the allocated buckets.
    pub fn capacity(&self) -> (r: usize)
        requires
            self.wf(),
        ensures
            r == capacity_of(self.allocation()),
    {
        let mut total: usize = 0;
        let mut bucket: usize = 0;
        proof {
            lemma_buckets_cover_max_index();
        }
        while bucket < BUCKETS
            invariant
                bucket <= BUCKETS,
                self.buckets@.len() == BUCKETS,
                total == allocated_slots(self.allocation(), bucket as nat),
                total <= slots_below(bucket as nat),
                slots_below(BUCKETS as nat) == MAX_INDEX + 1,
            decreases BUCKETS - bucket,
        {
            proof {
                if bucket + 1 < BUCKETS {
                    lemma_slots_below_increases((bucket + 1) as nat, BUCKETS as nat);
                }
            }
            if self.buckets[bucket].is_alloc() {
                total += Location::capacity(bucket);
            }
            bucket += 1;
        }
        total
    }

    /// A new, empty arena with every bucket allocated up to the one holding
    /// index `capacity` (or `MAX_INDEX`, if that is smaller).
    pub fn with_capacity(capacity: usize) -> (r: Arena<T>)
        ensures
            r.wf(),
            r@ == Seq::<Node<T>>::empty(),
            r.allocation() == reserved(
                unallocated(),
                if capacity < MAX_INDEX {
                    capacity as nat
                } else {
                    MAX_INDEX as nat
                },
            ),
    {
        let upto = if capacity < MAX_INDEX {
            capacity
        } else {
            MAX_INDEX
        };
        let loc = Location::new_unchecked(upto);
        let mut arena = Self::new();
        let mut bucket: usize = 0;
        while bucket <= loc.bucket
            invariant
                bucket <= loc.bucket + 1,
                loc.bucket < BUCKETS,
                arena.wf(),
                arena@ == Seq::<Node<T>>::empty(),
                arena.allocation() == Seq::new(BUCKETS as nat, |c: int| c < bucket),
            decreases loc.bucket + 1 - bucket,
        {
            let ghost before = arena;
            proof {
                assert(!arena.allocation()[bucket as int]);
            }
            arena.buckets[bucket].overwrite(Location::capacity(bucket));
            proof {
                assert forall|c: int| 0 <= c < BUCKETS implies (#[trigger] arena.buckets@[c]).is_allocated()
                    == (c <= bucket) by {
                    if c != bucket {
                        assert(before.allocation()[c] == (c < bucket));
                    }
                }
                assert(arena.grown_from(before));
                arena.lemma_grown(before);
                assert(arena.allocation() =~= Seq::new(BUCKETS as nat, |c: int| c < bucket + 1));
            }
            bucket += 1;
        }
        assert(arena.allocation() =~= reserved(unallocated(), upto as nat));
        arena
    }

    /// Allocates every bucket up to the one holding index
    /// `count() + additional` (or `MAX_INDEX`, if that is smaller).
    pub fn reserve(&mut self, additional: usize)
        requires
            old(self).wf(),
        ensures
            final(self).wf(),
            final(self)@ == old(self)@,
            final(self).allocation() == reserved(
                old(self).allocation(),
                if old(self)@.len() + additional < MAX_INDEX {
                    (old(self)@.len() + additional) as nat
                } else {
                    MAX_INDEX as nat
                },
            ),
    {
        let wanted = self.count.saturating_add(additional);
        let upto = if wanted < MAX_INDEX {
            wanted
        } else {
            MAX_INDEX
        };
        let loc = Location::new_unchecked(upto);
        let ghost start = *self;
        let mut bucket = loc.bucket;
        loop
            invariant_except_break
                forall|c: int|
                    0 <= c < BUCKETS ==> (#[trigger] self.buckets@[c]).is_allocated() == (
                    start.buckets@[c].is_allocated() || (bucket < c <= loc.bucket)),
            invariant
                bucket <= loc.bucket < BUCKETS,
                start.inv(),
                self.grown_from(start),
            ensures
                loc.bucket < BUCKETS,
                start.inv(),
                start.buckets@.len() == BUCKETS,
                self.grown_from(start),
                forall|c: int|
                    0 <= c < BUCKETS ==> (#[trigger] self.buckets@[c]).is_allocated() == (
                    start.buckets@[c].is_allocated() || c <= loc.bucket),
            decreases bucket,
        {
            if self.buckets[bucket].is_alloc() {
                proof {
                    assert forall|c: int| 0 <= c <= bucket implies start.buckets@[c].is_allocated() by {
                        assert(start.buckets@[bucket as int].is_allocated());
                    }
                }
                break;
            }
            let ghost before = *self;
            self.buckets[bucket].reserve(bucket);
            proof {
                assert forall|c: int| 0 <= c < BUCKETS implies {
                    ||| #[trigger] self.buckets@[c] == start.buckets@[c]
                    ||| !start.buckets@[c].is_allocated() && self.buckets@[c].is_allocated()
                        && self.buckets@[c].slots() == fresh_slots::<T>(bucket_capacity(c as nat))
                } by {
                    assert(before.buckets@[c] == start.buckets@[c] || !start.buckets@[c].is_allocated());
                }
            }
            if bucket == 0 {
                break;
            }
            bucket -= 1;
        }
        proof {
            assert forall|b1: int, b2: int|
                #![trigger self.buckets@[b1], self.buckets@[b2]]
                0 <= b1 <= b2 < BUCKETS && self.buckets@[b2].is_allocated()
                    implies self.buckets@[b1].is_allocated() by {
                if b2 > loc.bucket {
                    assert(self.buckets@[b2].is_allocated() == start.buckets@[b2].is_allocated());
                    assert(start.buckets@[b2].is_allocated());
                    assert(start.buckets@[b1].is_allocated());
                }
            }
            self.lemma_grown(start);
            assert(self.allocation() =~= reserved(start.allocation(), upto as nat));
        }
    }

    /// The stored node at `index`.
    fn node(&self, index: Index) -> (r: &Node<T>)
        requires
            self.inv(),
            index@ < self.count,
        ensures
            *r == self@[index@ as int],
    {
        let loc = Location::new(index);
        proof {
            self.lemma_stored(index@);
        }
        match self.buckets[loc.bucket].get(loc.entry) {
            Some(slot) => slot.get_unchecked(),
            None => vstd::pervasive::unreached(),
        }
    }

    /// Stores `value` at `index`, the next index to store, as a child of
    /// `parent`.
    #[verifier::rlimit(40)]
    fn add_node(&mut self, parent: Option<Index>, index: Index, value: T)
        requires
            old(self).inv(),
            old(self).count < old(self).index,
            index@ == old(self).count,
            parent matches Some(p) ==> p@ < old(self).count,
        ensures
            final(self).inv(),
            final(self).index == old(self).index,
            final(self).count == old(self).count + 1,
            final(self)@ == pushed(old(self)@, parent, index, value),
            final(self).allocation() == reserved(old(self).allocation(), index@),
    {
        let ghost start = *self;
        let ghost n = index@;
        let loc = Location::new(index);
        let next = match parent {
            Some(p) => self.node(p).child(),
            None => None,
        };
        proof {
            lemma_location_in_bounds(n);
            lemma_location_of(n);
            if n > 0 {
                lemma_bucket_of_next((n - 1) as nat);
                lemma_location_in_bounds((n - 1) as nat);
            }
            if !start.buckets@[loc.bucket as int].is_allocated() {
                start.lemma_unallocated_above(loc.bucket as nat);
            } else {
                assert(start.buckets@[loc.bucket as int].wf(loc.bucket as nat));
            }
        }
        self.buckets[loc.bucket].acquire(loc).write(Node::new(index, parent, next, value));
        let ghost mid = *self;
        proof {
            assert forall|i: int| 0 <= i < n implies #[trigger] mid.slot_at(i as nat) == start.slot_at(
                i as nat,
            ) by {
                start.lemma_stored(i as nat);
                lemma_location_of(i as nat);
            }
        }
        match parent {
            Some(p) => {
                let ploc = Location::new(p);
                proof {
                    start.lemma_stored(p@);
                    lemma_location_of(p@);
                }
                self.buckets[ploc.bucket].acquire(ploc).add_child(index);
            },
            None => {},
        }
        self.count = self.count + 1;
        proof {
                        let after = pushed(start@, parent, index, value);
            assert forall|i: int| 0 <= i <= n implies #[trigger] self.slot_at(i as nat).spec_node()
                == after[i] by {
                if i < n {
                    start.lemma_stored(i as nat);
                    lemma_location_of(i as nat);
                }
                if let Some(p) = parent {
                    start.lemma_stored(p@);
                    lemma_location_of(p@);
                    lemma_index_view_eq(p, index_at(i as nat));
                }
            }
            assert(self@ =~= after);
            lemma_pushed_is_forest(start@, parent, index, value);
            assert forall|b: int| 0 <= b < BUCKETS implies (#[trigger] self.buckets@[b]).wf(b as nat) by {
                assert(start.buckets@[b].wf(b as nat));
                if let Some(p) = parent {
                    start.lemma_stored(p@);
                }
            }
            assert forall|b: int, e: int|
                0 <= b < BUCKETS && self.buckets@[b].is_allocated() && 0 <= e < bucket_capacity(
                    b as nat,
                ) implies ((#[trigger] self.buckets@[b].slots()[e]).is_active() <==> slots_below(
                    b as nat,
                ) + e < self.count) by {
                lemma_index_at_location(b as nat, e as nat);
                if let Some(p) = parent {
                    start.lemma_stored(p@);
                }
            }
            assert forall|b1: int, b2: int|
                #![trigger self.buckets@[b1], self.buckets@[b2]]
                0 <= b1 <= b2 < BUCKETS && self.buckets@[b2].is_allocated()
                    implies self.buckets@[b1].is_allocated() by {
                assert(start.buckets@[b2].is_allocated() || b2 == loc.bucket);
                assert(start.buckets@[b1].is_allocated() || b1 == loc.bucket);
            }
            assert(self.allocation() =~= reserved(start.allocation(), n));
        }
    }

    /// Moving the index counter changes no node.
    proof fn lemma_same_nodes(&self, old: Arena<T>)
        requires
            old.inv(),
            self.buckets == old.buckets,
            self.count == old.count,
            self.count <= self.index <= MAX_INDEX + 1,
        ensures
            self.inv(),
            self@ == old@,
            self.allocation() == old.allocation(),
    {
        assert forall|i: int| 0 <= i < self.count implies #[trigger] self.slot_at(i as nat)
            == old.slot_at(i as nat) by {}
        assert(self@ =~= old@);
        assert(self.allocation() =~= old.allocation());
    }

    /// Hands out the next index, unless all of them are handed out.
    fn next_index(&mut self) -> (r: Option<Index>)
        requires
            old(self).inv(),
        ensures
            final(self).inv(),
            final(self)@ == old(self)@,
            final(self).allocation() == old(self).allocation(),
            final(self).count == old(self).count,
            old(self).index <= MAX_INDEX ==> r == Some(index_at(old(self).index as nat))
                && final(self).index == old(self).index + 1,
            r matches Some(i) ==> i@ == old(self).index,
            old(self).index > MAX_INDEX ==> r is None && *final(self) == *old(self),
    {
        if self.index <= MAX_INDEX {
            let ghost start = *self;
            let index = Index::new_unchecked(self.index);
            self.index = self.index + 1;
            proof {
                lemma_index_at(index@);
                self.lemma_same_nodes(start);
            }
            Some(index)
        } else {
            None
        }
    }

    /// The index of the node that `parent` names, or why there is none.
    fn parent_index<P: AsParent<T>>(&self, parent: P) -> (r: Result<Option<Index>, Error>)
        requires
            self.wf(),
        ensures
            parent_in(parent.spec_parent(), self@.len()) ==> r == Ok::<Option<Index>, Error>(
                parent.spec_parent(),
            ),
            !parent_in(parent.spec_parent(), self@.len()) ==> r == Err::<Option<Index>, Error>(
                Error::InvalidIndex,
            ),
    {
        let ghost named = parent.spec_parent();
        match parent.get(self) {
            Ok(Some(node)) => {
                let index = node.index();
                proof {
                    let p = named.unwrap();
                    lemma_index_view_eq(index, p);
                }
                Ok(Some(index))
            },
            Ok(None) => Ok(None),
            Err(e) => Err(e),
        }
    }

    /// Adds `value` as a new node, a child of `parent`, and returns its index.
    ///
    /// Fails with `Error::InvalidIndex` where `parent` names no node of the
    /// arena, and with `Error::CapacityOverflow` where the arena already holds
    /// `MAX_INDEX + 1` nodes; the arena is then left as it was.
    pub fn try_push<P: AsParent<T>>(&mut self, parent: P, value: T) -> (r: Result<Index, Error>)
        requires
            old(self).wf(),
        ensures
            final(self).wf(),
            !parent_in(parent.spec_parent(), old(self)@.len()) ==> r == Err::<Index, Error>(
                Error::InvalidIndex,
            ) && *final(self) == *old(self),
            parent_in(parent.spec_parent(), old(self)@.len()) && old(self)@.len() > MAX_INDEX ==> r
                == Err::<Index, Error>(Error::CapacityOverflow) && *final(self) == *old(self),
            parent_in(parent.spec_parent(), old(self)@.len()) && old(self)@.len() <= MAX_INDEX ==> {
                &&& r matches Ok(index)
                &&& index@ == old(self)@.len()
                &&& final(self)@ == pushed(old(self)@, parent.spec_parent(), index, value)
                &&& final(self).allocation() == reserved(old(self).allocation(), index@)
            },
    {
        let parent = match self.parent_index(parent) {
            Ok(parent) => parent,
            Err(e) => return Err(e),
        };
        let index = match self.next_index() {
            Some(index) => index,
            None => return Err(Error::CapacityOverflow),
        };
        proof {
            lemma_index_at(index@);
        }
        self.add_node(parent, index, value);
        Ok(index)
    }

    /// Adds `value` as a new node, a child of `parent`, and returns its index.
    pub fn push<P: AsParent<T>>(&mut self, parent: P, value: T) -> (r: Index)
        requires
            old(self).wf(),
            old(self)@.len() <= MAX_INDEX,
            parent_in(parent.spec_parent(), old(self)@.len()),
        ensures
            final(self).wf(),
            r@ == old(self)@.len(),
            final(self)@ == pushed(old(self)@, parent.spec_parent(), r, value),
            final(self).allocation() == reserved(old(self).allocation(), r@),
    {
        match self.try_push(parent, value) {
            Ok(index) => index,
            Err(_) => vstd::pervasive::unreached(),
        }
    }

    /// Adds a new node, a child of `parent`, whose value `f` makes from the
    /// node's index, and returns that index.
    pub fn push_with<P: AsParent<T>, F: FnOnce(Index) -> T>(&mut self, parent: P, f: F) -> (r:
        Index)
        requires
            old(self).wf(),
            old(self)@.len() <= MAX_INDEX,
            parent_in(parent.spec_parent(), old(self)@.len()),
            forall|index: Index| index@ == old(self)@.len() ==> f.requires((index,)),
        ensures
            final(self).wf(),
            r@ == old(self)@.len(),
            f.ensures((r,), final(self)@[r@ as int].spec_value()),
            final(self)@ == pushed(
                old(self)@,
                parent.spec_parent(),
                r,
                final(self)@[r@ as int].spec_value(),
            ),
            final(self).allocation() == reserved(old(self).allocation(), r@),
    {
        let parent = match self.parent_index(parent) {
            Ok(parent) => parent,
            Err(_) => vstd::pervasive::unreached(),
        };
        let index = match self.next_index() {
            Some(index) => index,
            None => vstd::pervasive::unreached(),
        };
        proof {
            lemma_index_at(index@);
        }
        let value = f(index);
        self.add_node(parent, index, value);
        index
    }

    /// Adds one new node for each of `values`, in order, all children of
    /// `parent`, and returns their indices, which are consecutive.
    pub fn push_all<P: AsParent<T>>(&mut self, parent: P, values: Vec<T>) -> (r: Vec<Index>)
        requires
            old(self).wf(),
            old(self)@.len() + values@.len() <= MAX_INDEX + 1,
            parent_in(parent.spec_parent(), old(self)@.len()),
        ensures
            final(self).wf(),
            r@.len() == values@.len(),
            forall|k: int| 0 <= k < r@.len() ==> (#[trigger] r@[k])@ == old(self)@.len() + k,
            final(self)@ == pushed_all(old(self)@, parent.spec_parent(), values@),
            final(self).allocation() == if values@.len() == 0 {
                old(self).allocation()
            } else {
                reserved(old(self).allocation(), (old(self)@.len() + values@.len() - 1) as nat)
            },
    {
        let ghost start = *self;
        let ghost all = values@;
        let parent = match self.parent_index(parent) {
            Ok(parent) => parent,
            Err(_) => vstd::pervasive::unreached(),
        };
        let len = values.len();
        let origin = self.index;
        self.index = origin + len;
        proof {
            self.lemma_same_nodes(start);
        }
        let mut values = values;
        let mut stack: Vec<T> = Vec::with_capacity(len);
        while values.len() > 0
            invariant
                values@.len() <= len,
                len == all.len(),
                values@ == all.take(values@.len() as int),
                stack@.len() == len - values@.len(),
                forall|j: int| 0 <= j < stack@.len() ==> #[trigger] stack@[j] == all[len - 1 - j],
            decreases values@.len(),
        {
            let value = match values.pop() {
                Some(value) => value,
                None => vstd::pervasive::unreached(),
            };
            stack.push(value);
            assert(values@ =~= all.take(values@.len() as int));
        }
        let mut indices: Vec<Index> = Vec::with_capacity(len);
        let mut k: usize = 0;
        while k < len
            invariant
                k <= len,
                len == all.len(),
                origin == start.count,
                origin + len <= MAX_INDEX + 1,
                start.wf(),
                parent_in(parent, start@.len()),
                self.inv(),
                self.index == origin + len,
                self.count == origin + k,
                self@ == pushed_all(start@, parent, all.take(k as int)),
                self.allocation() == if k == 0 {
                    start.allocation()
                } else {
                    reserved(start.allocation(), (origin + k - 1) as nat)
                },
                stack@.len() == len - k,
                forall|j: int| 0 <= j < stack@.len() ==> #[trigger] stack@[j] == all[len - 1 - j],
                indices@.len() == k,
                forall|j: int| 0 <= j < k ==> (#[trigger] indices@[j])@ == origin + j,
            decreases len - k,
        {
            let value = match stack.pop() {
                Some(value) => value,
                None => vstd::pervasive::unreached(),
            };
            let index = Index::new_unchecked(origin + k);
            proof {
                lemma_index_at(index@);
                lemma_pushed_all_len(start@, parent, all.take(k as int));
                assert(all.take(k as int + 1).drop_last() =~= all.take(k as int));
                assert(index == index_at(self@.len()));
                if k > 0 {
                    lemma_reserved_twice(start.allocation(), (origin + k - 1) as nat, (origin + k) as nat);
                }
            }
            self.add_node(parent, index, value);
            indices.push(index);
            k += 1;
        }
        proof {
            assert(all.take(len as int) =~= all);
        }
        indices
    }

    /// Whether `node` is one of this arena's nodes: the very node that is
    /// stored at its index.
    pub fn contains(&self, node: &Node<T>) -> (r: bool)
        requires
            self.wf(),
        ensures
            r ==> node.spec_index()@ < self@.len() && self@[node.spec_index()@ as int] == *node,
            node.spec_index()@ >= self@.len() ==> !r,
    {
        match self.get(node.index()) {
            Some(found) => same_node(found, node),
            None => false,
        }
    }

    /// The number of nodes stored.
    pub fn count(&self) -> (r: usize)
        requires
            self.wf(),
        ensures
            r == self@.len(),
    {
        self.count
    }
}

impl<T> Default for Arena<T> {
    /// A new, empty arena.
    fn default() -> (r: Arena<T>)
        ensures
            r.wf(),
            r@ == Seq::<Node<T>>::empty(),
            r.allocation() == unallocated(),
    {
        Self::new()
    }
}

/// Every node with a parent appears exactly once in its parent's list of
/// children, and every node in that list has that parent.
pub proof fn lemma_child_listed_once<T>(arena: &Arena<T>, c: Index, p: Index)
    requires
        arena.wf(),
        c@ < arena@.len(),
        arena@[c@ as int].spec_parent() == Some(p),
    ensures
        children_of(arena@, p@).contains(c@),
        children_of(arena@, p@).no_duplicates(),
        forall|k: nat|
            children_of(arena@, p@).contains(k) ==> k < arena@.len() && #[trigger] arena@[k as int].spec_parent()
                == Some(p),
{
    let nodes = arena@;
    let len = nodes.len();
    assert(p@ < c@);
    assert(children_of(nodes, p@) == children_before(nodes, p@, len));
    lemma_children_before_props(nodes, p@, len);
    let s = children_of(nodes, p@);
    assert(link(nodes[c@ as int].parent) == Some(p@));
    assert forall|k: nat| s.contains(k) implies k < len && #[trigger] nodes[k as int].spec_parent() == Some(p) by {
        let t = choose|t: int| 0 <= t < s.len() && s[t] == k;
        assert(s[t] == k);
        lemma_index_view_eq(nodes[k as int].parent.unwrap(), p);
    }
    assert forall|i: int, j: int| 0 <= i < s.len() && 0 <= j < s.len() && i != j implies s[i] != s[j] by {
        if i < j {
            assert(s[j] < s[i]);
        } else {
            assert(s[i] < s[j]);
        }
    }
}

/// Of two children of one parent, the one added later comes first in the
/// parent's list of children.
pub proof fn lemma_children_newest_first<T>(arena: &Arena<T>, p: Index, a: Index, b: Index)
    requires
        arena.wf(),
        a@ < b@ < arena@.len(),
        arena@[a@ as int].spec_parent() == Some(p),
        arena@[b@ as int].spec_parent() == Some(p),
    ensures
        children_of(arena@, p@).contains(a@),
        children_of(arena@, p@).contains(b@),
        forall|i: int, j: int|
            0 <= i < children_of(arena@, p@).len() && 0 <= j < children_of(arena@, p@).len()
                && children_of(arena@, p@)[i] == b@ && children_of(arena@, p@)[j] == a@ ==> i < j,
{
    let nodes = arena@;
    let len = nodes.len();
    assert(p@ < a@);
    assert(children_of(nodes, p@) == children_before(nodes, p@, len));
    lemma_children_before_props(nodes, p@, len);
    assert(link(nodes[a@ as int].parent) == Some(p@));
    assert(link(nodes[b@ as int].parent) == Some(p@));
    let s = children_of(nodes, p@);
    assert forall|i: int, j: int|
        0 <= i < s.len() && 0 <= j < s.len() && s[i] == b@ && s[j] == a@ implies i < j by {
        if j < i {
            assert(s[i] < s[j]);
        }
    }
}

/// A second reservation for as many slots as the first, or fewer, allocates
/// nothing more.
pub proof fn lemma_reserve_idempotent<T>(arena: &Arena<T>, k: nat, k2: nat)
    requires
        k2 <= k,
    ensures
        ({
            let cap = |x: nat| if x < MAX_INDEX { x } else { MAX_INDEX as nat };
            let once = reserved(arena.allocation(), cap(arena@.len() + k));
            &&& reserved(once, cap(arena@.len() + k2)) == once
            &&& capacity_of(reserved(once, cap(arena@.len() + k2))) == capacity_of(once)
        }),
{
    let cap = |x: nat| if x < MAX_INDEX { x } else { MAX_INDEX as nat };
    lemma_reserved_twice(arena.allocation(), cap(arena@.len() + k), cap(arena@.len() + k2));
}

/// Arenas made with capacities whose indices lie in one bucket allocate the
/// same buckets, and so have the same capacity.
pub proof fn lemma_with_capacity_same_bucket(k: nat, k2: nat)
    requires
        bucket_of(if k < MAX_INDEX { k } else { MAX_INDEX as nat }) == bucket_of(
            if k2 < MAX_INDEX { k2 } else { MAX_INDEX as nat },
        ),
    ensures
        reserved(unallocated(), if k < MAX_INDEX { k } else { MAX_INDEX as nat }) == reserved(
            unallocated(),
            if k2 < MAX_INDEX { k2 } else { MAX_INDEX as nat },
        ),
        capacity_of(reserved(unallocated(), if k < MAX_INDEX { k } else { MAX_INDEX as nat }))
            == capacity_of(
            reserved(unallocated(), if k2 < MAX_INDEX { k2 } else { MAX_INDEX as nat }),
        ),
{
    assert(reserved(unallocated(), if k < MAX_INDEX { k } else { MAX_INDEX as nat }) =~= reserved(
        unallocated(),
        if k2 < MAX_INDEX { k2 } else { MAX_INDEX as nat },
    ));
}

/// The first `n` buckets, allocated in a row, hold `slots_below(n)` slots.
proof fn lemma_prefix_capacity(alloc: Seq<bool>, top: nat, m: nat)
    requires
        m <= alloc.len(),
        forall|b: int| 0 <= b < alloc.len() ==> alloc[b] == (b < top),
    ensures
        allocated_slots(alloc, m) == slots_below(if m < top { m } else { top }),
    decreases m,
{
    if m > 0 {
        lemma_prefix_capacity(alloc, top, (m - 1) as nat);
    }
}

/// An arena made new and then reserved up to index `upto`, or made with that
/// capacity, has every bucket through the one holding `upto`: its capacity is
/// `slots_below(bucket_of(upto) + 1)`.
pub proof fn lemma_fresh_capacity(upto: nat)
    requires
        upto <= MAX_INDEX,
    ensures
        capacity_of(reserved(unallocated(), upto)) == slots_below(bucket_of(upto) + 1),
{
    lemma_location_in_bounds(upto);
    let a = reserved(unallocated(), upto);
    lemma_prefix_capacity(a, bucket_of(upto) + 1, a.len());
}

/// The capacity of an arena never shrinks: every operation leaves its buckets
/// allocated as `reserved(old, _)` says, and that holds at least as many
/// slots.
pub proof fn lemma_capacity_never_shrinks(alloc: Seq<bool>, upto: nat)
    ensures
        capacity_of(alloc) <= capacity_of(reserved(alloc, upto)),
{
    lemma_allocated_slots_monotone(alloc, reserved(alloc, upto), alloc.len());
}

/// More allocated buckets hold at least as many slots.
proof fn lemma_allocated_slots_monotone(a: Seq<bool>, b: Seq<bool>, m: nat)
    requires
        m <= a.len(),
        a.len() == b.len(),
        forall|i: int| 0 <= i < a.len() && a[i] ==> b[i],
    ensures
        allocated_slots(a, m) <= allocated_slots(b, m),
    decreases m,
{
    if m > 0 {
        lemma_allocated_slots_monotone(a, b, (m - 1) as nat);
    }
}

} // verus!
