//! Where an index lives: the bucket that holds it and its entry in that bucket.
use vstd::arithmetic::power2::{
    lemma2_to64,
    lemma2_to64_rest,
    lemma_pow2_pos,
    lemma_pow2_strictly_increases,
    lemma_pow2_unfold,
    pow2,
};
use vstd::bits::lemma_usize_shl_is_mul;
use vstd::prelude::*;
use vstd::std_specs::bits::u64_leading_zeros;

verus! {

/// The width of a machine word in bits; also the size of the first bucket.
pub const SLOTS: usize = usize::BITS as usize;

/// The number of slots that the bucket arithmetic skips in front of index 0.
pub const ZERO_SLOT: usize = SLOTS - 1;

/// The exponent of the first bucket's size, `SLOTS == 1 << ZERO_BUCKET`: 5 on
/// a 32-bit target and 6 on a 64-bit one.
pub const ZERO_BUCKET: usize = SLOTS / 32 + 4;

/// The number of buckets in an arena.
pub const BUCKETS: usize = SLOTS - 1 - ZERO_BUCKET;

/// The largest index that an arena can hand out.
pub const MAX_INDEX: usize = isize::MAX as usize - SLOTS;

/// The number of slots in bucket `b`.
pub open spec fn bucket_capacity(b: nat) -> nat {
    pow2(b + ZERO_BUCKET as nat)
}

/// The number of slots in the buckets before bucket `b`: the first index that
/// bucket `b` holds.
pub open spec fn slots_below(b: nat) -> nat
    decreases b,
{
    if b == 0 {
        0
    } else {
        slots_below((b - 1) as nat) + bucket_capacity((b - 1) as nat)
    }
}

/// The bucket that holds index `i`: bucket 0 holds the first `SLOTS` indices,
/// and each later bucket twice as many as the one before it.
pub open spec fn bucket_of(i: nat) -> nat
    decreases i,
{
    if i < SLOTS {
        0
    } else {
        1 + bucket_of(((i - SLOTS) / 2) as nat)
    }
}

/// The position of index `i` within its bucket.
pub open spec fn entry_of(i: nat) -> nat {
    (i - slots_below(bucket_of(i))) as nat
}

/// What the constants come to on the two word widths.
pub proof fn lemma_word_constants()
    ensures
        SLOTS == pow2(ZERO_BUCKET as nat),
        SLOTS == 32 || SLOTS == 64,
        BUCKETS + ZERO_BUCKET + 1 == SLOTS,
        isize::MAX + 1 == pow2((SLOTS - 1) as nat),
        usize::MAX + 1 == pow2(SLOTS as nat),
        MAX_INDEX + 1 + SLOTS == pow2((SLOTS - 1) as nat),
{
    lemma2_to64();
    lemma2_to64_rest();
}

/// The buckets before bucket `b` hold `2^(b + ZERO_BUCKET) - SLOTS` slots.
pub proof fn lemma_slots_below(b: nat)
    ensures
        slots_below(b) + SLOTS == pow2(b + ZERO_BUCKET as nat),
    decreases b,
{
    lemma_word_constants();
    if b > 0 {
        lemma_slots_below((b - 1) as nat);
        lemma_pow2_unfold(b + ZERO_BUCKET as nat);
    }
}

/// `slots_below` grows strictly with the bucket.
pub proof fn lemma_slots_below_increases(b1: nat, b2: nat)
    requires
        b1 < b2,
    ensures
        slots_below(b1) < slots_below(b2),
    decreases b2,
{
    lemma_pow2_pos((b2 - 1) as nat + ZERO_BUCKET as nat);
    if b1 + 1 < b2 {
        lemma_slots_below_increases(b1, (b2 - 1) as nat);
    }
}

/// Index `i` lies within the range of its bucket.
pub proof fn lemma_bucket_of_range(i: nat)
    ensures
        slots_below(bucket_of(i)) <= i < slots_below(bucket_of(i) + 1),
    decreases i,
{
    lemma_word_constants();
    lemma_slots_below(bucket_of(i));
    lemma_slots_below(bucket_of(i) + 1);
    if i >= SLOTS {
        let j = ((i - SLOTS) / 2) as nat;
        lemma_bucket_of_range(j);
        lemma_slots_below(bucket_of(j));
        lemma_slots_below(bucket_of(j) + 1);
        lemma_pow2_unfold(bucket_of(i) + ZERO_BUCKET as nat);
        lemma_pow2_unfold(bucket_of(i) + 1 + ZERO_BUCKET as nat);
    }
}

/// Only one bucket's range holds a given index.
pub proof fn lemma_bucket_of_unique(i: nat, b: nat)
    requires
        slots_below(b) <= i < slots_below(b + 1),
    ensures
        bucket_of(i) == b,
{
    lemma_bucket_of_range(i);
    if bucket_of(i) + 1 < b {
        lemma_slots_below_increases(bucket_of(i) + 1, b);
    } else if b + 1 < bucket_of(i) {
        lemma_slots_below_increases(b + 1, bucket_of(i));
    }
}

/// A later index never lies in an earlier bucket.
pub proof fn lemma_bucket_of_monotone(i: nat, j: nat)
    requires
        i <= j,
    ensures
        bucket_of(i) <= bucket_of(j),
{
    lemma_bucket_of_range(i);
    lemma_bucket_of_range(j);
    if bucket_of(j) + 1 < bucket_of(i) {
        lemma_slots_below_increases(bucket_of(j) + 1, bucket_of(i));
    }
}

/// The buckets together hold exactly the indices `0..=MAX_INDEX`; the last
/// index is the last entry of the last bucket.
pub proof fn lemma_buckets_cover_max_index()
    ensures
        slots_below(BUCKETS as nat) == MAX_INDEX + 1,
        bucket_of(MAX_INDEX as nat) == BUCKETS - 1,
        entry_of(MAX_INDEX as nat) == pow2((SLOTS - 2) as nat) - 1,
{
    lemma_word_constants();
    lemma_slots_below(BUCKETS as nat);
    lemma_slots_below((BUCKETS - 1) as nat);
    lemma_pow2_unfold((SLOTS - 1) as nat);
    lemma_bucket_of_unique(MAX_INDEX as nat, (BUCKETS - 1) as nat);
}

/// Every valid index lies in one of the arena's buckets, and inside it.
pub proof fn lemma_location_in_bounds(i: nat)
    requires
        i <= MAX_INDEX,
    ensures
        bucket_of(i) < BUCKETS,
        entry_of(i) < bucket_capacity(bucket_of(i)),
{
    lemma_bucket_of_range(i);
    lemma_buckets_cover_max_index();
    lemma_bucket_of_monotone(i, MAX_INDEX as nat);
}

/// Index `i` is the start of its bucket plus its entry, and no other index
/// shares both.
pub proof fn lemma_location_of(i: nat)
    ensures
        i == slots_below(bucket_of(i)) + entry_of(i),
        forall|j: nat|
            bucket_of(j) == bucket_of(i) && entry_of(j) == entry_of(i) ==> #[trigger] slots_below(
                bucket_of(j),
            ) + entry_of(j) == i,
{
    lemma_bucket_of_range(i);
}

/// The index at entry `e` of bucket `b` has that location.
pub proof fn lemma_index_at_location(b: nat, e: nat)
    requires
        e < bucket_capacity(b),
    ensures
        bucket_of(slots_below(b) + e) == b,
        entry_of(slots_below(b) + e) == e,
{
    lemma_bucket_of_unique(slots_below(b) + e, b);
}

/// The index after `i` lies in the bucket of `i` or in the next one.
pub proof fn lemma_bucket_of_next(i: nat)
    ensures
        bucket_of(i) <= bucket_of(i + 1) <= bucket_of(i) + 1,
{
    lemma_bucket_of_range(i);
    lemma_bucket_of_range(i + 1);
    lemma_bucket_of_monotone(i, i + 1);
    if bucket_of(i + 1) > bucket_of(i) + 1 {
        lemma_slots_below_increases(bucket_of(i) + 1, bucket_of(i + 1));
    }
}

/// `2^(63 - lz) < 2^(64 - lz)`, where `lz` counts the leading zeros of a
/// nonzero `x`.
proof fn lemma_leading_zeros_range(x: u64)
    requires
        x > 0,
    ensures
        0 <= u64_leading_zeros(x) < 64,
        pow2((63 - u64_leading_zeros(x)) as nat) <= x,
        x < pow2((64 - u64_leading_zeros(x)) as nat),
    decreases x,
{
    reveal(u64_leading_zeros);
    if x == 1 {
        assert(u64_leading_zeros(0) == 64);
        lemma2_to64();
    } else {
        let h = (x / 2) as u64;
        lemma_leading_zeros_range(h);
        assert(u64_leading_zeros(x) == u64_leading_zeros(h) - 1);
        lemma_pow2_unfold((64 - u64_leading_zeros(h)) as nat);
        lemma_pow2_unfold((65 - u64_leading_zeros(h)) as nat);
    }
}

/// A valid location within the arena: a bucket and an entry inside it.
#[derive(Debug, Clone, Copy, PartialEq, Eq)]
pub struct Location {
    /// The bucket.
    pub bucket: usize,
    /// The slot within the bucket.
    pub entry: usize,
}

impl Location {
    /// The location of `index`, which must be at most `MAX_INDEX`.
    pub fn new_unchecked(index: usize) -> (r: Location)
        requires
            index <= MAX_INDEX,
        ensures
            r.bucket == bucket_of(index as nat),
            r.entry == entry_of(index as nat),
            r.bucket < BUCKETS,
            r.entry < bucket_capacity(r.bucket as nat),
    {
        proof {
            lemma_word_constants();
            lemma_location_in_bounds(index as nat);
            lemma_bucket_of_range(index as nat);
            lemma_slots_below(bucket_of(index as nat));
        }
        let shifted: usize = index + ZERO_SLOT;
        let bucket = Self::bucket(shifted);
        let entry = shifted - (Self::capacity(bucket) - 1);
        Location { bucket, entry }
    }

    /// The location of `index`.
    pub fn new(index: crate::index::Index) -> (r: Location)
        ensures
            r.bucket == bucket_of(index@),
            r.entry == entry_of(index@),
            r.bucket < BUCKETS,
            r.entry < bucket_capacity(r.bucket as nat),
    {
        Self::new_unchecked(index.get())
    }

    /// The bucket that holds the index `shifted - ZERO_SLOT`.
    pub fn bucket(shifted: usize) -> (r: usize)
        requires
            ZERO_SLOT <= shifted <= MAX_INDEX + ZERO_SLOT,
        ensures
            r == bucket_of((shifted - ZERO_SLOT) as nat),
    {
        proof {
            lemma_word_constants();
        }
        let x: u64 = (shifted + 1) as u64;
        let lz64 = x.leading_zeros();
        proof {
            let i = (shifted - ZERO_SLOT) as nat;
            lemma_leading_zeros_range(x);
            let hi = (64 - lz64) as nat;
            let lo = (63 - lz64) as nat;
            if hi <= ZERO_BUCKET {
                if hi < ZERO_BUCKET {
                    lemma_pow2_strictly_increases(hi, ZERO_BUCKET as nat);
                }
            }
            if lo >= SLOTS - 1 {
                if lo > SLOTS - 1 {
                    lemma_pow2_strictly_increases((SLOTS - 1) as nat, lo);
                }
            }
            let b = (lo - ZERO_BUCKET) as nat;
            lemma_slots_below(b);
            lemma_slots_below(b + 1);
            lemma_bucket_of_unique(i, b);
        }
        // leading zeros of `shifted + 1` as a machine word
        let lz: usize = lz64 as usize - (64 - SLOTS);
        BUCKETS - lz
    }

    /// The number of slots in bucket `bucket`.
    pub fn capacity(bucket: usize) -> (r: usize)
        requires
            bucket < BUCKETS,
        ensures
            r == bucket_capacity(bucket as nat),
    {
        let shift: usize = bucket + ZERO_BUCKET;
        proof {
            lemma_word_constants();
            lemma_pow2_strictly_increases(shift as nat, SLOTS as nat);
            lemma_usize_shl_is_mul(1, shift);
        }
        1usize << shift
    }
}

} // verus!
