use silva::{Location, BUCKETS, MAX_INDEX, SLOTS, ZERO_BUCKET, ZERO_SLOT};

#[test]
fn location() {
    assert_eq!(Location::capacity(0), SLOTS);

    for i in 0..SLOTS {
        let loc = Location::new_unchecked(i);
        assert_eq!(loc.bucket, 0);
        assert_eq!(loc.entry, i);
    }

    assert_eq!(Location::capacity(1), SLOTS * 2);

    for i in SLOTS..SLOTS * 3 {
        let loc = Location::new_unchecked(i);
        assert_eq!(loc.bucket, 1);
        assert_eq!(loc.entry, i - SLOTS);
    }

    assert_eq!(Location::capacity(2), SLOTS * 4);

    for i in SLOTS * 3..SLOTS * 7 {
        let loc = Location::new_unchecked(i);
        assert_eq!(loc.bucket, 2);
        assert_eq!(loc.entry, i - SLOTS * 3);
    }
}

#[test]
fn max_entries() {
    let mut slots = 0;
    for i in 0..BUCKETS {
        slots += Location::capacity(i);
    }

    assert_eq!(slots, MAX_INDEX + 1);

    let max = Location::new_unchecked(MAX_INDEX);
    assert_eq!(max.bucket, BUCKETS - 1);
    assert_eq!(max.entry, (1 << (usize::BITS - 2)) - 1);
}

#[test]
fn location_bucket_boundaries() {
    // the first and last index of each bucket, and the largest index
    let mut start = 0;
    for bucket in 0..BUCKETS {
        let end = start + Location::capacity(bucket) - 1;
        let first = Location::new_unchecked(start);
        assert_eq!((first.bucket, first.entry), (bucket, 0));
        let last = Location::new_unchecked(end);
        assert_eq!((last.bucket, last.entry), (bucket, end - start));
        start = end + 1;
    }
    assert_eq!(start - 1, MAX_INDEX);
}

#[test]
fn location_constants() {
    assert_eq!(1usize << ZERO_BUCKET, SLOTS);
    assert_eq!(ZERO_SLOT, SLOTS - 1);
    assert_eq!(ZERO_BUCKET, SLOTS - ZERO_SLOT.leading_zeros() as usize);
    assert_eq!(BUCKETS, SLOTS - 1 - ZERO_BUCKET);
    assert_eq!(MAX_INDEX, isize::MAX as usize - SLOTS);
    assert_eq!(Location::bucket(ZERO_SLOT), 0);
    assert_eq!(Location::bucket(ZERO_SLOT + SLOTS), 1);
}
