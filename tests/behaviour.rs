use std::sync::Arc;

use silva::{Arena, Error, Index};

const W: usize = usize::BITS as usize;

fn children(arena: &Arena<usize>, parent: Index) -> Vec<Index> {
    let mut out = Vec::new();
    let mut walk = arena.get(parent).unwrap().children();
    while let Some(child) = walk.next(arena) {
        out.push(child.index());
    }
    out
}

#[test]
fn pushes_give_dense_indices() {
    let mut arena = Arena::new();
    let mut parent = None;
    let mut pushed = Vec::new();
    for i in 0..200usize {
        let index = arena.push(parent, i);
        assert_eq!(index.get(), i);
        assert_eq!(arena.count(), i + 1);
        pushed.push(index);
        if i % 3 == 0 {
            parent = Some(index);
        }
    }
    for (i, index) in pushed.into_iter().enumerate() {
        let node = arena.get(index).unwrap();
        assert_eq!(node.index().get(), i);
        assert_eq!(node.value, i);
    }
}

#[test]
fn get_is_stable_across_pushes() {
    let mut arena = Arena::new();
    let root = arena.push(None, 10usize);
    let child = arena.push(root, 11);
    let before = format!("{:p}", arena.get(child).unwrap());
    arena.reserve(1000);
    for i in 0..500 {
        arena.push(root, i);
    }
    let after = format!("{:p}", arena.get(child).unwrap());
    assert_eq!(before, after);
    assert_eq!(arena.get(child).unwrap().value, 11);
}

#[test]
fn every_child_listed_once() {
    let mut arena = Arena::new();
    let root = arena.push(None, 0usize);
    let other = arena.push(None, 1);
    let mut mine = Vec::new();
    for i in 0..50usize {
        let parent = if i % 2 == 0 { root } else { other };
        let index = arena.push(parent, i);
        if i % 2 == 0 {
            mine.push(index);
        }
    }
    let listed = children(&arena, root);
    assert_eq!(listed.len(), mine.len());
    for index in &mine {
        assert_eq!(listed.iter().filter(|i| *i == index).count(), 1);
        assert_eq!(arena.get(*index).unwrap().parent(), Some(root));
    }
}

#[test]
fn later_children_come_first() {
    let mut arena = Arena::new();
    let root = arena.push(None, 0usize);
    let a = arena.push(root, 1);
    let b = arena.push(root, 2);
    let c = arena.push(Some(root), 3);
    assert_eq!(children(&arena, root), vec![c, b, a]);
    let mut walk = arena.get(c).unwrap().iter_next();
    assert_eq!(walk.next(&arena).unwrap().index(), b);
    assert_eq!(walk.next(&arena).unwrap().index(), a);
    assert!(walk.next(&arena).is_none());
}

#[test]
fn reserve_twice_changes_nothing() {
    for k in [0, 1, W - 1, W, 3 * W, 5000] {
        let mut arena = Arena::<u8>::new();
        arena.reserve(k);
        let once = arena.capacity();
        arena.reserve(k);
        assert_eq!(arena.capacity(), once);
        arena.reserve(k / 2);
        assert_eq!(arena.capacity(), once);
    }
    assert_eq!(
        Arena::<u8>::with_capacity(3 * W).capacity(),
        Arena::<u8>::with_capacity(7 * W - 1).capacity()
    );
}

#[test]
fn capacity_never_shrinks() {
    let mut arena = Arena::new();
    let mut last = arena.capacity();
    assert_eq!(last, 0);
    for i in 0..(8 * W) {
        arena.push(None, i);
        let now = arena.capacity();
        assert!(now >= last);
        assert!(now > i);
        last = now;
        if i % 100 == 0 {
            arena.reserve(i);
            assert!(arena.capacity() >= last);
            last = arena.capacity();
        }
    }
    assert!(last >= 15 * W);
}

#[test]
fn reserve_matches_with_capacity() {
    for k in 0..(7 * W) {
        let mut arena = Arena::<u8>::new();
        arena.reserve(k);
        let expected = if k < W {
            W
        } else if k < 3 * W {
            3 * W
        } else {
            7 * W
        };
        assert_eq!(arena.capacity(), expected);
        assert_eq!(Arena::<u8>::with_capacity(k).capacity(), expected);
    }
}

#[test]
fn new_arena_is_empty() {
    let arena = Arena::<u8>::new();
    assert_eq!(arena.count(), 0);
    assert_eq!(arena.capacity(), 0);
    let default = Arena::<u8>::default();
    assert_eq!(default.count(), 0);
    assert_eq!(default.capacity(), 0);
}

#[test]
fn deep_chain_ancestors() {
    let mut arena = Arena::new();
    let mut nodes = Vec::new();
    let mut parent = None;
    for i in 0..1000usize {
        let node = arena.push(parent, i);
        nodes.push(node);
        parent = Some(node);
    }
    let mut walk = arena.get(nodes[999]).unwrap().ancestors();
    let mut seen = Vec::new();
    while let Some(node) = walk.next(&arena) {
        seen.push(node.index());
    }
    assert_eq!(seen.len(), 999);
    for (k, index) in seen.into_iter().enumerate() {
        assert_eq!(index, nodes[998 - k]);
    }
}

#[test]
fn unknown_parent_is_refused() {
    let mut small = Arena::new();
    let mut big = Arena::new();
    for i in 0..5usize {
        big.push(None, i);
    }
    let far = big.push(None, 5);
    small.push(None, 0usize);
    assert_eq!(small.try_push(far, 1), Err(Error::InvalidIndex));
    assert_eq!(small.count(), 1);
    assert_eq!(small.try_push(Some(far), 1), Err(Error::InvalidIndex));
    let ok = small.try_push(None::<Index>, 1).unwrap();
    assert_eq!(ok.get(), 1);
    assert_eq!(small.get(far).map(|n| n.value), None);
}

#[test]
fn contains_checks_identity() {
    let mut a = Arena::new();
    let mut b = Arena::new();
    let ra = a.push(None, 7usize);
    let rb = b.push(None, 7usize);
    assert_eq!(ra, rb);
    assert!(a.contains(a.get(ra).unwrap()));
    assert!(!a.contains(b.get(rb).unwrap()));
    assert!(!b.contains(a.get(ra).unwrap()));
    b.push(None, 8);
    let pushed = b.push(None, 9);
    let extra = b.get(pushed).unwrap().index();
    assert!(!a.contains(b.get(extra).unwrap()));
}

#[test]
fn push_with_sees_its_index() {
    let mut arena = Arena::new();
    let root = arena.push_with(None, |i: Index| i.get() * 10);
    let child = arena.push_with(root, |i: Index| i.get() * 10);
    assert_eq!(arena.get(root).unwrap().value, 0);
    assert_eq!(arena.get(child).unwrap().value, 10);
    assert_eq!(arena.get(child).unwrap().parent(), Some(root));
}

#[test]
fn push_all_adds_in_order() {
    let mut arena = Arena::new();
    let root = arena.push(None, 0usize);
    let added = arena.push_all(root, vec![1, 2, 3]);
    assert_eq!(added.len(), 3);
    for (k, index) in added.iter().enumerate() {
        assert_eq!(index.get(), k + 1);
        assert_eq!(arena.get(*index).unwrap().value, k + 1);
    }
    assert_eq!(children(&arena, root), vec![added[2], added[1], added[0]]);
    assert!(arena.push_all(None, Vec::new()).is_empty());
    assert_eq!(arena.count(), 4);
}

#[test]
fn get_outside_the_arena_is_none() {
    let mut arena = Arena::new();
    let mut other = Arena::new();
    let root = arena.push(None, 1usize);
    other.push(None, 1usize);
    let second = other.push(None, 2usize);
    assert!(arena.get(second).is_none());
    assert!(arena.get(root).is_some());
}

#[test]
fn handle_keeps_the_arena_alive() {
    let mut arena = Arena::new();
    let root = arena.push(None, 1usize);
    let child = arena.push(root, 2usize);
    let arena = Arc::new(arena);
    let handle = arena.get(child).unwrap().handle(&arena).unwrap();
    let copy = handle.clone();
    drop(arena);
    assert_eq!(handle.value, 2);
    assert_eq!(copy.index(), child);
    assert_eq!(handle.node().parent(), Some(root));
    assert_eq!(handle.arena().count(), 2);

    let mut other = Arena::new();
    other.push(None, 1usize);
    let other = Arc::new(other);
    let foreign = other.get(root).unwrap();
    assert!(foreign.handle(handle.arena()).is_none());
}

#[test]
fn index_prints_its_number() {
    let mut arena = Arena::new();
    arena.push(None, 0u8);
    let second = arena.push(None, 1u8);
    assert_eq!(format!("{:?}", second), "Index(1)");
    assert_eq!(second.get(), 1);
}
