use std::sync::Arc;

use silva::{Arena, Index};

/// The size of the first bucket.
const SLOTS: usize = usize::BITS as usize;

fn values_of_children<T: Clone>(arena: &Arena<T>, parent: Index) -> Vec<T> {
    let mut out = Vec::new();
    let mut walk = arena.get(parent).unwrap().children();
    while let Some(child) = walk.next(arena) {
        out.push(child.value.clone());
    }
    out
}

#[test]
fn arena_simple() {
    let mut arena = Arena::new();
    let root = arena.push(None, "root");

    let a = arena.push(root, "one");
    let b = arena.push(root, "two");
    let c = arena.push(root, "three");

    assert_eq!(arena.get(a).unwrap().value, "one");
    assert_eq!(arena.get(b).unwrap().value, "two");
    assert_eq!(arena.get(c).unwrap().value, "three");

    assert_eq!(arena.get(a).unwrap().parent(), Some(root));
    assert_eq!(arena.get(b).unwrap().parent(), Some(root));
    assert_eq!(arena.get(c).unwrap().parent(), Some(root));

    let mut children = arena.get(root).unwrap().children();
    assert_eq!(children.next(&arena).unwrap().index(), c);
    assert_eq!(children.next(&arena).unwrap().index(), b);
    assert_eq!(children.next(&arena).unwrap().index(), a);
    assert!(children.next(&arena).is_none());

    assert_eq!(arena.count(), 4);
    let arena = Arc::new(arena);
    let b = arena.get(b).unwrap().handle(&arena).unwrap();
    drop(arena);
    assert_eq!(b.value, "two");
    assert!(b.parent().is_some());
}

#[test]
fn test_simple() {
    let mut arena = Arena::new();
    let root = arena.push(None, "root");
    let a = arena.push(Some(root), "one");
    let b = arena.push(Some(root), "two");
    let c = arena.push(Some(root), "three");

    assert_eq!(arena.get(a).unwrap().value, "one");
    assert_eq!(arena.get(b).unwrap().value, "two");
    assert_eq!(arena.get(c).unwrap().value, "three");

    assert_eq!(arena.get(a).unwrap().parent(), Some(root));
    assert_eq!(arena.get(b).unwrap().parent(), Some(root));
    assert_eq!(arena.get(c).unwrap().parent(), Some(root));

    let mut children = arena.get(root).unwrap().children();
    assert_eq!(children.next(&arena).unwrap().index(), c);
    assert_eq!(children.next(&arena).unwrap().index(), b);
    assert_eq!(children.next(&arena).unwrap().index(), a);

    let arena = Arc::new(arena);
    let b = arena.get(b).unwrap().handle(&arena).unwrap();
    drop(arena);
    assert_eq!(b.value, "two");
    assert!(b.arena().get(b.parent().unwrap()).is_some());
}

/// Builds the forest
/// `root [one [], two, three [], four, five]; root2 [one [two [two two], three, four, five]]`
/// by one push per node, each sibling after the one written before it.
fn build_tree(arena: &mut Arena<&'static str>) -> (Index, Index, Index) {
    let root = arena.push(None, "root");
    arena.push(root, "one");
    arena.push(root, "two");
    arena.push(root, "three");
    arena.push(root, "four");
    arena.push(root, "five");
    let root2 = arena.push(None, "root2");
    let one = arena.push(root2, "one");
    let two = arena.push(one, "two");
    arena.push(two, "two two");
    arena.push(one, "three");
    arena.push(one, "four");
    arena.push(one, "five");
    (root, root2, one)
}

fn check_tree(arena: &Arena<&'static str>, root: Index, root2: Index, one: Index) {
    assert_eq!(arena.count(), 13);
    assert_eq!(arena.get(root).unwrap().value, "root");

    let names = ["one", "two", "three", "four", "five"];
    let children = values_of_children(arena, root);
    assert_eq!(children.len(), 5);
    for (child, name) in children.into_iter().zip(names.into_iter().rev()) {
        assert_eq!(name, child);
    }

    assert_eq!(arena.get(root2).unwrap().child(), Some(one));
    assert_eq!(arena.get(root2).unwrap().value, "root2");
    assert_eq!(arena.get(one).unwrap().value, "one");

    let children = values_of_children(arena, one);
    assert_eq!(children.len(), 4);
    for (child, name) in children.into_iter().zip(names[1..].iter().rev()) {
        assert_eq!(*name, child);
    }
}

#[test]
fn arena_tree_macro() {
    let mut arena = Arena::new();
    let (root, root2, one) = build_tree(&mut arena);
    check_tree(&arena, root, root2, one);
}

#[test]
fn test_tree_macro() {
    let mut arena = Arena::new();
    let (root, root2, one) = build_tree(&mut arena);
    check_tree(&arena, root, root2, one);
}

#[test]
fn iter() {
    let mut arena = Arena::new();
    let root = arena.push(None, 0usize);
    let c = arena.push(root, 2);
    let b = arena.push(root, 1);
    let a = arena.push(root, 0);

    arena.push(c, 3);
    let n = [a, b, c];

    let mut walk = arena.get(root).unwrap().children();
    let mut i = 0;
    while let Some(child) = walk.next(&arena) {
        assert_eq!(child.value, i);
        assert!(std::ptr::eq(arena.get(n[i]).unwrap(), child));
        i += 1;
    }
    assert_eq!(i, 3);
}

#[test]
fn arena_capacity_reserve() {
    let mut arena = Arena::<()>::with_capacity(0);
    for i in 0..SLOTS {
        arena.reserve(i);
        assert_eq!(arena.capacity(), SLOTS);
    }
    for i in SLOTS..SLOTS * 3 {
        arena.reserve(i);
        assert_eq!(arena.capacity(), SLOTS * 3);
    }
    for i in SLOTS * 3..SLOTS * 7 {
        arena.reserve(i);
        assert_eq!(arena.capacity(), SLOTS * 7);
    }
}

#[test]
fn test_capacity_reserve() {
    let mut arena = Arena::<()>::with_capacity(0);
    for i in 0..SLOTS {
        arena.reserve(i);
        assert_eq!(arena.capacity(), SLOTS);
        assert_eq!(Arena::<()>::with_capacity(i).capacity(), SLOTS);
    }
    for i in SLOTS..SLOTS * 3 {
        arena.reserve(i);
        assert_eq!(arena.capacity(), SLOTS * 3);
        assert_eq!(Arena::<()>::with_capacity(i).capacity(), SLOTS * 3);
    }
    for i in SLOTS * 3..SLOTS * 7 {
        arena.reserve(i);
        assert_eq!(arena.capacity(), SLOTS * 7);
        assert_eq!(Arena::<()>::with_capacity(i).capacity(), SLOTS * 7);
    }
}

fn chain_of_strings(capacity: usize) {
    let mut arena = Arena::with_capacity(capacity);
    let mut prev = None;
    let nodes: Vec<Index> = (0..100)
        .map(|i: usize| {
            let node = arena.push(prev, i.to_string());
            prev = Some(node);
            node
        })
        .collect();
    for (i, node) in nodes.into_iter().enumerate() {
        assert_eq!(i.to_string(), arena.get(node).unwrap().value);
    }
}

#[test]
fn arena_unused_cap() {
    chain_of_strings(10_000);
}

#[test]
fn test_unused_cap() {
    chain_of_strings(100_000);
}

#[test]
fn deeply_nested() {
    let mut nodes = Vec::new();
    let mut indices = Vec::new();

    let mut arena = Arena::new();
    let mut parent = None;

    for i in 0..1_000usize {
        let node = arena.push(parent, i);
        nodes.push(node);
        indices.push(arena.get(node).unwrap().index());
        if i % 10 == 0 {
            parent = Some(node);
        }
    }

    for i in 0..indices.len() {
        assert_eq!(arena.get(indices[i]).unwrap().value, i);
        assert_eq!(arena.get(nodes[i]).unwrap().value, i);
        assert!(std::ptr::eq(
            arena.get(nodes[i]).unwrap(),
            arena.get(indices[i]).unwrap()
        ));
    }
}
