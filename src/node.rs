//! The nodes of an arena and the links between them.
use vstd::prelude::*;

use std::sync::Arc;

use crate::arena::Arena;
use crate::index::Index;

verus! {

/// A node within an arena: a value and its links to other nodes.
pub struct Node<T> {
    /// This node's own index.
    pub(crate) index: Index,
    /// This node's parent; `None` for a root.
    pub(crate) parent: Option<Index>,
    /// The child that was added to this node last.
    pub(crate) child: Option<Index>,
    /// The sibling that was added to the same parent just before this node.
    pub(crate) next: Option<Index>,
    /// The node's data.
    pub value: T,
}

impl<T> Node<T> {
    /// This node's own index.
    pub open(crate) spec fn spec_index(&self) -> Index {
        self.index
    }

    /// This node's parent.
    pub open(crate) spec fn spec_parent(&self) -> Option<Index> {
        self.parent
    }

    /// The head of this node's list of children.
    pub open(crate) spec fn spec_child(&self) -> Option<Index> {
        self.child
    }

    /// This node's next sibling.
    pub open(crate) spec fn spec_next(&self) -> Option<Index> {
        self.next
    }

    /// This node's value.
    pub open(crate) spec fn spec_value(&self) -> T {
        self.value
    }

    /// A node with no children yet.
    pub(crate) fn new(index: Index, parent: Option<Index>, next: Option<Index>, value: T) -> (r: Node<
        T,
    >)
        ensures
            r == (Node { index, parent, child: None, next, value }),
    {
        Node { index, parent, child: None, next, value }
    }

    /// This node's index.
    pub fn index(&self) -> (r: Index)
        ensures
            r == self.spec_index(),
    {
        self.index
    }

    /// This node's parent; `None` if this node is a root.
    pub fn parent(&self) -> (r: Option<Index>)
        ensures
            r == self.spec_parent(),
    {
        self.parent
    }

    /// The child that was added to this node last; `None` if it has none.
    pub fn child(&self) -> (r: Option<Index>)
        ensures
            r == self.spec_child(),
    {
        self.child
    }

    /// The sibling that was added to the same parent just before this node;
    /// `None` if this node is its parent's first child, or a root.
    pub fn next(&self) -> (r: Option<Index>)
        ensures
            r == self.spec_next(),
    {
        self.next
    }

    /// Makes `child` the head of this node's list of children.
    pub(crate) fn add_child(&mut self, child: Index)
        ensures
            *final(self) == (Node { child: Some(child), ..*old(self) }),
    {
        self.child = Some(child);
    }

    /// A walk over this node's ancestors, starting at its parent.
    pub fn ancestors(&self) -> (r: Ancestors)
        ensures
            r.spec_curr() == self.spec_parent(),
    {
        Ancestors { curr: self.parent }
    }

    /// A walk over this node's children, from the newest to the oldest.
    pub fn children(&self) -> (r: Next)
        ensures
            r.spec_curr() == self.spec_child(),
    {
        Next { curr: self.child }
    }

    /// A walk over the siblings that were added to this node's parent before
    /// it, from the newest to the oldest; this node itself is skipped.
    pub fn iter_next(&self) -> (r: Next)
        ensures
            r.spec_curr() == self.spec_next(),
    {
        Next { curr: self.next }
    }
}

/// A walk along the `next` links: over a node's children or its earlier
/// siblings. It holds only its position, and reads the nodes from the arena.
#[derive(Debug, Clone, Copy)]
pub struct Next {
    pub(crate) curr: Option<Index>,
}

impl Next {
    /// The node that the walk reaches next.
    pub open(crate) spec fn spec_curr(&self) -> Option<Index> {
        self.curr
    }

    /// The node that the walk is at, if it is one of `arena`'s; the walk then
    /// moves on to that node's next sibling. `None` once the walk is over.
    pub fn next<'a, T>(&mut self, arena: &'a Arena<T>) -> (r: Option<&'a Node<T>>)
        requires
            arena.wf(),
        ensures
            match old(self).spec_curr() {
                Some(i) => if i@ < arena@.len() {
                    r == Some(&arena@[i@ as int]) && final(self).spec_curr()
                        == arena@[i@ as int].spec_next()
                } else {
                    r is None && final(self).spec_curr() is None
                },
                None => r is None && final(self).spec_curr() is None,
            },
    {
        let curr = self.curr;
        self.curr = None;
        match curr {
            Some(index) => match arena.get(index) {
                Some(node) => {
                    self.curr = node.next();
                    Some(node)
                },
                None => None,
            },
            None => None,
        }
    }
}

/// A walk along the `parent` links, up to a root.
#[derive(Debug, Clone, Copy)]
pub struct Ancestors {
    pub(crate) curr: Option<Index>,
}

impl Ancestors {
    /// The node that the walk reaches next.
    pub open(crate) spec fn spec_curr(&self) -> Option<Index> {
        self.curr
    }

    /// The node that the walk is at, if it is one of `arena`'s; the walk then
    /// moves on to that node's parent. `None` once the walk is over.
    pub fn next<'a, T>(&mut self, arena: &'a Arena<T>) -> (r: Option<&'a Node<T>>)
        requires
            arena.wf(),
        ensures
            match old(self).spec_curr() {
                Some(i) => if i@ < arena@.len() {
                    r == Some(&arena@[i@ as int]) && final(self).spec_curr()
                        == arena@[i@ as int].spec_parent()
                } else {
                    r is None && final(self).spec_curr() is None
                },
                None => r is None && final(self).spec_curr() is None,
            },
    {
        let curr = self.curr;
        self.curr = None;
        match curr {
            Some(index) => match arena.get(index) {
                Some(node) => {
                    self.curr = node.parent();
                    Some(node)
                },
                None => None,
            },
            None => None,
        }
    }
}

/// A node together with a shared owner of its arena, which keeps the arena,
/// and so the node, alive for as long as the handle lives.
pub struct Handle<T> {
    node: Index,
    arena: Arc<Arena<T>>,
}

impl<T> Handle<T> {
    /// The node is one of the arena's.
    #[verifier::type_invariant]
    spec fn in_arena(self) -> bool {
        self.arena.wf() && self.node@ < self.arena@.len()
    }

    /// The index of the node.
    pub closed spec fn spec_node(&self) -> Index {
        self.node
    }

    /// The arena.
    pub closed spec fn spec_arena(&self) -> Arena<T> {
        *self.arena
    }

    /// A handle to the node at `node` in `arena`.
    pub(crate) fn new(node: Index, arena: &Arc<Arena<T>>) -> (r: Handle<T>)
        requires
            arena.wf(),
            node@ < arena@.len(),
        ensures
            r.spec_node() == node,
            r.spec_arena() == **arena,
    {
        Handle { node, arena: arena.clone() }
    }

    /// The arena that holds the node.
    pub fn arena(&self) -> (r: &Arc<Arena<T>>)
        ensures
            **r == self.spec_arena(),
    {
        &self.arena
    }

    /// The node.
    pub fn node(&self) -> (r: &Node<T>)
        ensures
            self.spec_node()@ < self.spec_arena()@.len(),
            *r == self.spec_arena()@[self.spec_node()@ as int],
    {
        proof {
            use_type_invariant(self);
        }
        match self.arena.get(self.node) {
            Some(node) => node,
            None => vstd::pervasive::unreached(),
        }
    }
}

impl<T> Clone for Handle<T> {
    /// Another handle to the same node, sharing the same arena.
    fn clone(&self) -> (r: Handle<T>)
        ensures
            r.spec_node() == self.spec_node(),
            r.spec_arena() == self.spec_arena(),
    {
        proof {
            use_type_invariant(self);
        }
        Handle::new(self.node, &self.arena)
    }
}

impl<T> std::ops::Deref for Handle<T> {
    type Target = Node<T>;

    fn deref(&self) -> &Node<T> {
        self.node()
    }
}

impl<T> Node<T> {
    /// A handle to this node that shares ownership of `arena`; `None` where
    /// this node is not one of `arena`'s.
    pub fn handle(&self, arena: &Arc<Arena<T>>) -> (r: Option<Handle<T>>)
        requires
            arena.wf(),
        ensures
            r matches Some(h) ==> h.spec_node() == self.spec_index() && h.spec_arena() == **arena
                && arena@[self.spec_index()@ as int] == *self,
            self.spec_index()@ >= arena@.len() ==> r is None,
    {
        if arena.contains(self) {
            Some(Handle::new(self.index, arena))
        } else {
            None
        }
    }
}

/// `l` as a number, if it is a link at all.
pub open spec fn link(l: Option<Index>) -> Option<nat> {
    match l {
        Some(i) => Some(i@),
        None => None,
    }
}

} // verus!
