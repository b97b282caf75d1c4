//! A storage cell that holds at most one node.
use vstd::prelude::*;

use crate::node::Node;

verus! {

/// Where a slot is in its life: it only ever moves forward, from `Uninit`
/// through `Middle` to `Active`.
#[derive(Debug, Clone, Copy, PartialEq, Eq, Structural)]
pub enum State {
    /// The slot holds no node.
    Uninit,
    /// The slot's node is being written.
    Middle,
    /// The slot holds its node for good.
    Active,
}

/// One cell of a bucket: a state and, once it is `Active`, a node.
pub struct Slot<T> {
    pub(crate) state: State,
    pub(crate) node: Option<Node<T>>,
}

impl<T> Slot<T> {
    /// A slot at rest: `Uninit` and empty, or `Active` and full.
    pub open(crate) spec fn wf(&self) -> bool {
        match self.state {
            State::Uninit => self.node is None,
            State::Middle => false,
            State::Active => self.node is Some,
        }
    }

    /// The slot holds a node.
    pub open(crate) spec fn is_active(&self) -> bool {
        self.state == State::Active
    }

    /// The node that the slot holds, if it holds one.
    pub open(crate) spec fn spec_node(&self) -> Node<T> {
        self.node.unwrap()
    }

    /// A slot that holds nothing yet.
    pub(crate) fn new() -> (r: Slot<T>)
        ensures
            r.wf(),
            !r.is_active(),
    {
        Slot { state: State::Uninit, node: None }
    }

    /// The node, if the slot holds one.
    pub fn get(&self) -> (r: Option<&Node<T>>)
        requires
            self.wf(),
        ensures
            r == (if self.is_active() {
                Some(&self.spec_node())
            } else {
                None
            }),
    {
        if self.acquire() {
            Some(self.get_unchecked())
        } else {
            None
        }
    }

    /// The node of a slot that holds one.
    pub(crate) fn get_unchecked(&self) -> (r: &Node<T>)
        requires
            self.wf(),
            self.is_active(),
        ensures
            *r == self.node.unwrap(),
    {
        match &self.node {
            Some(node) => node,
            None => vstd::pervasive::unreached(),
        }
    }

    /// Stores `node` in an empty slot, which then holds it for good.
    pub(crate) fn write(&mut self, node: Node<T>)
        requires
            old(self).wf(),
            !old(self).is_active(),
        ensures
            final(self).wf(),
            final(self).is_active(),
            final(self).node == Some(node),
    {
        self.state = State::Middle;
        self.node = Some(node);
        self.state = State::Active;
    }

    /// Adds `child` at the head of the held node's list of children.
    pub(crate) fn add_child(&mut self, child: crate::index::Index)
        requires
            old(self).wf(),
            old(self).is_active(),
        ensures
            final(self).wf(),
            final(self).is_active(),
            final(self).node == Some(
                Node { child: Some(child), ..old(self).node.unwrap() },
            ),
    {
        match &mut self.node {
            Some(node) => node.add_child(child),
            None => {},
        }
    }

    /// Whether the slot holds a node.
    fn acquire(&self) -> (r: bool)
        requires
            self.wf(),
        ensures
            r == self.is_active(),
    {
        match self.state() {
            State::Uninit => false,
            State::Middle => false,
            State::Active => true,
        }
    }

    /// The slot's state.
    fn state(&self) -> (r: State)
        ensures
            r == self.state,
    {
        self.state
    }
}

} // verus!
