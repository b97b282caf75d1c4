//! Dense identifiers of an arena's nodes.
use vstd::prelude::*;

use crate::arena::{Arena, Error};
use crate::location::MAX_INDEX;
use crate::node::Node;
use crate::sealed::Sealed;

verus! {

/// A valid index into an arena: a number in `0..=MAX_INDEX`.
#[derive(Debug, Clone, Copy, PartialEq, Eq, Structural, PartialOrd, Ord, Hash)]
pub struct Index(pub(crate) usize);

impl View for Index {
    type V = nat;

    closed spec fn view(&self) -> nat {
        self.0 as nat
    }
}

impl Index {
    #[verifier::type_invariant]
    spec fn in_range(self) -> bool {
        self.0 <= MAX_INDEX
    }

    /// The index `index`, which must be at most `MAX_INDEX`.
    pub(crate) fn new_unchecked(index: usize) -> (r: Index)
        requires
            index <= MAX_INDEX,
        ensures
            r@ == index,
    {
        Index(index)
    }

    /// The number that this index stands for.
    pub fn get(self) -> (r: usize)
        ensures
            r == self@,
            r <= MAX_INDEX,
    {
        proof {
            use_type_invariant(self);
        }
        self.0
    }
}

/// The index whose number is `n`.
pub open(crate) spec fn index_at(n: nat) -> Index {
    Index(n as usize)
}

/// `index_at(n)` stands for `n`, and is the only index that does.
pub proof fn lemma_index_at(n: nat)
    requires
        n <= MAX_INDEX,
    ensures
        index_at(n)@ == n,
        forall|i: Index| i@ == n ==> i == index_at(n),
{
}

/// Two indices are equal exactly when they stand for the same number.
pub proof fn lemma_index_view_eq(a: Index, b: Index)
    ensures
        a == b <==> a@ == b@,
{
}

/// What names a node's parent: an `Index` for a child of that node, `None`
/// (as an `Option<Index>`) for a root.
///
/// Looking the parent up fails with `Error::InvalidIndex` where the index is
/// not one of the arena's nodes.
pub trait AsParent<T>: Sealed + Sized {
    /// The index of the parent that this names; `None` for a root.
    spec fn spec_parent(&self) -> Option<Index>;

    /// The parent node that this names in `arena`.
    fn get(self, arena: &Arena<T>) -> (r: Result<Option<&Node<T>>, Error>)
        requires
            arena.wf(),
        ensures
            match self.spec_parent() {
                None => r == Ok::<Option<&Node<T>>, Error>(None),
                Some(i) => if i@ < arena@.len() {
                    r == Ok::<Option<&Node<T>>, Error>(Some(&arena@[i@ as int]))
                } else {
                    r == Err::<Option<&Node<T>>, Error>(Error::InvalidIndex)
                },
            },
    ;
}

impl<T> AsParent<T> for Index {
    open spec fn spec_parent(&self) -> Option<Index> {
        Some(*self)
    }

    fn get(self, arena: &Arena<T>) -> (r: Result<Option<&Node<T>>, Error>) {
        match arena.get(self) {
            Some(node) => Ok(Some(node)),
            None => Err(Error::InvalidIndex),
        }
    }
}

impl<T> AsParent<T> for Option<Index> {
    open spec fn spec_parent(&self) -> Option<Index> {
        *self
    }

    fn get(self, arena: &Arena<T>) -> (r: Result<Option<&Node<T>>, Error>) {
        match self {
            Some(index) => AsParent::<T>::get(index, arena),
            None => Ok(None),
        }
    }
}

} // verus!
