//! Keeps the set of parent kinds closed to this crate.
use vstd::prelude::*;

use crate::index::Index;

verus! {

/// Implemented only by the kinds of parent that an arena accepts.
pub trait Sealed {

}

impl Sealed for Index {

}

impl Sealed for Option<Index> {

}

} // verus!
