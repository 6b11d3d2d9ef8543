//! Identifiers of classes of objects (datagroups, systems).
use vstd::prelude::*;

verus! {

pub type ID = u32;

/// Finds the id that corresponds to a class.
pub trait IDLocator {
    spec fn spec_get_id() -> ID;

    fn get_id() -> (r: ID)
        ensures
            r == Self::spec_get_id(),
    ;
}

/// Finds the id of the class of an object.
pub trait HasID {
    fn get_id(&self) -> ID;
}

} // verus!
