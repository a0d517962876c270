use crate::bounding_box::BoundingBox;
use core::cmp::Ordering;
use vstd::prelude::*;
use vstd::std_specs::cmp::{PartialEqSpecImpl, PartialOrdSpecImpl};

verus! {

/// One record of the index: an entity's identifier and the box that bounds it.
///
/// Two records with the same identifier stand for the same entity, whatever
/// their boxes are: records are compared and ordered by `entity` alone.
#[derive(Clone, Copy, Debug)]
pub struct OctreeEntity {
    pub entity: u64,
    pub bound: BoundingBox,
}

impl OctreeEntity {
    /// The record of `entity` with the box `bound`.
    pub fn new(entity: u64, bound: BoundingBox) -> (e: Self)
        ensures
            e == (OctreeEntity { entity, bound }),
    {
        OctreeEntity { entity, bound }
    }
}

impl PartialEq for OctreeEntity {
    /// Whether the two records have the same identifier.
    fn eq(&self, other: &Self) -> (r: bool) {
        self.entity == other.entity
    }
}

impl PartialEqSpecImpl for OctreeEntity {
    open spec fn obeys_eq_spec() -> bool {
        true
    }

    open spec fn eq_spec(&self, other: &Self) -> bool {
        self.entity == other.entity
    }
}

impl Eq for OctreeEntity {

}

impl PartialOrd for OctreeEntity {
    /// How the two identifiers compare.
    fn partial_cmp(&self, other: &Self) -> (r: Option<Ordering>) {
        if self.entity < other.entity {
            Some(Ordering::Less)
        } else if self.entity > other.entity {
            Some(Ordering::Greater)
        } else {
            Some(Ordering::Equal)
        }
    }
}

impl PartialOrdSpecImpl for OctreeEntity {
    open spec fn obeys_partial_cmp_spec() -> bool {
        true
    }

    open spec fn partial_cmp_spec(&self, other: &Self) -> Option<Ordering> {
        if self.entity < other.entity {
            Some(Ordering::Less)
        } else if self.entity > other.entity {
            Some(Ordering::Greater)
        } else {
            Some(Ordering::Equal)
        }
    }
}

} // verus!
