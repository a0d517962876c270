use crate::bounding_box::BoundingBox;
use crate::entity::OctreeEntity;
use crate::octree::OctreeNode;
use crate::ratio::Ratio;
use crate::ray::{point_at, spec_point_at};
use crate::tree::Tree;
use crate::vec3::Vec3;
use vstd::prelude::*;

verus! {

/// An entity as the frame driver hands it over: its identifier, the box that
/// bounds it in its own space, and where it stands in the world.
#[derive(Clone, Copy, Debug)]
pub struct Placement {
    pub entity: u64,
    pub bound: BoundingBox,
    pub translation: Vec3,
}

impl Placement {
    /// The record of the entity in world space: its box moved to where the
    /// entity stands.
    pub open spec fn record(self) -> OctreeEntity {
        OctreeEntity { entity: self.entity, bound: self.bound.spec_translate(self.translation) }
    }

    /// A placement can be indexed when its box is well formed and, moved to
    /// where the entity stands, stays on the lattice.
    pub open spec fn wf(self) -> bool {
        self.bound.wf() && self.bound.translatable(self.translation)
    }
}

impl Placement {
    /// Whether the placement can be indexed.
    pub fn can_index(&self) -> (r: bool)
        ensures
            r == self.wf(),
    {
        self.bound.is_well_formed() && self.bound.can_translate(self.translation)
    }
}

/// The tree after the records of `placements` were handed to it in order.
pub open spec fn inserted_all(t: Tree, placements: Seq<Placement>) -> Tree
    decreases placements.len(),
{
    if placements.len() == 0 {
        t
    } else {
        inserted_all(t, placements.drop_last()).insert(placements.last().record()).0
    }
}

/// The tree after the records of `placements` were taken out of it in order.
pub open spec fn removed_all(t: Tree, placements: Seq<Placement>) -> Tree
    decreases placements.len(),
{
    if placements.len() == 0 {
        t
    } else {
        removed_all(t, placements.drop_last()).remove(placements.last().record()).0
    }
}

impl OctreeNode {
    /// Indexes the entities that became collidable in this frame: each is
    /// handed to the tree with its box in world space, in the order given.
    pub fn insertion_system(&mut self, added: &Vec<Placement>)
        requires
            old(self).wf(),
            forall|k: int| 0 <= k < added@.len() ==> (#[trigger] added@[k]).wf(),
        ensures
            final(self)@ == inserted_all(old(self)@, added@),
            final(self).wf(),
    {
        let mut k: usize = 0;
        while k < added.len()
            invariant
                k <= added@.len(),
                self.wf(),
                forall|n: int| 0 <= n < added@.len() ==> (#[trigger] added@[n]).wf(),
                self@ == inserted_all(old(self)@, added@.subrange(0, k as int)),
            decreases added@.len() - k,
        {
            let p = added[k];
            proof {
                assert(added@[k as int].wf());
                assert(added@.subrange(0, k + 1).drop_last() =~= added@.subrange(0, k as int));
            }
            self.insert(p.entity, p.bound.translate(p.translation));
            k += 1;
        }
        assert(added@.subrange(0, k as int) =~= added@);
    }

    /// Takes out the entities that stopped being collidable in this frame:
    /// each is looked for with its box in world space, in the order given.
    pub fn removal_system(&mut self, removed: &Vec<Placement>)
        requires
            old(self).wf(),
            forall|k: int| 0 <= k < removed@.len() ==> (#[trigger] removed@[k]).wf(),
        ensures
            final(self)@ == removed_all(old(self)@, removed@),
            final(self).wf(),
    {
        let mut k: usize = 0;
        while k < removed.len()
            invariant
                k <= removed@.len(),
                self.wf(),
                forall|n: int| 0 <= n < removed@.len() ==> (#[trigger] removed@[n]).wf(),
                self@ == removed_all(old(self)@, removed@.subrange(0, k as int)),
            decreases removed@.len() - k,
        {
            let p = removed[k];
            proof {
                assert(removed@[k as int].wf());
                assert(removed@.subrange(0, k + 1).drop_last() =~= removed@.subrange(0, k as int));
            }
            self.remove(p.entity, p.bound.translate(p.translation));
            k += 1;
        }
        assert(removed@.subrange(0, k as int) =~= removed@);
    }
}

/// Where a new object goes when the ray from `origin` along `dir` asks for a
/// place: at the nearest box that the ray strikes, or else where the ray
/// leaves the region of the tree, each moved back along the ray by
/// `correction`; nowhere when the ray strikes neither.
pub open spec fn spec_place(t: Tree, origin: Vec3, dir: Vec3, correction: Ratio) -> Option<Vec3> {
    match t.raycast(origin, dir) {
        Some((_, len)) => Some(spec_point_at(origin, dir, len, correction)),
        None => match t.region.spec_intersects_ray(origin, dir) {
            Some(len) => Some(spec_point_at(origin, dir, len, correction)),
            None => None,
        },
    }
}

/// Where a new object goes when the ray from `origin` along `dir` asks for a
/// place.
pub fn place(octree: &OctreeNode, origin: Vec3, dir: Vec3, correction: Ratio) -> (p: Option<Vec3>)
    requires
        octree.wf(),
        correction.wf(),
    ensures
        p == spec_place(octree@, origin, dir, correction),
{
    match octree.raycast_hit(origin, dir, correction) {
        Some((_, p)) => Some(p),
        None => match octree.bound().intersects_ray(origin, dir) {
            Some(len) => {
                proof {
                    crate::bounding_box::lemma_hit_is_well_formed(octree@.region, origin, dir);
                }
                Some(point_at(origin, dir, &len, &correction))
            },
            None => None,
        },
    }
}

/// What to do with the cursor in a frame.
#[derive(Clone, Copy, Debug, PartialEq, Eq, Structural)]
pub enum CursorChange {
    /// Lock the cursor to the window and hide it.
    Grab,
    /// Release the cursor and show it.
    Release,
    /// Leave the cursor as it is.
    Keep,
}

/// What to do with the cursor: a focused window grabs a cursor that is still
/// visible, a window out of focus releases one that is hidden.
pub open spec fn spec_grab_cursor(focused: bool, cursor_visible: bool) -> CursorChange {
    if focused && cursor_visible {
        CursorChange::Grab
    } else if !focused && !cursor_visible {
        CursorChange::Release
    } else {
        CursorChange::Keep
    }
}

/// What to do with the cursor, given whether the window has the focus and
/// whether the cursor is visible.
pub fn grab_cursor(focused: bool, cursor_visible: bool) -> (change: CursorChange)
    ensures
        change == spec_grab_cursor(focused, cursor_visible),
{
    if focused {
        if cursor_visible {
            CursorChange::Grab
        } else {
            CursorChange::Keep
        }
    } else if !cursor_visible {
        CursorChange::Release
    } else {
        CursorChange::Keep
    }
}

} // verus!
