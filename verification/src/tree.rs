use crate::bounding_box::BoundingBox;
use crate::entity::OctreeEntity;
use crate::ratio::Ratio;
use crate::vec3::{OctantSigns, Vec3};
use vstd::prelude::*;

verus! {

/// The number of records a node takes in before it tries to hand records down
/// to its octants.
pub const LOCAL_THRESHOLD: usize = 4;

/// The mathematical model of an octree node: its region, the records it keeps
/// itself in ascending order of their identifiers, and its eight octants, each
/// present or absent, in the order of their codes.
pub struct Tree {
    pub region: BoundingBox,
    pub local: Seq<OctreeEntity>,
    pub leaves: Seq<Option<Tree>>,
}

/// Whether the identifiers of `local` ascend strictly.
pub open spec fn ascending(local: Seq<OctreeEntity>) -> bool {
    forall|i: int, j: int| 0 <= i < j < local.len() ==> local[i].entity < local[j].entity
}

/// Whether no two records of `records` share an identifier.
pub open spec fn distinct_ids(records: Seq<OctreeEntity>) -> bool {
    forall|i: int, j: int| 0 <= i < j < records.len() ==> records[i].entity != records[j].entity
}

/// Whether `local` has a record of the identifier `id`.
pub open spec fn has_id(local: Seq<OctreeEntity>, id: u64) -> bool {
    exists|i: int| 0 <= i < local.len() && #[trigger] local[i].entity == id
}

/// The number of records of `local` whose identifier is below `id`: the place
/// of `id` in an ascending sequence.
pub open spec fn rank(local: Seq<OctreeEntity>, id: u64) -> int
    decreases local.len(),
{
    if local.len() == 0 {
        0
    } else {
        rank(local.drop_last(), id) + if local.last().entity < id { 1int } else { 0 }
    }
}

/// `local` with `e` put in its place, and `true`; or `local` as it is, and
/// `false`, when it already has a record of that identifier.
pub open spec fn store(local: Seq<OctreeEntity>, e: OctreeEntity) -> (Seq<OctreeEntity>, bool) {
    if has_id(local, e.entity) {
        (local, false)
    } else {
        (local.insert(rank(local, e.entity), e), true)
    }
}

/// `local` without its record of `id`, and `true`; or `local` as it is, and
/// `false`, when it has none.
pub open spec fn discard(local: Seq<OctreeEntity>, id: u64) -> (Seq<OctreeEntity>, bool) {
    if has_id(local, id) {
        (local.remove(rank(local, id)), true)
    } else {
        (local, false)
    }
}

/// The records of `local` that lie in a single octant of `center`, in order.
pub open spec fn clean_part(local: Seq<OctreeEntity>, center: Vec3) -> Seq<OctreeEntity>
    decreases local.len(),
{
    if local.len() == 0 {
        Seq::empty()
    } else if local.last().bound.spec_octants_about(center).is_some() {
        clean_part(local.drop_last(), center).push(local.last())
    } else {
        clean_part(local.drop_last(), center)
    }
}

/// The records of `local` that reach or cross `center` on some axis, in order.
pub open spec fn straddling_part(local: Seq<OctreeEntity>, center: Vec3) -> Seq<OctreeEntity>
    decreases local.len(),
{
    if local.len() == 0 {
        Seq::empty()
    } else if local.last().bound.spec_octants_about(center).is_none() {
        straddling_part(local.drop_last(), center).push(local.last())
    } else {
        straddling_part(local.drop_last(), center)
    }
}

/// The identifiers of the records of `local` whose boxes intersect `bound`, in
/// order.
pub open spec fn overlapping(local: Seq<OctreeEntity>, bound: BoundingBox) -> Seq<u64>
    decreases local.len(),
{
    if local.len() == 0 {
        Seq::empty()
    } else if local.last().bound.spec_intersects(bound) {
        overlapping(local.drop_last(), bound).push(local.last().entity)
    } else {
        overlapping(local.drop_last(), bound)
    }
}

/// What a ray strikes: the box, and the distance to it.
pub type Hit = (BoundingBox, Ratio);

/// Of the best hit so far and a candidate, the nearer one; the best so far
/// where the two are equally far.
pub open spec fn nearer(best: Option<Hit>, candidate: Option<Hit>) -> Option<Hit> {
    match (best, candidate) {
        (_, None) => best,
        (None, _) => candidate,
        (Some(b), Some(c)) => if c.1.spec_lt(b.1) { candidate } else { best },
    }
}

/// The hit of the ray on one record, if there is one.
pub open spec fn hit_of(e: OctreeEntity, origin: Vec3, dir: Vec3) -> Option<Hit> {
    match e.bound.spec_intersects_ray(origin, dir) {
        Some(t) => Some((e.bound, t)),
        None => None,
    }
}

/// The nearest hit of the ray among the records of `local`; the first of them
/// where several are equally far.
pub open spec fn nearest_local(local: Seq<OctreeEntity>, origin: Vec3, dir: Vec3) -> Option<Hit>
    decreases local.len(),
{
    if local.len() == 0 {
        None
    } else {
        nearer(nearest_local(local.drop_last(), origin, dir), hit_of(local.last(), origin, dir))
    }
}

impl Tree {
    /// The node of the given region with no record and no octant.
    pub open spec fn empty(region: BoundingBox) -> Tree {
        Tree { region, local: Seq::empty(), leaves: Seq::new(8, |i: int| None) }
    }

    /// A node is empty when it keeps no record and has no octant.
    pub open spec fn is_empty(self) -> bool {
        self.local.len() == 0 && forall|i: int| 0 <= i < self.leaves.len() ==> (
        #[trigger] self.leaves[i]).is_none()
    }

    /// The region of the octant with code `i`.
    pub open spec fn octant_region(self, i: int) -> BoundingBox {
        let s = OctantSigns::of_code(i);
        self.region.spec_get_octant(s.x, s.y, s.z)
    }

    /// A tree is well formed when, at every node: the region is a well-formed
    /// box; the records ascend by identifier and hold well-formed boxes; there
    /// are eight places for octants; and every octant that is present belongs to
    /// a region that can be split, covers its eighth of that region, is well
    /// formed itself and is not empty.
    pub open spec fn wf(self) -> bool
        decreases self,
    {
        &&& self.region.wf()
        &&& self.leaves.len() == 8
        &&& ascending(self.local)
        &&& forall|i: int| 0 <= i < self.local.len() ==> (#[trigger] self.local[i]).bound.wf()
        &&& forall|i: int|
            0 <= i < self.leaves.len() ==> ((#[trigger] self.leaves[i]) matches Some(leaf) ==> {
                &&& self.region.splittable()
                &&& leaf.region == self.octant_region(i)
                &&& leaf.wf()
                &&& !leaf.is_empty()
            })
    }

    /// Whether the record `e` is kept somewhere in the tree.
    pub open spec fn holds(self, e: OctreeEntity) -> bool
        decreases self, 1nat,
    {
        self.local.contains(e) || self.holds_at(0, e) || self.holds_at(1, e) || self.holds_at(2, e)
            || self.holds_at(3, e) || self.holds_at(4, e) || self.holds_at(5, e) || self.holds_at(
            6,
            e,
        ) || self.holds_at(7, e)
    }

    /// Whether the record `e` is kept somewhere in the octant with code `i`.
    pub open spec fn holds_at(self, i: int, e: OctreeEntity) -> bool
        decreases self, 0nat,
    {
        if 0 <= i < self.leaves.len() {
            match self.leaves[i] {
                Some(leaf) => leaf.holds(e),
                None => false,
            }
        } else {
            false
        }
    }

    /// How many records of the identifier `id` the tree keeps.
    pub open spec fn count(self, id: u64) -> nat
        decreases self, 1nat,
    {
        (if has_id(self.local, id) { 1nat } else { 0 }) + self.count_at(0, id) + self.count_at(1, id)
            + self.count_at(2, id) + self.count_at(3, id) + self.count_at(4, id) + self.count_at(
            5,
            id,
        ) + self.count_at(6, id) + self.count_at(7, id)
    }

    /// How many records of the identifier `id` the octant with code `i` keeps.
    pub open spec fn count_at(self, i: int, id: u64) -> nat
        decreases self, 0nat,
    {
        if 0 <= i < self.leaves.len() {
            match self.leaves[i] {
                Some(leaf) => leaf.count(id),
                None => 0,
            }
        } else {
            0
        }
    }

    /// Whether every record lies in the region of the node that keeps it, at
    /// every node. In a well-formed tree the region of an octant lies in that
    /// of its parent, so that a node's region then holds every box kept at or
    /// beneath it.
    pub open spec fn encloses(self) -> bool
        decreases self,
    {
        &&& forall|i: int|
            0 <= i < self.local.len() ==> (#[trigger] self.local[i]).bound.spec_within(self.region)
        &&& forall|i: int|
            0 <= i < self.leaves.len() ==> ((#[trigger] self.leaves[i]) matches Some(leaf)
                ==> leaf.encloses())
    }

    /// Whether no identifier is kept twice.
    pub open spec fn unique_ids(self) -> bool {
        forall|id: u64| #[trigger] self.count(id) <= 1
    }

    /// The tree with `local` as the records of its root.
    pub open spec fn with_local(self, local: Seq<OctreeEntity>) -> Tree {
        Tree { region: self.region, local, leaves: self.leaves }
    }

    /// The tree with `leaf` as the octant of its root with code `i`.
    pub open spec fn with_leaf(self, i: int, leaf: Option<Tree>) -> Tree {
        Tree { region: self.region, local: self.local, leaves: self.leaves.update(i, leaf) }
    }

    /// The octant with code `i` as a tree: the octant itself where the root
    /// has it, the empty tree over its region where not.
    pub open spec fn octant(self, i: int) -> Tree {
        match self.leaves[i] {
            Some(leaf) => leaf,
            None => Tree::empty(self.octant_region(i)),
        }
    }

    /// The tree after the record `e` was handed to it, and whether it was taken
    /// in: a record whose identifier the tree keeps already, in whatever node,
    /// is refused and the tree stays as it is; any other record is settled in
    /// the tree.
    pub open spec fn insert(self, e: OctreeEntity) -> (Tree, bool) {
        if self.count(e.entity) > 0 {
            (self, false)
        } else {
            (self.settle(e), true)
        }
    }

    /// The tree after the record `e`, whose identifier it does not keep, was
    /// settled in it.
    ///
    /// A node that keeps fewer than `LOCAL_THRESHOLD` records, or whose region
    /// cannot be split, keeps `e` itself. Any other node sorts `e` and the
    /// records it keeps by the octant of its center that holds them: those that
    /// lie in one octant move down into it, `e` first and the others in
    /// ascending order, and those that reach or cross the center stay.
    pub open spec fn settle(self, e: OctreeEntity) -> Tree
        decreases self.region.span(), 1nat, 0nat,
        when self.wf()
    {
        if self.local.len() < LOCAL_THRESHOLD || !self.region.splittable() {
            self.with_local(store(self.local, e).0)
        } else {
            let center = self.region.spec_center();
            if e.bound.spec_octants_about(center).is_some() {
                self.with_local(straddling_part(self.local, center)).relocate(
                    seq![e] + clean_part(self.local, center),
                )
            } else {
                let local = store(self.local, e).0;
                self.with_local(straddling_part(local, center)).relocate(
                    clean_part(local, center),
                )
            }
        }
    }

    /// The tree after each record of `moving` was settled, one after the other,
    /// in the octant of the root's center that holds it. An octant that is
    /// absent is made; a record that lies in no octant is left out.
    pub open spec fn relocate(self, moving: Seq<OctreeEntity>) -> Tree
        decreases self.region.span(), 0nat, moving.len(),
        when self.wf() && self.region.splittable()
    {
        if moving.len() == 0 {
            self
        } else {
            let e = moving[0];
            match e.bound.spec_octants_about(self.region.spec_center()) {
                Some(signs) => {
                    let i = signs.code();
                    self.with_leaf(i, Some(self.octant(i).settle(e))).relocate(
                        moving.drop_first(),
                    )
                },
                None => self.relocate(moving.drop_first()),
            }
        }
    }

    /// The tree after the record of `e`'s identifier was looked for along the
    /// path of `e`'s box and taken out, and whether it was found.
    ///
    /// The path leads from a node into the octant of its center that holds the
    /// box, as long as that octant is present; the record is looked for among
    /// the records of the node where the path ends, and nowhere else. An octant
    /// that is left empty is taken out of its parent.
    pub open spec fn remove(self, e: OctreeEntity) -> (Tree, bool)
        decreases self,
        when self.wf()
    {
        match e.bound.spec_octants_about(self.region.spec_center()) {
            Some(signs) => {
                let i = signs.code();
                match self.leaves[i] {
                    Some(leaf) => {
                        let (shrunk, found) = leaf.remove(e);
                        if found && shrunk.is_empty() {
                            (self.with_leaf(i, None), found)
                        } else {
                            (self.with_leaf(i, Some(shrunk)), found)
                        }
                    },
                    None => {
                        let (local, found) = discard(self.local, e.entity);
                        (self.with_local(local), found)
                    },
                }
            },
            None => {
                let (local, found) = discard(self.local, e.entity);
                (self.with_local(local), found)
            },
        }
    }

    /// The identifiers that a query with the box `bound` reports, in order: at
    /// each node along the path of `bound`, those of its records whose boxes
    /// intersect `bound`.
    pub open spec fn query(self, bound: BoundingBox) -> Seq<u64>
        decreases self,
        when self.wf()
    {
        let here = overlapping(self.local, bound);
        match bound.spec_octants_about(self.region.spec_center()) {
            Some(signs) => match self.leaves[signs.code()] {
                Some(leaf) => here + leaf.query(bound),
                None => here,
            },
            None => here,
        }
    }

    /// Whether the record `e` is kept by a node along the path of `bound`.
    pub open spec fn on_path(self, bound: BoundingBox, e: OctreeEntity) -> bool
        decreases self,
        when self.wf()
    {
        self.local.contains(e) || match bound.spec_octants_about(self.region.spec_center()) {
            Some(signs) => match self.leaves[signs.code()] {
                Some(leaf) => leaf.on_path(bound, e),
                None => false,
            },
            None => false,
        }
    }

    /// The nearest hit of the ray in the tree, or `None`: nothing is looked at
    /// beneath a node whose region the ray does not strike. Of two hits that are
    /// equally far, the one that is met first stays; a node's own records are
    /// met before those of its octants, and the octants in the order of their
    /// codes.
    pub open spec fn raycast(self, origin: Vec3, dir: Vec3) -> Option<Hit>
        decreases self, 9nat,
        when self.wf()
    {
        if self.region.spec_intersects_ray(origin, dir).is_some() {
            self.raycast_upto(origin, dir, 8)
        } else {
            None
        }
    }

    /// Whether the ray can see the record `e`: whether `e` is kept by a node
    /// whose region the ray strikes, as it strikes the regions of all nodes
    /// above it.
    pub open spec fn in_sight(self, origin: Vec3, dir: Vec3, e: OctreeEntity) -> bool
        decreases self, 1nat,
    {
        self.region.spec_intersects_ray(origin, dir).is_some() && (self.local.contains(e)
            || self.in_sight_at(0, origin, dir, e) || self.in_sight_at(1, origin, dir, e)
            || self.in_sight_at(2, origin, dir, e) || self.in_sight_at(3, origin, dir, e)
            || self.in_sight_at(4, origin, dir, e) || self.in_sight_at(5, origin, dir, e)
            || self.in_sight_at(6, origin, dir, e) || self.in_sight_at(7, origin, dir, e))
    }

    /// Whether the ray can see the record `e` in the octant with code `i`.
    pub open spec fn in_sight_at(self, i: int, origin: Vec3, dir: Vec3, e: OctreeEntity) -> bool
        decreases self, 0nat,
    {
        if 0 <= i < self.leaves.len() {
            match self.leaves[i] {
                Some(leaf) => leaf.in_sight(origin, dir, e),
                None => false,
            }
        } else {
            false
        }
    }

    /// The nearest hit of the ray among the root's records and the first `k`
    /// octants.
    pub open spec fn raycast_upto(self, origin: Vec3, dir: Vec3, k: nat) -> Option<Hit>
        decreases self, k,
        when self.wf() && k <= 8
    {
        if k == 0 {
            nearest_local(self.local, origin, dir)
        } else {
            let best = self.raycast_upto(origin, dir, (k - 1) as nat);
            match self.leaves[k - 1] {
                Some(leaf) => nearer(best, leaf.raycast(origin, dir)),
                None => best,
            }
        }
    }
}

} // verus!
