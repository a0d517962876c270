use crate::bounding_box::BoundingBox;
use crate::entity::OctreeEntity;
use crate::lemmas::{
    lemma_settle_wf, lemma_parts, lemma_rank_is_place, lemma_remove_wf, lemma_store_ascending,
};
use crate::ratio::Ratio;
use crate::ray::{point_at, spec_point_at};
use crate::tree::{
    ascending, clean_part, discard, nearer, nearest_local, overlapping, store, straddling_part,
    Tree, LOCAL_THRESHOLD,
};
use crate::vec3::{OctantSigns, Vec3};
use vstd::prelude::*;

verus! {

/// A node of the octree, and with it the whole tree beneath it: a region of
/// space, the records that the node keeps itself, and up to eight octants.
pub struct OctreeNode {
    /// The region this node covers.
    bound: BoundingBox,
    /// The records kept here, in ascending order of their identifiers.
    entities: Vec<OctreeEntity>,
    /// The eight octants in the order of their codes, each present or absent.
    leaves: Vec<Option<OctreeNode>>,
}

impl View for OctreeNode {
    type V = Tree;

    open spec fn view(&self) -> Tree {
        self.model()
    }
}

impl OctreeNode {
    /// The tree that this node stands for.
    pub closed spec fn model(&self) -> Tree
        decreases self,
    {
        Tree {
            region: self.bound,
            local: self.entities@,
            leaves: Seq::new(
                self.leaves@.len(),
                |i: int|
                    if 0 <= i < self.leaves@.len() {
                        match self.leaves@[i] {
                            Some(leaf) => Some(leaf.model()),
                            None => None,
                        }
                    } else {
                        None
                    },
            ),
        }
    }

    /// A node is well formed when the tree it stands for is well formed and
    /// keeps no identifier twice.
    pub open spec fn wf(&self) -> bool {
        self@.wf() && self@.unique_ids()
    }

    /// The empty tree over the region `bound`.
    pub fn from_bound(bound: BoundingBox) -> (node: Self)
        requires
            bound.wf(),
        ensures
            node@ == Tree::empty(bound),
            node.wf(),
            node@.encloses(),
    {
        proof {
            crate::laws::lemma_empty_has_unique_ids(bound);
        }
        let mut leaves: Vec<Option<OctreeNode>> = Vec::new();
        let mut i: usize = 0;
        while i < 8
            invariant
                i <= 8,
                leaves@.len() == i,
                forall|j: int| 0 <= j < i ==> (#[trigger] leaves@[j]).is_none(),
            decreases 8 - i,
        {
            leaves.push(None);
            i += 1;
        }
        let node = OctreeNode { bound, entities: Vec::new(), leaves };
        assert(node@.leaves =~= Tree::empty(bound).leaves);
        assert(node@.local =~= Tree::empty(bound).local);
        node
    }

    /// The empty tree over the cube of side `size` about `offset`.
    pub fn new(size: u32, offset: Vec3) -> (node: Self)
        requires
            BoundingBox::size_fits(size, offset),
        ensures
            node@ == Tree::empty(BoundingBox::spec_from_size_offset(size, offset)),
            node.wf(),
            node@.encloses(),
    {
        Self::from_bound(BoundingBox::from_size_offset(size, offset))
    }

    /// The code of the octant on the given sides of a center, between 0 and 7.
    pub fn octant_to_index(x: bool, y: bool, z: bool) -> (i: u32)
        ensures
            i == (OctantSigns { x, y, z }).code(),
            i < 8,
    {
        let step_x: u32 = if x { 4 } else { 0 };
        let step_y: u32 = if y { 2 } else { 0 };
        let step_z: u32 = if z { 1 } else { 0 };
        step_x + step_y + step_z
    }

    /// The region this node covers.
    pub fn bound(&self) -> (b: BoundingBox)
        ensures
            b == self@.region,
    {
        self.bound
    }

    /// How many records the node keeps itself.
    pub fn local_len(&self) -> (n: usize)
        ensures
            n == self@.local.len(),
    {
        self.entities.len()
    }

    /// The record that the node keeps at place `k`, in ascending order of the
    /// identifiers.
    pub fn local_at(&self, k: usize) -> (e: OctreeEntity)
        requires
            k < self@.local.len(),
        ensures
            e == self@.local[k as int],
    {
        self.entities[k]
    }

    /// The octant with code `i`, if the node has it.
    pub fn leaf(&self, i: usize) -> (leaf: Option<&OctreeNode>)
        requires
            i < self@.leaves.len(),
        ensures
            match leaf {
                Some(node) => self@.leaves[i as int] == Some(node@),
                None => self@.leaves[i as int].is_none(),
            },
    {
        match &self.leaves[i] {
            Some(node) => Some(node),
            None => None,
        }
    }

    /// Whether the node keeps no record and has no octant.
    pub fn is_empty(&self) -> (r: bool)
        ensures
            r == self@.is_empty(),
    {
        if self.entities.len() != 0 {
            return false;
        }
        let mut i: usize = 0;
        while i < self.leaves.len()
            invariant
                i <= self.leaves@.len(),
                forall|j: int| 0 <= j < i ==> (#[trigger] self.leaves@[j]).is_none(),
            decreases self.leaves@.len() - i,
        {
            if self.leaves[i].is_some() {
                assert(self@.leaves[i as int].is_some());
                return false;
            }
            i += 1;
        }
        assert forall|j: int| 0 <= j < self@.leaves.len() implies (#[trigger] self@.leaves[j]).is_none() by {
            assert(self.leaves@[j].is_none());
        }
        true
    }

    /// The identifiers of the records that a query with the box `bound`
    /// reports, in the order in which it meets them: at each node along the path
    /// of `bound`, the records whose boxes intersect `bound`. Records beneath
    /// octants that the path does not enter are not looked at.
    pub fn intersect(&self, bound: BoundingBox) -> (ids: Vec<u64>)
        requires
            self.wf(),
        ensures
            ids@ == self@.query(bound),
            forall|e: OctreeEntity|
                self@.on_path(bound, e) && e.bound.spec_intersects(bound) ==> ids@.contains(
                    #[trigger] e.entity,
                ),
            forall|i: int, j: int| 0 <= i < j < ids@.len() ==> ids@[i] != ids@[j],
    {
        let mut ids: Vec<u64> = Vec::new();
        self.intersect_into(&bound, &mut ids);
        proof {
            crate::laws::lemma_query_reports_once(self@, bound);
            assert forall|e: OctreeEntity|
                self@.on_path(bound, e) && e.bound.spec_intersects(bound) implies ids@.contains(
                #[trigger] e.entity) by {
                crate::laws::lemma_query_reports(self@, bound, e);
            }
        }
        ids
    }

    /// Appends to `ids` what a query with `bound` reports.
    fn intersect_into(&self, bound: &BoundingBox, ids: &mut Vec<u64>)
        requires
            self@.wf(),
        ensures
            final(ids)@ == old(ids)@ + self@.query(*bound),
        decreases self,
    {
        let mut i: usize = 0;
        while i < self.entities.len()
            invariant
                i <= self.entities@.len(),
                ids@ == old(ids)@ + overlapping(self.entities@.subrange(0, i as int), *bound),
            decreases self.entities@.len() - i,
        {
            proof {
                assert(self.entities@.subrange(0, i + 1).drop_last() =~= self.entities@.subrange(
                    0,
                    i as int,
                ));
            }
            if self.entities[i].bound.intersects(bound) {
                ids.push(self.entities[i].entity);
            }
            i += 1;
        }
        assert(self.entities@.subrange(0, i as int) =~= self.entities@);
        match bound.octants_about(self.bound.center()) {
            Some(signs) => {
                let k = signs.index();
                match &self.leaves[k] {
                    Some(leaf) => {
                        assert(self@.leaves[k as int] == Some(leaf@));
                        leaf.intersect_into(bound, ids);
                    },
                    None => {
                        assert(self@.leaves[k as int].is_none());
                    },
                }
            },
            None => {},
        }
    }

    /// The nearest box that the ray strikes, and the lattice point where the
    /// ray stands after the distance to it less `correction`: the place of the
    /// impact, moved back along the ray by that much. `None` when the ray
    /// strikes no box.
    pub fn raycast_hit(&self, origin: Vec3, dir: Vec3, correction: Ratio) -> (hit: Option<
        (BoundingBox, Vec3),
    >)
        requires
            self.wf(),
            correction.wf(),
        ensures
            hit == match self@.raycast(origin, dir) {
                Some((b, len)) => Some((b, spec_point_at(origin, dir, len, correction))),
                None => None,
            },
    {
        match self.raycast(origin, dir) {
            Some((b, len)) => {
                proof {
                    crate::laws::lemma_raycast_is_hit(self@, origin, dir);
                    crate::bounding_box::lemma_hit_is_well_formed(b, origin, dir);
                }
                Some((b, point_at(origin, dir, &len, &correction)))
            },
            None => None,
        }
    }

    /// The nearest box that the ray from `origin` along `dir` strikes, and the
    /// distance to it in multiples of `dir`; `None` when it strikes none.
    pub fn raycast(&self, origin: Vec3, dir: Vec3) -> (hit: Option<(BoundingBox, Ratio)>)
        requires
            self.wf(),
        ensures
            hit == self@.raycast(origin, dir),
            hit matches Some(h) ==> h.1.spec_positive() && h.0.spec_intersects_ray(origin, dir)
                == Some(h.1),
            self@.encloses() ==> forall|e: OctreeEntity|
                #[trigger] self@.holds(e) && e.bound.spec_intersects_ray(origin, dir).is_some()
                    ==> (hit matches Some(h) && h.1.spec_le(
                    e.bound.spec_intersects_ray(origin, dir).unwrap(),
                )),
    {
        proof {
            crate::laws::lemma_raycast_is_hit(self@, origin, dir);
            if self@.encloses() {
                assert forall|e: OctreeEntity|
                    #[trigger] self@.holds(e) && e.bound.spec_intersects_ray(
                        origin,
                        dir,
                    ).is_some() implies (self@.raycast(origin, dir) matches Some(h)
                    && h.1.spec_le(e.bound.spec_intersects_ray(origin, dir).unwrap())) by {
                    crate::laws::lemma_raycast_finds_nearest(
                        self@,
                        origin,
                        dir,
                        e,
                        e.bound.spec_intersects_ray(origin, dir).unwrap(),
                    );
                }
            }
        }
        self.raycast_inner(origin, dir)
    }

    fn raycast_inner(&self, origin: Vec3, dir: Vec3) -> (hit: Option<(BoundingBox, Ratio)>)
        requires
            self@.wf(),
        ensures
            hit == self@.raycast(origin, dir),
        decreases self,
    {
        if self.bound.intersects_ray(origin, dir).is_none() {
            return None;
        }
        let mut ret: Option<(BoundingBox, Ratio)> = None;
        let mut i: usize = 0;
        while i < self.entities.len()
            invariant
                self@.wf(),
                i <= self.entities@.len(),
                ret == nearest_local(self.entities@.subrange(0, i as int), origin, dir),
            decreases self.entities@.len() - i,
        {
            proof {
                assert(self.entities@.subrange(0, i + 1).drop_last() =~= self.entities@.subrange(
                    0,
                    i as int,
                ));
                assert(self@.local[i as int].bound.wf());
            }
            let found = match self.entities[i].bound.intersects_ray(origin, dir) {
                Some(len) => Some((self.entities[i].bound, len)),
                None => None,
            };
            ret = pick_nearer(ret, found);
            i += 1;
        }
        assert(self.entities@.subrange(0, i as int) =~= self.entities@);
        let mut k: usize = 0;
        while k < 8
            invariant
                self@.wf(),
                k <= 8,
                ret == self@.raycast_upto(origin, dir, k as nat),
            decreases 8 - k,
        {
            match &self.leaves[k] {
                Some(leaf) => {
                    assert(self@.leaves[k as int] == Some(leaf@));
                    let found = leaf.raycast_inner(origin, dir);
                    ret = pick_nearer(ret, found);
                },
                None => {
                    assert(self@.leaves[k as int].is_none());
                },
            }
            k += 1;
        }
        ret
    }

    /// Whether the tree keeps a record of the identifier `id`, in whatever
    /// node.
    pub fn contains_id(&self, id: u64) -> (r: bool)
        requires
            self@.wf(),
        ensures
            r == (self@.count(id) > 0),
        decreases self,
    {
        let i = place_of(&self.entities, id);
        if i < self.entities.len() && self.entities[i].entity == id {
            return true;
        }
        let mut k: usize = 0;
        while k < 8
            invariant
                self@.wf(),
                k <= 8,
                !crate::tree::has_id(self@.local, id),
                forall|j: int| 0 <= j < k ==> #[trigger] self@.count_at(j, id) == 0,
            decreases 8 - k,
        {
            match &self.leaves[k] {
                Some(leaf) => {
                    assert(self@.leaves[k as int] == Some(leaf@));
                    if leaf.contains_id(id) {
                        assert(self@.count_at(k as int, id) > 0);
                        return true;
                    }
                },
                None => {
                    assert(self@.leaves[k as int].is_none());
                },
            }
            k += 1;
        }
        proof {
            assert(self@.count_at(0, id) == 0 && self@.count_at(1, id) == 0 && self@.count_at(2, id)
                == 0 && self@.count_at(3, id) == 0);
            assert(self@.count_at(4, id) == 0 && self@.count_at(5, id) == 0 && self@.count_at(6, id)
                == 0 && self@.count_at(7, id) == 0);
        }
        false
    }

    /// Hands the record of `entity` with the box `bound` to the tree, and says
    /// whether it was taken in: an identifier that the tree keeps already, in
    /// whatever node, is refused and the tree stays as it is.
    pub fn insert(&mut self, entity: u64, bound: BoundingBox) -> (fresh: bool)
        requires
            old(self).wf(),
            bound.wf(),
        ensures
            (final(self)@, fresh) == old(self)@.insert(OctreeEntity { entity, bound }),
            final(self).wf(),
            final(self)@.region == old(self)@.region,
            fresh == (old(self)@.count(entity) == 0),
            !fresh ==> final(self)@ == old(self)@,
            fresh ==> final(self)@.holds(OctreeEntity { entity, bound }),
            forall|id: u64| #[trigger]
                final(self)@.count(id) == old(self)@.count(id) + if fresh && id == entity {
                    1nat
                } else {
                    0
                },
            forall|x: OctreeEntity| #[trigger]
                final(self)@.holds(x) <==> (old(self)@.holds(x) || (fresh && x == (
                OctreeEntity { entity, bound }))),
            old(self)@.encloses() && bound.spec_within(old(self)@.region) ==> final(self)@.encloses(),
    {
        if self.contains_id(entity) {
            return false;
        }
        proof {
            let e = OctreeEntity { entity, bound };
            lemma_settle_wf(old(self)@, e);
            crate::laws::lemma_insert_keeps_ids_unique(old(self)@, e);
            crate::effects::lemma_settle_effect(old(self)@, e);
            if old(self)@.encloses() && bound.spec_within(old(self)@.region) {
                crate::laws::lemma_insert_encloses(old(self)@, e);
            }
        }
        self.insert_inner(OctreeEntity::new(entity, bound));
        true
    }

    /// Settles a record whose identifier the tree does not keep.
    fn insert_inner(&mut self, entity: OctreeEntity)
        requires
            old(self)@.wf(),
            entity.bound.wf(),
        ensures
            final(self)@ == old(self)@.settle(entity),
            final(self)@.wf(),
        decreases old(self)@.region.span(), 1nat, 0nat,
    {
        proof {
            lemma_settle_wf(old(self)@, entity);
        }
        if self.entities.len() < LOCAL_THRESHOLD || !self.bound.can_split() {
            store_local(&mut self.entities, entity);
            assert(self@.leaves =~= old(self)@.leaves);
        } else {
            let center = self.bound.center();
            let mut to_leaves: Vec<OctreeEntity> = Vec::new();
            match entity.bound.octants_about(center) {
                Some(_) => {
                    to_leaves.push(entity);
                },
                None => {
                    store_local(&mut self.entities, entity);
                },
            }
            let ghost first = to_leaves@;
            let ghost stored = self.entities@;
            let mut kept: Vec<OctreeEntity> = Vec::new();
            let mut i: usize = 0;
            while i < self.entities.len()
                invariant
                    i <= self.entities@.len(),
                    self.entities@ == stored,
                    kept@ == straddling_part(stored.subrange(0, i as int), center),
                    to_leaves@ == first + clean_part(stored.subrange(0, i as int), center),
                decreases self.entities@.len() - i,
            {
                proof {
                    assert(stored.subrange(0, i + 1).drop_last() =~= stored.subrange(0, i as int));
                }
                let e = self.entities[i];
                match e.bound.octants_about(center) {
                    Some(_) => {
                        to_leaves.push(e);
                        assert(to_leaves@ =~= first + clean_part(
                            stored.subrange(0, i + 1),
                            center,
                        ));
                    },
                    None => {
                        kept.push(e);
                    },
                }
                i += 1;
            }
            assert(stored.subrange(0, i as int) =~= stored);
            self.entities = kept;
            proof {
                assert(self@.leaves =~= old(self)@.leaves);
                assert(self@ == old(self)@.with_local(straddling_part(stored, center)));
                if entity.bound.spec_octants_about(center).is_none() {
                    lemma_store_ascending(old(self)@.local, entity);
                }
                lemma_parts(stored, center);
                assert(self@.wf()) by {
                    assert forall|n: int| 0 <= n < self@.local.len() implies (
                    #[trigger] self@.local[n]).bound.wf() by {
                        let x = self@.local[n];
                        assert(self@.local.contains(x));
                        assert(stored.contains(x));
                        if x != entity {
                            assert(old(self)@.local.contains(x));
                            let m = choose|m: int|
                                0 <= m < old(self)@.local.len() && old(self)@.local[m] == x;
                            assert(old(self)@.local[m].bound.wf());
                        }
                    }
                    assert forall|n: int| 0 <= n < self@.leaves.len() implies ((
                    #[trigger] self@.leaves[n]) matches Some(leaf) ==> {
                        &&& self@.region.splittable()
                        &&& leaf.region == self@.octant_region(n)
                        &&& leaf.wf()
                        &&& !leaf.is_empty()
                    }) by {
                        assert(self@.leaves[n] == old(self)@.leaves[n]);
                    }
                }
                assert forall|n: int| 0 <= n < to_leaves@.len() implies (
                #[trigger] to_leaves@[n]).bound.wf() by {
                    let x = to_leaves@[n];
                    if n < first.len() {
                        assert(x == entity);
                    } else {
                        assert(clean_part(stored, center)[n - first.len()] == x);
                        assert(clean_part(stored, center).contains(x));
                        assert(stored.contains(x));
                        if x != entity {
                            assert(old(self)@.local.contains(x));
                            let m = choose|m: int|
                                0 <= m < old(self)@.local.len() && old(self)@.local[m] == x;
                            assert(old(self)@.local[m].bound.wf());
                        }
                    }
                }
            }
            self.relocate(&to_leaves);
        }
    }

    /// Hands each record of `moving` down to the octant that holds it.
    fn relocate(&mut self, moving: &Vec<OctreeEntity>)
        requires
            old(self)@.wf(),
            old(self)@.region.splittable(),
            forall|k: int| 0 <= k < moving@.len() ==> (#[trigger] moving@[k]).bound.wf(),
        ensures
            final(self)@ == old(self)@.relocate(moving@),
        decreases old(self)@.region.span(), 0nat, moving@.len(),
    {
        let center = self.bound.center();
        let mut k: usize = 0;
        assert(moving@.subrange(0, moving@.len() as int) =~= moving@);
        while k < moving.len()
            invariant
                k <= moving@.len(),
                self@.wf(),
                self@.region == old(self)@.region,
                self@.region.splittable(),
                center == self@.region.spec_center(),
                forall|n: int| 0 <= n < moving@.len() ==> (#[trigger] moving@[n]).bound.wf(),
                self@.relocate(moving@.subrange(k as int, moving@.len() as int)) == old(
                    self,
                )@.relocate(moving@),
            decreases moving@.len() - k,
        {
            let e = moving[k];
            let ghost rest = moving@.subrange(k as int, moving@.len() as int);
            let ghost before = self@;
            proof {
                assert(rest[0] == e);
                assert(rest.drop_first() =~= moving@.subrange(k + 1, moving@.len() as int));
                assert(e.bound.wf());
            }
            match e.bound.octants_about(center) {
                Some(signs) => {
                    let i = signs.index();
                    proof {
                        crate::vec3::lemma_code_of_signs(signs);
                    }
                    match &mut self.leaves[i] {
                        Some(leaf) => {
                            assert(before.leaves[i as int] == Some(leaf@));
                            let ghost below = leaf@;
                            leaf.insert_inner(e);
                            let ghost grown = leaf@;
                            proof {
                                lemma_settle_wf(below, e);
                                assert(self@.leaves =~= before.leaves.update(
                                    i as int,
                                    Some(grown),
                                ));
                            }
                        },
                        None => {
                            assert(before.leaves[i as int].is_none());
                            let mut new_leaf = Self::from_bound(
                                self.bound.get_octant(signs.x, signs.y, signs.z),
                            );
                            let ghost below = new_leaf@;
                            new_leaf.insert_inner(e);
                            proof {
                                lemma_settle_wf(below, e);
                            }
                            let ghost grown = new_leaf@;
                            self.leaves[i] = Some(new_leaf);
                            proof {
                                assert(self@.leaves =~= before.leaves.update(
                                    i as int,
                                    Some(grown),
                                ));
                            }
                        },
                    }
                    proof {
                        let next = self@;
                        assert forall|j: int| 0 <= j < next.leaves.len() implies ((
                        #[trigger] next.leaves[j]) matches Some(leaf) ==> {
                            &&& next.region.splittable()
                            &&& leaf.region == next.octant_region(j)
                            &&& leaf.wf()
                            &&& !leaf.is_empty()
                        }) by {
                            if j != i {
                                assert(next.leaves[j] == before.leaves[j]);
                            }
                        }
                    }
                },
                None => {},
            }
            k += 1;
        }
        assert(moving@.subrange(k as int, moving@.len() as int).len() == 0);
    }

    /// Takes the record of `entity` out of the tree, if it is found along the
    /// path of `bound`; says whether it was.
    pub fn remove(&mut self, entity: u64, bound: BoundingBox) -> (found: bool)
        requires
            old(self).wf(),
        ensures
            (final(self)@, found) == old(self)@.remove(OctreeEntity { entity, bound }),
            final(self).wf(),
            final(self)@.region == old(self)@.region,
            !found ==> final(self)@ == old(self)@,
            forall|id: u64| #[trigger]
                final(self)@.count(id) == old(self)@.count(id) - if found && id == entity {
                    1int
                } else {
                    0
                },
            forall|x: OctreeEntity| #[trigger]
                final(self)@.holds(x) <==> (old(self)@.holds(x) && !(found && x.entity == entity)),
            old(self)@.encloses() ==> final(self)@.encloses(),
    {
        proof {
            let e = OctreeEntity { entity, bound };
            lemma_remove_wf(old(self)@, e);
            crate::laws::lemma_remove_keeps_ids_unique(old(self)@, e);
            crate::laws::lemma_remove_takes_one(old(self)@, e);
            if old(self)@.encloses() {
                crate::laws::lemma_remove_encloses(old(self)@, e);
            }
        }
        self.remove_inner(OctreeEntity::new(entity, bound))
    }

    fn remove_inner(&mut self, entity: OctreeEntity) -> (found: bool)
        requires
            old(self)@.wf(),
        ensures
            (final(self)@, found) == old(self)@.remove(entity),
        decreases *old(self),
    {
        match entity.bound.octants_about(self.bound.center()) {
            Some(signs) => {
                let i = signs.index();
                match &mut self.leaves[i] {
                    Some(leaf) => {
                        assert(old(self)@.leaves[i as int] == Some(leaf@));
                        let ghost before = leaf@;
                        let ret = leaf.remove_inner(entity);
                        let ghost after = leaf@;
                        let vacant = ret && leaf.is_empty();
                        if vacant {
                            self.leaves[i] = None;
                        }
                        proof {
                            let slot = if vacant { None } else { Some(after) };
                            assert(self@.leaves =~= old(self)@.leaves.update(i as int, slot));
                        }
                        ret
                    },
                    None => {
                        assert(old(self)@.leaves[i as int].is_none());
                        let ret = discard_local(&mut self.entities, entity.entity);
                        assert(self@.leaves =~= old(self)@.leaves);
                        ret
                    },
                }
            },
            None => {
                let ret = discard_local(&mut self.entities, entity.entity);
                assert(self@.leaves =~= old(self)@.leaves);
                ret
            },
        }
    }
}

/// The place of `id` in the ascending sequence `local`: the index of the first
/// record that is not below `id`.
fn place_of(local: &Vec<OctreeEntity>, id: u64) -> (i: usize)
    requires
        ascending(local@),
    ensures
        i <= local@.len(),
        i == crate::tree::rank(local@, id),
        crate::tree::has_id(local@, id) <==> (i < local@.len() && local@[i as int].entity == id),
{
    let mut i: usize = 0;
    while i < local.len() && local[i].entity < id
        invariant
            i <= local@.len(),
            forall|j: int| 0 <= j < i ==> (#[trigger] local@[j]).entity < id,
        decreases local@.len() - i,
    {
        i += 1;
    }
    proof {
        lemma_rank_is_place(local@, id, i as int);
    }
    i
}

/// Puts `e` in its place in `local`, unless a record of its identifier is
/// there already.
fn store_local(local: &mut Vec<OctreeEntity>, e: OctreeEntity) -> (fresh: bool)
    requires
        ascending(old(local)@),
    ensures
        (final(local)@, fresh) == store(old(local)@, e),
{
    let i = place_of(local, e.entity);
    if i < local.len() && local[i].entity == e.entity {
        false
    } else {
        local.insert(i, e);
        true
    }
}

/// Takes the record of `id` out of `local`, if there is one.
fn discard_local(local: &mut Vec<OctreeEntity>, id: u64) -> (found: bool)
    requires
        ascending(old(local)@),
    ensures
        (final(local)@, found) == discard(old(local)@, id),
{
    let i = place_of(local, id);
    if i < local.len() && local[i].entity == id {
        local.remove(i);
        true
    } else {
        false
    }
}

/// Of the best hit so far and a candidate, the nearer one.
fn pick_nearer(best: Option<(BoundingBox, Ratio)>, candidate: Option<(BoundingBox, Ratio)>) -> (r:
    Option<(BoundingBox, Ratio)>)
    ensures
        r == nearer(best, candidate),
{
    match (best, candidate) {
        (_, None) => best,
        (None, _) => candidate,
        (Some(b), Some(c)) => if c.1.less_than(&b.1) { candidate } else { best },
    }
}

} // verus!
