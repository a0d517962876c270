use crate::bounding_box::BoundingBox;
use crate::entity::OctreeEntity;
use crate::lemmas::{
    lemma_discard_ascending, lemma_empty_wf, lemma_held_boxes, lemma_parts, lemma_rank_parts,
    lemma_relocate_step_wf, lemma_store_ascending,
};
use crate::slab::{lemma_hit_is_inside, lemma_inside_is_hit, ray_inside};
use crate::tree::{
    clean_part, discard, has_id, rank, store, straddling_part, Tree, LOCAL_THRESHOLD,
};
use crate::vec3::{lemma_code_of_signs, OctantSigns, Vec3};
use vstd::prelude::*;

verus! {

/// A box that lies in a region, and in one octant of its center, lies in the
/// region of that octant.
pub proof fn lemma_octant_holds(region: BoundingBox, b: BoundingBox, signs: OctantSigns)
    requires
        region.wf(),
        b.spec_within(region),
        b.spec_octants_about(region.spec_center()) == Some(signs),
    ensures
        b.spec_within(region.spec_get_octant(signs.x, signs.y, signs.z)),
{
}

/// Every octant of a well-formed region lies in the region.
pub proof fn lemma_octant_within(region: BoundingBox, x: bool, y: bool, z: bool)
    requires
        region.wf(),
    ensures
        region.spec_get_octant(x, y, z).spec_within(region),
{
}

/// A sequence whose records all come from `local` or are `e` holds boxes in
/// `region` when `local` and `e` do.
proof fn lemma_part_within(
    local: Seq<OctreeEntity>,
    e: OctreeEntity,
    part: Seq<OctreeEntity>,
    region: BoundingBox,
)
    requires
        forall|i: int| 0 <= i < local.len() ==> (#[trigger] local[i]).bound.spec_within(region),
        e.bound.spec_within(region),
        forall|x: OctreeEntity| #[trigger] part.contains(x) ==> (local.contains(x) || x == e),
    ensures
        forall|i: int| 0 <= i < part.len() ==> (#[trigger] part[i]).bound.spec_within(region),
{
    assert forall|i: int| 0 <= i < part.len() implies (#[trigger] part[i]).bound.spec_within(
        region,
    ) by {
        assert(part.contains(part[i]));
        if part[i] != e {
            let k = choose|k: int| 0 <= k < local.len() && local[k] == part[i];
            assert(local[k].bound.spec_within(region));
        }
    }
}

/// Settling a record that lies in the region of a tree keeps every record in
/// the region of its node.
pub proof fn lemma_settle_encloses(t: Tree, e: OctreeEntity)
    requires
        t.wf(),
        t.encloses(),
        e.bound.wf(),
        e.bound.spec_within(t.region),
    ensures
        t.settle(e).encloses(),
    decreases t.region.span(), 1nat, 0nat,
{
    lemma_store_ascending(t.local, e);
    let stored = store(t.local, e).0;
    if t.local.len() < LOCAL_THRESHOLD || !t.region.splittable() {
        assert forall|x: OctreeEntity| #[trigger] stored.contains(x) implies (t.local.contains(x)
            || x == e) by {}
        lemma_part_within(t.local, e, stored, t.region);
        let out = t.settle(e);
        assert(out.leaves == t.leaves);
    } else {
        let center = t.region.spec_center();
        let clean_e = e.bound.spec_octants_about(center).is_some();
        let base = if clean_e { t.local } else { stored };
        let kept = straddling_part(base, center);
        let clean = clean_part(base, center);
        let moving = if clean_e { seq![e] + clean } else { clean };
        lemma_parts(base, center);
        assert forall|x: OctreeEntity| #[trigger] kept.contains(x) implies (t.local.contains(x)
            || x == e) by {
            assert(base.contains(x));
        }
        assert forall|x: OctreeEntity| #[trigger] moving.contains(x) implies (t.local.contains(x)
            || x == e) by {
            let k = choose|k: int| 0 <= k < moving.len() && moving[k] == x;
            if clean_e {
                if k > 0 {
                    assert(clean[k - 1] == x);
                    assert(clean.contains(x));
                }
            } else {
                assert(clean.contains(x));
                assert(base.contains(x));
            }
        }
        lemma_held_boxes(t.local, e, kept);
        lemma_held_boxes(t.local, e, moving);
        lemma_part_within(t.local, e, kept, t.region);
        lemma_part_within(t.local, e, moving, t.region);
        let below = t.with_local(kept);
        assert(below.wf() && below.encloses()) by {
            assert forall|n: int| 0 <= n < below.leaves.len() implies ((
            #[trigger] below.leaves[n]) matches Some(leaf) ==> {
                &&& below.region.splittable()
                &&& leaf.region == below.octant_region(n)
                &&& leaf.wf()
                &&& !leaf.is_empty()
                &&& leaf.encloses()
            }) by {
                assert(below.leaves[n] == t.leaves[n]);
            }
        }
        assert(t.settle(e) == below.relocate(moving));
        lemma_relocate_encloses(below, moving);
    }
}

/// Settling records that lie in the region of a tree in its octants keeps
/// every record in the region of its node.
pub proof fn lemma_relocate_encloses(t: Tree, moving: Seq<OctreeEntity>)
    requires
        t.wf(),
        t.region.splittable(),
        t.encloses(),
        forall|k: int| 0 <= k < moving.len() ==> (#[trigger] moving[k]).bound.wf(),
        forall|k: int| 0 <= k < moving.len() ==> (#[trigger] moving[k]).bound.spec_within(t.region),
    ensures
        t.relocate(moving).encloses(),
    decreases t.region.span(), 0nat, moving.len(),
{
    if moving.len() > 0 {
        let e = moving[0];
        let rest = moving.drop_first();
        assert forall|k: int| 0 <= k < rest.len() implies (#[trigger] rest[k]).bound.wf()
            && rest[k].bound.spec_within(t.region) by {
            assert(rest[k] == moving[k + 1]);
        }
        match e.bound.spec_octants_about(t.region.spec_center()) {
            Some(signs) => {
                let i = signs.code();
                lemma_code_of_signs(signs);
                let below = t.octant(i);
                if t.leaves[i].is_none() {
                    lemma_empty_wf(t.octant_region(i));
                }
                lemma_octant_holds(t.region, e.bound, signs);
                assert(below.region.span() < t.region.span());
                lemma_settle_encloses(below, e);
                let next = lemma_relocate_step_wf(t, e);
                assert(next.encloses()) by {
                    assert forall|j: int| 0 <= j < next.leaves.len() implies ((
                    #[trigger] next.leaves[j]) matches Some(leaf) ==> leaf.encloses()) by {
                        if j != i {
                            assert(next.leaves[j] == t.leaves[j]);
                        }
                    }
                }
                lemma_relocate_encloses(next, rest);
            },
            None => {
                lemma_relocate_encloses(t, rest);
            },
        }
    }
}

/// Taking a record out keeps every record in the region of its node.
pub proof fn lemma_remove_encloses(t: Tree, e: OctreeEntity)
    requires
        t.wf(),
        t.encloses(),
    ensures
        t.remove(e).0.encloses(),
    decreases t,
{
    let out = t.remove(e).0;
    let at_leaf = match e.bound.spec_octants_about(t.region.spec_center()) {
        Some(signs) => t.leaves[signs.code()].is_some(),
        None => false,
    };
    if at_leaf {
        let signs = e.bound.spec_octants_about(t.region.spec_center()).unwrap();
        let i = signs.code();
        lemma_code_of_signs(signs);
        lemma_remove_encloses(t.leaves[i].unwrap(), e);
        assert forall|j: int| 0 <= j < out.leaves.len() implies ((
        #[trigger] out.leaves[j]) matches Some(leaf) ==> leaf.encloses()) by {
            if j != i {
                assert(out.leaves[j] == t.leaves[j]);
            }
        }
    } else {
        lemma_discard_ascending(t.local, e.entity);
        let left = discard(t.local, e.entity).0;
        assert(out == t.with_local(left));
        lemma_rank_parts(t.local, e.entity);
        let r = rank(t.local, e.entity);
        assert forall|k: int| 0 <= k < left.len() implies (#[trigger] left[k]).bound.spec_within(
            t.region,
        ) by {
            if has_id(t.local, e.entity) {
                assert(left[k] == if k < r { t.local[k] } else { t.local[k + 1] });
            }
        }
    }
}

/// The region of a well-formed tree that encloses its records holds the box
/// of every record kept at or beneath its root.
pub proof fn lemma_held_within(t: Tree, e: OctreeEntity)
    requires
        t.wf(),
        t.encloses(),
        t.holds(e),
    ensures
        e.bound.spec_within(t.region),
    decreases t,
{
    if t.local.contains(e) {
        let k = choose|k: int| 0 <= k < t.local.len() && t.local[k] == e;
        assert(t.local[k].bound.spec_within(t.region));
    } else {
        let i = held_at(t, e);
        let leaf = t.leaves[i].unwrap();
        lemma_held_within(leaf, e);
        let s = OctantSigns::of_code(i);
        lemma_octant_within(t.region, s.x, s.y, s.z);
    }
}

/// The code of an octant that keeps `e`, where `e` is kept beneath the root.
pub open spec fn held_at(t: Tree, e: OctreeEntity) -> int {
    if t.holds_at(0, e) {
        0
    } else if t.holds_at(1, e) {
        1
    } else if t.holds_at(2, e) {
        2
    } else if t.holds_at(3, e) {
        3
    } else if t.holds_at(4, e) {
        4
    } else if t.holds_at(5, e) {
        5
    } else if t.holds_at(6, e) {
        6
    } else {
        7
    }
}

/// A ray that strikes a box strikes every box that the box lies in.
pub proof fn lemma_within_hit(inner: BoundingBox, outer: BoundingBox, origin: Vec3, dir: Vec3)
    requires
        inner.spec_within(outer),
        inner.spec_intersects_ray(origin, dir).is_some(),
    ensures
        outer.spec_intersects_ray(origin, dir).is_some(),
{
    let t = inner.spec_intersects_ray(origin, dir).unwrap();
    lemma_hit_is_inside(inner, origin, dir);
    let (n, q) = (t.num as int, t.den as int);
    lemma_axis_widens(inner.min.x, inner.max.x, outer.min.x, outer.max.x, origin.x, dir.x, n, q);
    lemma_axis_widens(inner.min.y, inner.max.y, outer.min.y, outer.max.y, origin.y, dir.y, n, q);
    lemma_axis_widens(inner.min.z, inner.max.z, outer.min.z, outer.max.z, origin.z, dir.z, n, q);
    assert(ray_inside(outer, origin, dir, t));
    lemma_inside_is_hit(outer, origin, dir, t);
}

/// On one axis, a place between two bounds is between two wider bounds.
proof fn lemma_axis_widens(
    lo: i32,
    hi: i32,
    wide_lo: i32,
    wide_hi: i32,
    o: i32,
    d: i32,
    n: int,
    q: int,
)
    requires
        q > 0,
        wide_lo <= lo,
        hi <= wide_hi,
        q * lo <= q * o + n * d <= q * hi,
    ensures
        q * wide_lo <= q * o + n * d <= q * wide_hi,
{
    assert(q * wide_lo <= q * lo) by (nonlinear_arith)
        requires
            q > 0,
            wide_lo <= lo,
    ;
    assert(q * hi <= q * wide_hi) by (nonlinear_arith)
        requires
            q > 0,
            hi <= wide_hi,
    ;
}

/// In a well-formed tree that encloses its records, a ray sees every record
/// that it strikes.
pub proof fn lemma_held_in_sight(t: Tree, origin: Vec3, dir: Vec3, e: OctreeEntity)
    requires
        t.wf(),
        t.encloses(),
        t.holds(e),
        e.bound.spec_intersects_ray(origin, dir).is_some(),
    ensures
        t.in_sight(origin, dir, e),
    decreases t,
{
    lemma_held_within(t, e);
    lemma_within_hit(e.bound, t.region, origin, dir);
    if !t.local.contains(e) {
        let i = held_at(t, e);
        lemma_held_in_sight(t.leaves[i].unwrap(), origin, dir, e);
        assert(t.in_sight_at(i, origin, dir, e));
    }
}

} // verus!
