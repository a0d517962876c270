use crate::bounding_box::{lemma_hit_is_well_formed, BoundingBox};
use crate::ratio::{lemma_order_is_total, lemma_order_is_transitive, Ratio};
use crate::effects::{lemma_holds_is_counted, lemma_settle_effect, lemma_remove_effect};
use crate::entity::OctreeEntity;
use crate::lemmas::{
    lemma_discard_ascending, lemma_settle_wf, lemma_parts, lemma_relocate_wf, lemma_remove_wf,
    lemma_store_ascending, lemma_contains_has_id, lemma_held_boxes,
};
use crate::tree::{
    ascending, clean_part, has_id, hit_of, nearer, nearest_local, overlapping, store,
    straddling_part, Hit, Tree, LOCAL_THRESHOLD,
};
use crate::vec3::{lemma_code_of_signs, Vec3};
use vstd::prelude::*;

verus! {

/// A hit on a box is never at or behind the origin of the ray: its distance is
/// greater than zero.
pub proof fn lemma_hit_is_positive(b: BoundingBox, origin: Vec3, dir: Vec3)
    ensures
        b.spec_intersects_ray(origin, dir) matches Some(t) ==> t.spec_positive(),
{
}

/// The nearest hit among some records is the hit of the ray on one of them.
pub proof fn lemma_nearest_local_is_hit(local: Seq<OctreeEntity>, origin: Vec3, dir: Vec3)
    ensures
        nearest_local(local, origin, dir) matches Some(hit) ==> exists|i: int|
            0 <= i < local.len() && hit_of(#[trigger] local[i], origin, dir) == Some(hit),
    decreases local.len(),
{
    if local.len() > 0 {
        let front = local.drop_last();
        lemma_nearest_local_is_hit(front, origin, dir);
        match nearest_local(local, origin, dir) {
            Some(hit) => {
                if hit_of(local.last(), origin, dir) == Some(hit) {
                    assert(hit_of(local[local.len() - 1], origin, dir) == Some(hit));
                } else {
                    let i = choose|i: int|
                        0 <= i < front.len() && hit_of(#[trigger] front[i], origin, dir) == Some(
                            hit,
                        );
                    assert(hit_of(local[i], origin, dir) == Some(hit));
                }
            },
            None => {},
        }
    }
}

/// What a ray cast into a well-formed tree returns is the hit of that ray on
/// a record of the tree: the box is the record's box, the distance is the one
/// that the box itself reports for the same ray, and it is greater than zero.
pub proof fn lemma_raycast_is_hit(t: Tree, origin: Vec3, dir: Vec3)
    requires
        t.wf(),
    ensures
        t.raycast(origin, dir) matches Some(hit) ==> {
            &&& hit.1.spec_positive()
            &&& hit.0.spec_intersects_ray(origin, dir) == Some(hit.1)
            &&& exists|e: OctreeEntity| #[trigger] t.holds(e) && e.bound == hit.0
        },
    decreases t, 9nat,
{
    if t.region.spec_intersects_ray(origin, dir).is_some() {
        lemma_raycast_upto_is_hit(t, origin, dir, 8);
    }
}

/// The same, of the hits among a node's records and its first `k` octants.
proof fn lemma_raycast_upto_is_hit(t: Tree, origin: Vec3, dir: Vec3, k: nat)
    requires
        t.wf(),
        k <= 8,
    ensures
        t.raycast_upto(origin, dir, k) matches Some(hit) ==> {
            &&& hit.1.spec_positive()
            &&& hit.0.spec_intersects_ray(origin, dir) == Some(hit.1)
            &&& exists|e: OctreeEntity| #[trigger] t.holds(e) && e.bound == hit.0
        },
    decreases t, k,
{
    if k == 0 {
        lemma_nearest_local_is_hit(t.local, origin, dir);
        match nearest_local(t.local, origin, dir) {
            Some(hit) => {
                let i = choose|i: int|
                    0 <= i < t.local.len() && hit_of(#[trigger] t.local[i], origin, dir) == Some(
                        hit,
                    );
                lemma_hit_is_positive(t.local[i].bound, origin, dir);
                assert(t.local.contains(t.local[i]));
                assert(t.holds(t.local[i]) && t.local[i].bound == hit.0);
            },
            None => {},
        }
    } else {
        lemma_raycast_upto_is_hit(t, origin, dir, (k - 1) as nat);
        let best = t.raycast_upto(origin, dir, (k - 1) as nat);
        match t.leaves[k - 1] {
            Some(leaf) => {
                lemma_raycast_is_hit(leaf, origin, dir);
                match leaf.raycast(origin, dir) {
                    Some(hit) => {
                        let e = choose|e: OctreeEntity| #[trigger] leaf.holds(e) && e.bound == hit.0;
                        assert(t.holds_at(k - 1, e));
                        assert(t.holds(e) && e.bound == hit.0);
                    },
                    None => {},
                }
            },
            None => {},
        }
    }
}

/// The identifiers that `overlapping` reports are those of the records whose
/// boxes intersect `bound`.
pub proof fn lemma_overlapping(local: Seq<OctreeEntity>, bound: BoundingBox)
    ensures
        forall|id: u64| #[trigger]
            overlapping(local, bound).contains(id) <==> exists|i: int|
                0 <= i < local.len() && (#[trigger] local[i]).entity == id
                    && local[i].bound.spec_intersects(bound),
    decreases local.len(),
{
    if local.len() > 0 {
        let front = local.drop_last();
        let last = local.last();
        lemma_overlapping(front, bound);
        let out = overlapping(local, bound);
        let before = overlapping(front, bound);
        assert forall|id: u64| #[trigger] out.contains(id) <==> exists|i: int|
            0 <= i < local.len() && (#[trigger] local[i]).entity == id
                && local[i].bound.spec_intersects(bound) by {
            if out.contains(id) {
                let k = choose|k: int| 0 <= k < out.len() && out[k] == id;
                if k < before.len() {
                    assert(before[k] == id);
                    assert(before.contains(id));
                    let i = choose|i: int|
                        0 <= i < front.len() && (#[trigger] front[i]).entity == id
                            && front[i].bound.spec_intersects(bound);
                    assert(local[i].entity == id && local[i].bound.spec_intersects(bound));
                } else {
                    assert(local[local.len() - 1].entity == id);
                }
            }
            if exists|i: int|
                0 <= i < local.len() && (#[trigger] local[i]).entity == id
                    && local[i].bound.spec_intersects(bound) {
                let i = choose|i: int|
                    0 <= i < local.len() && (#[trigger] local[i]).entity == id
                        && local[i].bound.spec_intersects(bound);
                if i < front.len() {
                    assert(front[i].entity == id && front[i].bound.spec_intersects(bound));
                    assert(before.contains(id));
                    let k = choose|k: int| 0 <= k < before.len() && before[k] == id;
                    assert(out[k] == id);
                } else {
                    assert(out[out.len() - 1] == id);
                }
            }
        }
    } else {
        assert forall|id: u64| !(#[trigger] overlapping(local, bound).contains(id)) by {}
    }
}

/// A query reports every record that is kept along the path of its box and
/// whose box intersects it.
pub proof fn lemma_query_reports(t: Tree, bound: BoundingBox, e: OctreeEntity)
    requires
        t.wf(),
        t.on_path(bound, e),
        e.bound.spec_intersects(bound),
    ensures
        t.query(bound).contains(e.entity),
    decreases t,
{
    let here = overlapping(t.local, bound);
    lemma_overlapping(t.local, bound);
    if t.local.contains(e) {
        let i = choose|i: int| 0 <= i < t.local.len() && t.local[i] == e;
        assert(t.local[i].entity == e.entity && t.local[i].bound.spec_intersects(bound));
        assert(here.contains(e.entity));
        let k = choose|k: int| 0 <= k < here.len() && here[k] == e.entity;
        assert(t.query(bound)[k] == e.entity);
    } else {
        let signs = bound.spec_octants_about(t.region.spec_center()).unwrap();
        lemma_code_of_signs(signs);
        let leaf = t.leaves[signs.code()].unwrap();
        lemma_query_reports(leaf, bound, e);
        let below = leaf.query(bound);
        let k = choose|k: int| 0 <= k < below.len() && below[k] == e.entity;
        assert(t.query(bound)[here.len() + k] == e.entity);
    }
}

/// A query reports nothing else: every identifier it reports belongs to a
/// record that is kept along the path of its box and whose box intersects it.
pub proof fn lemma_query_reports_only(t: Tree, bound: BoundingBox, id: u64)
    requires
        t.wf(),
        t.query(bound).contains(id),
    ensures
        exists|e: OctreeEntity|
            #[trigger] t.on_path(bound, e) && e.entity == id && e.bound.spec_intersects(bound),
    decreases t,
{
    let here = overlapping(t.local, bound);
    lemma_overlapping(t.local, bound);
    let all = t.query(bound);
    let k = choose|k: int| 0 <= k < all.len() && all[k] == id;
    if k < here.len() {
        assert(here[k] == id);
        assert(here.contains(id));
        let i = choose|i: int|
            0 <= i < t.local.len() && (#[trigger] t.local[i]).entity == id
                && t.local[i].bound.spec_intersects(bound);
        assert(t.local.contains(t.local[i]));
        assert(t.on_path(bound, t.local[i]));
    } else {
        let signs = bound.spec_octants_about(t.region.spec_center()).unwrap();
        lemma_code_of_signs(signs);
        let leaf = t.leaves[signs.code()].unwrap();
        let below = leaf.query(bound);
        assert(below[k - here.len()] == id);
        assert(below.contains(id));
        lemma_query_reports_only(leaf, bound, id);
        let e = choose|e: OctreeEntity|
            #[trigger] leaf.on_path(bound, e) && e.entity == id && e.bound.spec_intersects(bound);
        assert(t.on_path(bound, e));
    }
}

/// A record that is kept along a path is kept in the tree.
pub proof fn lemma_on_path_holds(t: Tree, bound: BoundingBox, e: OctreeEntity)
    requires
        t.wf(),
        t.on_path(bound, e),
    ensures
        t.holds(e),
    decreases t,
{
    if !t.local.contains(e) {
        let signs = bound.spec_octants_about(t.region.spec_center()).unwrap();
        lemma_code_of_signs(signs);
        let leaf = t.leaves[signs.code()].unwrap();
        lemma_on_path_holds(leaf, bound, e);
        assert(t.holds_at(signs.code(), e));
    }
}

/// A well-formed tree that is not empty keeps at least one record: no node
/// without records hangs anywhere in it.
pub proof fn lemma_not_empty_holds(t: Tree)
    requires
        t.wf(),
        !t.is_empty(),
    ensures
        exists|e: OctreeEntity| #[trigger] t.holds(e),
    decreases t,
{
    if t.local.len() > 0 {
        assert(t.local.contains(t.local[0]));
        assert(t.holds(t.local[0]));
    } else {
        let i = choose|i: int| 0 <= i < t.leaves.len() && (#[trigger] t.leaves[i]).is_some();
        let leaf = t.leaves[i].unwrap();
        lemma_not_empty_holds(leaf);
        let e = choose|e: OctreeEntity| #[trigger] leaf.holds(e);
        assert(t.holds_at(i, e));
        assert(t.holds(e));
    }
}

/// An empty tree keeps no record.
pub proof fn lemma_empty_holds_nothing(t: Tree, e: OctreeEntity)
    requires
        t.leaves.len() == 8,
        t.is_empty(),
    ensures
        !t.holds(e),
        t.count(e.entity) == 0,
{
    assert(t.leaves[0].is_none());
    assert(t.leaves[1].is_none());
    assert(t.leaves[2].is_none());
    assert(t.leaves[3].is_none());
    assert(t.leaves[4].is_none());
    assert(t.leaves[5].is_none());
    assert(t.leaves[6].is_none());
    assert(t.leaves[7].is_none());
}

/// Every octant that a well-formed tree has keeps at least one record.
pub proof fn lemma_leaf_holds_record(t: Tree, i: int)
    requires
        t.wf(),
        0 <= i < 8,
        t.leaves[i].is_some(),
    ensures
        exists|e: OctreeEntity| #[trigger] t.leaves[i].unwrap().holds(e),
{
    lemma_not_empty_holds(t.leaves[i].unwrap());
}

/// Taking a record out leaves no octant without records behind: every octant
/// that the tree still has keeps at least one record, and so, the tree being
/// well formed, does every octant beneath it.
pub proof fn lemma_remove_prunes(t: Tree, e: OctreeEntity, i: int)
    requires
        t.wf(),
        0 <= i < 8,
    ensures
        t.remove(e).0.wf(),
        t.remove(e).0.leaves[i] matches Some(leaf) ==> exists|x: OctreeEntity| #[trigger]
            leaf.holds(x),
{
    lemma_remove_wf(t, e);
    if t.remove(e).0.leaves[i].is_some() {
        lemma_leaf_holds_record(t.remove(e).0, i);
    }
}

/// The empty tree keeps no identifier twice.
pub proof fn lemma_empty_has_unique_ids(region: BoundingBox)
    ensures
        Tree::empty(region).unique_ids(),
{
    assert forall|id: u64| #[trigger] Tree::empty(region).count(id) <= 1 by {
        lemma_empty_holds_nothing(Tree::empty(region), OctreeEntity { entity: id, bound: region });
    }
}

/// Handing over a record never leaves an identifier kept twice: a record
/// whose identifier the tree keeps already is refused and changes nothing;
/// any other is taken in, and its identifier is then kept once.
pub proof fn lemma_insert_keeps_ids_unique(t: Tree, e: OctreeEntity)
    requires
        t.wf(),
        t.unique_ids(),
        e.bound.wf(),
    ensures
        t.insert(e).0.wf(),
        t.insert(e).0.unique_ids(),
        t.insert(e).1 == (t.count(e.entity) == 0),
        !t.insert(e).1 ==> t.insert(e).0 == t,
        t.insert(e).1 ==> t.insert(e).0 == t.settle(e),
        t.insert(e).1 ==> t.insert(e).0.count(e.entity) == 1 && t.insert(e).0.holds(e),
        forall|id: u64| #[trigger]
            t.insert(e).0.count(id) == t.count(id) + if t.insert(e).1 && id == e.entity {
                1nat
            } else {
                0
            },
{
    if t.count(e.entity) == 0 {
        lemma_settle_wf(t, e);
        lemma_settle_effect(t, e);
        let out = t.insert(e).0;
        assert forall|id: u64| #[trigger] out.count(id) <= 1 by {
            assert(t.count(id) <= 1);
        }
    }
}

/// Handing over a record that lies in the region of the tree keeps every
/// record in the region of its node.
pub proof fn lemma_insert_encloses(t: Tree, e: OctreeEntity)
    requires
        t.wf(),
        t.encloses(),
        e.bound.wf(),
        e.bound.spec_within(t.region),
    ensures
        t.insert(e).0.encloses(),
{
    if t.count(e.entity) == 0 {
        crate::enclosure::lemma_settle_encloses(t, e);
    }
}

/// Taking a record out keeps every record in the region of its node.
pub proof fn lemma_remove_encloses(t: Tree, e: OctreeEntity)
    requires
        t.wf(),
        t.encloses(),
    ensures
        t.remove(e).0.encloses(),
{
    crate::enclosure::lemma_remove_encloses(t, e);
}

/// Where every record lies in the region of its node, what a ray cast returns
/// is the nearest of all that the ray strikes: there is a hit as soon as the
/// ray strikes any record of the tree, and no record is struck at a smaller
/// distance than the one returned.
pub proof fn lemma_raycast_finds_nearest(
    t: Tree,
    origin: Vec3,
    dir: Vec3,
    e: OctreeEntity,
    at: Ratio,
)
    requires
        t.wf(),
        t.encloses(),
        t.holds(e),
        e.bound.spec_intersects_ray(origin, dir) == Some(at),
    ensures
        t.raycast(origin, dir) matches Some(hit) && hit.1.spec_le(at),
{
    crate::enclosure::lemma_held_in_sight(t, origin, dir, e);
    lemma_raycast_is_nearest(t, origin, dir, e, at);
}

/// Handing a record over and taking it out again at once leaves the tree
/// empty if and only if it was empty, whether or not the record is found
/// again.
pub proof fn lemma_insert_then_remove_keeps_emptiness(t: Tree, e: OctreeEntity)
    requires
        t.wf(),
        t.unique_ids(),
        e.bound.wf(),
        t.insert(e).1,
    ensures
        t.insert(e).0.remove(e).0.is_empty() <==> t.is_empty(),
{
    let mid = t.insert(e).0;
    lemma_settle_wf(t, e);
    if t.is_empty() {
        lemma_first_record_is_found(t, e);
    } else if mid.remove(e).1 {
        lemma_insert_then_remove(t, e);
    } else {
        lemma_remove_wf(mid, e);
    }
}

/// Where no identifier is kept twice, taking a record out leaves a tree in
/// which no identifier is kept twice; the identifier of a record that was found
/// is not kept any more.
pub proof fn lemma_remove_keeps_ids_unique(t: Tree, e: OctreeEntity)
    requires
        t.wf(),
        t.unique_ids(),
    ensures
        t.remove(e).0.unique_ids(),
        t.remove(e).1 ==> t.remove(e).0.count(e.entity) == 0,
        !t.remove(e).1 ==> t.remove(e).0 == t,
{
    lemma_remove_effect(t, e);
    lemma_remove_wf(t, e);
    let out = t.remove(e).0;
    assert forall|id: u64| #[trigger] out.count(id) <= 1 by {
        assert(t.count(id) <= 1);
    }
    assert(t.count(e.entity) <= 1);
}

/// What taking a record out changes, where no identifier is kept twice: the
/// record of that identifier is gone if it was found, and every other record
/// is kept as it was.
pub proof fn lemma_remove_takes_one(t: Tree, e: OctreeEntity)
    requires
        t.wf(),
        t.unique_ids(),
    ensures
        forall|id: u64| #[trigger]
            t.remove(e).0.count(id) == t.count(id) - if t.remove(e).1 && id == e.entity {
                1int
            } else {
                0
            },
        forall|x: OctreeEntity| #[trigger]
            t.remove(e).0.holds(x) <==> (t.holds(x) && !(t.remove(e).1 && x.entity == e.entity)),
{
    lemma_remove_effect(t, e);
    let out = t.remove(e).0;
    assert forall|x: OctreeEntity| #[trigger]
        out.holds(x) <==> (t.holds(x) && !(t.remove(e).1 && x.entity == e.entity)) by {
        if out.holds(x) {
            lemma_holds_is_counted(out, x);
            assert(t.count(x.entity) <= 1);
        }
        if t.holds(x) && !t.remove(e).1 {
            lemma_remove_wf(t, e);
        }
    }
}

/// Handing a record over and taking it out again at once, where the tree keeps
/// no identifier twice and did not keep the record's identifier, and where the
/// record is found again: the tree then keeps the records it kept before, each
/// identifier as often as before, and is empty if and only if it was.
pub proof fn lemma_insert_then_remove(t: Tree, e: OctreeEntity)
    requires
        t.wf(),
        e.bound.wf(),
        t.unique_ids(),
        t.count(e.entity) == 0,
        t.insert(e).0.remove(e).1,
    ensures
        t.insert(e).0.remove(e).0.wf(),
        forall|x: OctreeEntity| #[trigger] t.insert(e).0.remove(e).0.holds(x) <==> t.holds(x),
        forall|id: u64| #[trigger] t.insert(e).0.remove(e).0.count(id) == t.count(id),
        t.insert(e).0.remove(e).0.is_empty() <==> t.is_empty(),
{
    let mid = t.insert(e).0;
    let out = mid.remove(e).0;
    lemma_settle_wf(t, e);
    lemma_settle_effect(t, e);
    lemma_remove_wf(mid, e);
    lemma_remove_effect(mid, e);
    assert forall|id: u64| #[trigger] out.count(id) == t.count(id) by {
        assert(mid.count(id) == t.count(id) + if id == e.entity { 1nat } else { 0 });
    }
    assert forall|x: OctreeEntity| #[trigger] out.holds(x) <==> t.holds(x) by {
        assert(mid.holds(x) <==> (t.holds(x) || x == e));
        if out.holds(x) {
            lemma_holds_is_counted(out, x);
            assert(out.count(x.entity) == t.count(x.entity));
            assert(mid.holds(x));
        }
        if t.holds(x) {
            lemma_holds_is_counted(t, x);
        }
    }
    if t.is_empty() && !out.is_empty() {
        lemma_not_empty_holds(out);
        let x = choose|x: OctreeEntity| #[trigger] out.holds(x);
        lemma_empty_holds_nothing(t, x);
    }
    if out.is_empty() && !t.is_empty() {
        lemma_not_empty_holds(t);
        let x = choose|x: OctreeEntity| #[trigger] t.holds(x);
        lemma_empty_holds_nothing(out, x);
        assert(out.holds(x));
    }
}

/// A record whose box reaches or crosses the center of the root, and whose
/// identifier the tree does not keep, is found again when it is taken out
/// right after it was handed over.
pub proof fn lemma_straddler_is_found(t: Tree, e: OctreeEntity)
    requires
        t.wf(),
        e.bound.wf(),
        t.count(e.entity) == 0,
        e.bound.spec_octants_about(t.region.spec_center()).is_none(),
    ensures
        t.insert(e).0.remove(e).1,
{
    let mid = t.insert(e).0;
    lemma_settle_wf(t, e);
    lemma_store_ascending(t.local, e);
    let stored = store(t.local, e).0;
    assert(stored.contains(e));
    if t.local.len() < LOCAL_THRESHOLD || !t.region.splittable() {
        lemma_contains_has_id(mid.local, e);
    } else {
        let center = t.region.spec_center();
        let kept = straddling_part(stored, center);
        let moving = clean_part(stored, center);
        lemma_parts(stored, center);
        assert forall|x: OctreeEntity| kept.contains(x) || moving.contains(x) implies (
        t.local.contains(x) || x == e) by {
            assert(stored.contains(x));
        }
        lemma_held_boxes(t.local, e, kept);
        lemma_held_boxes(t.local, e, moving);
        let below = t.with_local(kept);
        assert(below.wf()) by {
            assert forall|n: int| 0 <= n < below.leaves.len() implies ((
            #[trigger] below.leaves[n]) matches Some(leaf) ==> {
                &&& below.region.splittable()
                &&& leaf.region == below.octant_region(n)
                &&& leaf.wf()
                &&& !leaf.is_empty()
            }) by {
                assert(below.leaves[n] == t.leaves[n]);
            }
        }
        lemma_relocate_wf(below, moving);
        assert(mid.local == kept);
        assert(kept.contains(e));
        lemma_contains_has_id(mid.local, e);
    }
    lemma_discard_ascending(mid.local, e.entity);
}

/// A record that is handed to an empty tree is found again when it is taken
/// out right after, and the tree is then empty again.
pub proof fn lemma_first_record_is_found(t: Tree, e: OctreeEntity)
    requires
        t.wf(),
        e.bound.wf(),
        t.is_empty(),
    ensures
        t.insert(e).0.remove(e).1,
        t.insert(e).0.remove(e).0.is_empty(),
{
    lemma_empty_holds_nothing(t, e);
    let mid = t.insert(e).0;
    lemma_settle_wf(t, e);
    lemma_store_ascending(t.local, e);
    assert(!has_id(t.local, e.entity));
    assert(mid.local =~= seq![e]);
    assert(mid.local.contains(e)) by {
        assert(mid.local[0] == e);
    }
    lemma_contains_has_id(mid.local, e);
    lemma_discard_ascending(mid.local, e.entity);
    match e.bound.spec_octants_about(mid.region.spec_center()) {
        Some(signs) => {
            lemma_code_of_signs(signs);
            assert(t.leaves[signs.code()].is_none());
        },
        None => {},
    }
    assert(mid.leaves == t.leaves);
}

/// Whether `hit` is a hit at a well-formed distance that is at most `limit`.
pub open spec fn within(hit: Option<Hit>, limit: Ratio) -> bool {
    hit matches Some(h) && h.1.wf() && h.1.spec_le(limit)
}

/// The nearer of two hits is within every limit that one of them is within.
proof fn lemma_nearer_within(best: Option<Hit>, candidate: Option<Hit>, limit: Ratio)
    requires
        limit.wf(),
        best matches Some(b) ==> b.1.wf(),
        candidate matches Some(c) ==> c.1.wf(),
        within(best, limit) || within(candidate, limit),
    ensures
        within(nearer(best, candidate), limit),
{
    match (best, candidate) {
        (Some(b), Some(c)) => {
            lemma_order_is_total(c.1, b.1);
            if c.1.spec_lt(b.1) {
                if !within(candidate, limit) {
                    lemma_order_is_transitive(c.1, b.1, limit);
                }
            } else {
                if !within(best, limit) {
                    lemma_order_is_transitive(b.1, c.1, limit);
                }
            }
        },
        _ => {},
    }
}

/// The nearest hit among some records is at most as far as the hit on any
/// one of them.
proof fn lemma_nearest_local_within(
    local: Seq<OctreeEntity>,
    origin: Vec3,
    dir: Vec3,
    i: int,
    limit: Ratio,
)
    requires
        0 <= i < local.len(),
        local[i].bound.spec_intersects_ray(origin, dir) == Some(limit),
    ensures
        within(nearest_local(local, origin, dir), limit),
    decreases local.len(),
{
    let front = local.drop_last();
    let best = nearest_local(front, origin, dir);
    let candidate = hit_of(local.last(), origin, dir);
    lemma_hit_is_well_formed(local[i].bound, origin, dir);
    lemma_hit_is_well_formed(local.last().bound, origin, dir);
    lemma_nearest_local_wf(front, origin, dir);
    if i < front.len() {
        assert(front[i] == local[i]);
        lemma_nearest_local_within(front, origin, dir, i, limit);
    } else {
        lemma_order_is_total(limit, limit);
    }
    lemma_nearer_within(best, candidate, limit);
}

/// The distance of the nearest hit among some records is a well-formed
/// fraction.
proof fn lemma_nearest_local_wf(local: Seq<OctreeEntity>, origin: Vec3, dir: Vec3)
    ensures
        nearest_local(local, origin, dir) matches Some(h) ==> h.1.wf(),
{
    lemma_nearest_local_is_hit(local, origin, dir);
    match nearest_local(local, origin, dir) {
        Some(h) => {
            let i = choose|i: int|
                0 <= i < local.len() && hit_of(#[trigger] local[i], origin, dir) == Some(h);
            lemma_hit_is_well_formed(local[i].bound, origin, dir);
        },
        None => {},
    }
}

/// The distance that a ray cast returns is a well-formed fraction.
proof fn lemma_raycast_wf(t: Tree, origin: Vec3, dir: Vec3, k: nat)
    requires
        t.wf(),
        k <= 8,
    ensures
        t.raycast(origin, dir) matches Some(h) ==> h.1.wf(),
        t.raycast_upto(origin, dir, k) matches Some(h) ==> h.1.wf(),
{
    lemma_raycast_is_hit(t, origin, dir);
    lemma_raycast_upto_is_hit(t, origin, dir, k);
    match t.raycast(origin, dir) {
        Some(h) => {
            lemma_hit_is_well_formed(h.0, origin, dir);
        },
        None => {},
    }
    match t.raycast_upto(origin, dir, k) {
        Some(h) => {
            lemma_hit_is_well_formed(h.0, origin, dir);
        },
        None => {},
    }
}

/// What a ray cast returns is the nearest of what the ray can see: there is a
/// hit as soon as the ray strikes a record in its sight, and no such record
/// is struck at a smaller distance than the one returned.
pub proof fn lemma_raycast_is_nearest(t: Tree, origin: Vec3, dir: Vec3, e: OctreeEntity, at: Ratio)
    requires
        t.wf(),
        t.in_sight(origin, dir, e),
        e.bound.spec_intersects_ray(origin, dir) == Some(at),
    ensures
        t.raycast(origin, dir) matches Some(hit) && hit.1.spec_le(at),
    decreases t, 9nat,
{
    lemma_hit_is_well_formed(e.bound, origin, dir);
    if t.local.contains(e) {
        let i = choose|i: int| 0 <= i < t.local.len() && t.local[i] == e;
        lemma_nearest_local_within(t.local, origin, dir, i, at);
        lemma_upto_stays_within(t, origin, dir, 0, 8, at);
    } else {
        let i: nat = if t.in_sight_at(0, origin, dir, e) {
            0
        } else if t.in_sight_at(1, origin, dir, e) {
            1
        } else if t.in_sight_at(2, origin, dir, e) {
            2
        } else if t.in_sight_at(3, origin, dir, e) {
            3
        } else if t.in_sight_at(4, origin, dir, e) {
            4
        } else if t.in_sight_at(5, origin, dir, e) {
            5
        } else if t.in_sight_at(6, origin, dir, e) {
            6
        } else {
            7
        };
        assert(t.in_sight_at(i as int, origin, dir, e));
        let leaf = t.leaves[i as int].unwrap();
        lemma_raycast_is_nearest(leaf, origin, dir, e, at);
        lemma_raycast_wf(leaf, origin, dir, 0);
        lemma_raycast_wf(t, origin, dir, i);
        lemma_nearer_within(t.raycast_upto(origin, dir, i), leaf.raycast(origin, dir), at);
        assert(within(t.raycast_upto(origin, dir, i + 1), at));
        lemma_upto_stays_within(t, origin, dir, i + 1, 8, at);
    }
}

/// A hit that is within a limit after `from` octants is within it after more.
proof fn lemma_upto_stays_within(t: Tree, origin: Vec3, dir: Vec3, from: nat, to: nat, limit: Ratio)
    requires
        t.wf(),
        limit.wf(),
        from <= to <= 8,
        within(t.raycast_upto(origin, dir, from), limit),
    ensures
        within(t.raycast_upto(origin, dir, to), limit),
    decreases to,
{
    if from < to {
        let k = (to - 1) as nat;
        lemma_upto_stays_within(t, origin, dir, from, k, limit);
        lemma_raycast_wf(t, origin, dir, k);
        match t.leaves[k as int] {
            Some(leaf) => {
                lemma_raycast_wf(leaf, origin, dir, 0);
                lemma_nearer_within(t.raycast_upto(origin, dir, k), leaf.raycast(origin, dir), limit);
            },
            None => {},
        }
    }
}

/// Among the records of one node a query reports identifiers in ascending
/// order, each of them the identifier of a record of the node.
pub proof fn lemma_overlapping_ascends(local: Seq<OctreeEntity>, bound: BoundingBox)
    requires
        ascending(local),
    ensures
        forall|i: int, j: int|
            0 <= i < j < overlapping(local, bound).len() ==> overlapping(local, bound)[i]
                < overlapping(local, bound)[j],
        forall|i: int|
            0 <= i < overlapping(local, bound).len() ==> has_id(
                local,
                #[trigger] overlapping(local, bound)[i],
            ),
    decreases local.len(),
{
    if local.len() > 0 {
        let front = local.drop_last();
        let last = local.last();
        lemma_overlapping_ascends(front, bound);
        let out = overlapping(local, bound);
        let before = overlapping(front, bound);
        assert forall|i: int| 0 <= i < out.len() implies has_id(local, #[trigger] out[i]) by {
            if i < before.len() {
                assert(out[i] == before[i]);
                assert(has_id(front, before[i]));
                let k = choose|k: int| 0 <= k < front.len() && #[trigger] front[k].entity == before[i];
                assert(local[k].entity == out[i]);
            } else {
                assert(local[local.len() - 1].entity == out[i]);
            }
        }
        assert forall|i: int, j: int| 0 <= i < j < out.len() implies out[i] < out[j] by {
            assert(out[i] == before[i]);
            if j < before.len() {
                assert(out[j] == before[j]);
            } else {
                assert(has_id(front, before[i]));
                let k = choose|k: int| 0 <= k < front.len() && #[trigger] front[k].entity == before[i];
                assert(local[k].entity < local[local.len() - 1].entity);
            }
        }
    }
}

/// Every identifier that a query reports is kept in the tree.
pub proof fn lemma_query_reports_kept(t: Tree, bound: BoundingBox, id: u64)
    requires
        t.wf(),
        t.query(bound).contains(id),
    ensures
        t.count(id) >= 1,
{
    lemma_query_reports_only(t, bound, id);
    let e = choose|e: OctreeEntity|
        #[trigger] t.on_path(bound, e) && e.entity == id && e.bound.spec_intersects(bound);
    lemma_on_path_holds(t, bound, e);
    lemma_holds_is_counted(t, e);
}

/// Where no identifier is kept twice, a query reports no identifier twice.
pub proof fn lemma_query_reports_once(t: Tree, bound: BoundingBox)
    requires
        t.wf(),
        t.unique_ids(),
    ensures
        forall|i: int, j: int|
            0 <= i < j < t.query(bound).len() ==> t.query(bound)[i] != t.query(bound)[j],
    decreases t,
{
    let here = overlapping(t.local, bound);
    let all = t.query(bound);
    lemma_overlapping_ascends(t.local, bound);
    if all.len() > here.len() {
        let signs = bound.spec_octants_about(t.region.spec_center()).unwrap();
        let c = signs.code();
        lemma_code_of_signs(signs);
        let leaf = t.leaves[c].unwrap();
        let below = leaf.query(bound);
        assert(leaf.unique_ids()) by {
            assert forall|id: u64| #[trigger] leaf.count(id) <= 1 by {
                assert(t.count(id) <= 1);
                crate::effects::lemma_split_at(t, c, OctreeEntity { entity: id, bound });
            }
        }
        lemma_query_reports_once(leaf, bound);
        assert forall|i: int, j: int| 0 <= i < j < all.len() implies all[i] != all[j] by {
            if i < here.len() && j >= here.len() {
                let id = all[i];
                assert(all[i] == here[i]);
                assert(has_id(t.local, id));
                if all[j] == id {
                    assert(below[j - here.len()] == id);
                    assert(below.contains(id));
                    lemma_query_reports_kept(leaf, bound, id);
                    assert(t.count(id) <= 1);
                    crate::effects::lemma_local_and_octant(t, c, id);
                }
            } else if i >= here.len() {
                assert(all[i] == below[i - here.len()]);
                assert(all[j] == below[j - here.len()]);
            } else {
                assert(all[i] == here[i] && all[j] == here[j]);
            }
        }
    } else {
        assert(all =~= here);
    }
}

} // verus!
