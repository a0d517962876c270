use crate::entity::OctreeEntity;
use crate::tree::{
    ascending, clean_part, discard, has_id, rank, store, straddling_part, Tree, LOCAL_THRESHOLD,
};
use crate::vec3::{lemma_code_of_signs, Vec3};
use vstd::prelude::*;

verus! {

/// In an ascending sequence the rank of `id` parts the records below `id` from
/// those at or above it.
pub proof fn lemma_rank_parts(local: Seq<OctreeEntity>, id: u64)
    requires
        ascending(local),
    ensures
        0 <= rank(local, id) <= local.len(),
        forall|j: int| 0 <= j < rank(local, id) ==> (#[trigger] local[j]).entity < id,
        forall|j: int| rank(local, id) <= j < local.len() ==> (#[trigger] local[j]).entity >= id,
    decreases local.len(),
{
    if local.len() > 0 {
        let front = local.drop_last();
        lemma_rank_parts(front, id);
        assert forall|j: int| 0 <= j < rank(local, id) implies (#[trigger] local[j]).entity
            < id by {
            if j < front.len() {
                assert(local[j] == front[j]);
                if j >= rank(front, id) {
                    assert(front[j].entity >= id);
                    assert(local.last().entity < id);
                }
            }
        }
        assert forall|j: int| rank(local, id) <= j < local.len() implies (#[trigger] local[j]).entity
            >= id by {
            if j < front.len() {
                assert(local[j] == front[j]);
            }
        }
    }
}

/// The place where a scan of an ascending sequence stops, at the first record
/// that is not below `id`, is the rank of `id`.
pub proof fn lemma_rank_is_place(local: Seq<OctreeEntity>, id: u64, i: int)
    requires
        ascending(local),
        0 <= i <= local.len(),
        forall|j: int| 0 <= j < i ==> (#[trigger] local[j]).entity < id,
        i < local.len() ==> local[i].entity >= id,
    ensures
        rank(local, id) == i,
        has_id(local, id) <==> (i < local.len() && local[i].entity == id),
{
    lemma_rank_parts(local, id);
    let r = rank(local, id);
    if r < i {
        assert(local[r].entity < id);
    }
    if r > i {
        assert(local[i].entity < id);
    }
    if has_id(local, id) {
        let j = choose|j: int| 0 <= j < local.len() && #[trigger] local[j].entity == id;
        if j < i {
            assert(local[j].entity < id);
        }
        if j > i {
            assert(local[i].entity < local[j].entity);
        }
    }
}

/// Storing a record keeps the sequence ascending, and its boxes well formed.
pub proof fn lemma_store_ascending(local: Seq<OctreeEntity>, e: OctreeEntity)
    requires
        ascending(local),
    ensures
        ascending(store(local, e).0),
        forall|x: OctreeEntity| #[trigger]
            store(local, e).0.contains(x) <==> (local.contains(x) || (x == e && store(local, e).1)),
        store(local, e).1 == !has_id(local, e.entity),
        store(local, e).0.len() == local.len() + if has_id(local, e.entity) { 0int } else { 1 },
{
    lemma_rank_parts(local, e.entity);
    let out = store(local, e).0;
    let r = rank(local, e.entity);
    if !has_id(local, e.entity) {
        assert forall|i: int, j: int| 0 <= i < j < out.len() implies out[i].entity
            < out[j].entity by {
            if i < r {
                assert(out[i] == local[i]);
            } else if i > r {
                assert(out[i] == local[i - 1]);
            }
            if j < r {
                assert(out[j] == local[j]);
            } else if j > r {
                assert(out[j] == local[j - 1]);
                assert(local[j - 1].entity >= e.entity);
                assert(local[j - 1].entity != e.entity);
            }
        }
        assert forall|x: OctreeEntity| out.contains(x) <==> (local.contains(x) || x == e) by {
            if out.contains(x) {
                let k = choose|k: int| 0 <= k < out.len() && out[k] == x;
                if k < r {
                    assert(local[k] == x);
                } else if k > r {
                    assert(local[k - 1] == x);
                }
            }
            if local.contains(x) {
                let k = choose|k: int| 0 <= k < local.len() && local[k] == x;
                if k < r {
                    assert(out[k] == x);
                } else {
                    assert(out[k + 1] == x);
                }
            }
            if x == e {
                assert(out[r] == x);
            }
        }
    }
}

/// Discarding a record keeps the sequence ascending; it takes out the one
/// record of that identifier and no other.
pub proof fn lemma_discard_ascending(local: Seq<OctreeEntity>, id: u64)
    requires
        ascending(local),
    ensures
        ascending(discard(local, id).0),
        !has_id(discard(local, id).0, id),
        forall|x: OctreeEntity|
            discard(local, id).0.contains(x) <==> (local.contains(x) && x.entity != id),
        discard(local, id).1 == has_id(local, id),
        discard(local, id).0.len() == local.len() - if has_id(local, id) { 1int } else { 0 },
{
    lemma_rank_parts(local, id);
    let out = discard(local, id).0;
    let r = rank(local, id);
    if has_id(local, id) {
        let j = choose|j: int| 0 <= j < local.len() && #[trigger] local[j].entity == id;
        lemma_rank_is_place(local, id, r);
        assert(local[r].entity == id);
        assert forall|a: int, b: int| 0 <= a < b < out.len() implies out[a].entity
            < out[b].entity by {
            assert(out[a] == if a < r { local[a] } else { local[a + 1] });
            assert(out[b] == if b < r { local[b] } else { local[b + 1] });
        }
        assert forall|x: OctreeEntity| out.contains(x) <==> (local.contains(x) && x.entity
            != id) by {
            if out.contains(x) {
                let k = choose|k: int| 0 <= k < out.len() && out[k] == x;
                if k < r {
                    assert(local[k] == x);
                    assert(local[k].entity < local[r].entity);
                } else {
                    assert(local[k + 1] == x);
                    assert(local[r].entity < local[k + 1].entity);
                }
            }
            if local.contains(x) && x.entity != id {
                let k = choose|k: int| 0 <= k < local.len() && local[k] == x;
                if k < r {
                    assert(out[k] == x);
                } else {
                    assert(k > r);
                    assert(out[k - 1] == x);
                }
            }
        }
        if has_id(out, id) {
            let k = choose|k: int| 0 <= k < out.len() && #[trigger] out[k].entity == id;
            assert(out.contains(out[k]));
        }
    } else {
        assert forall|x: OctreeEntity| local.contains(x) implies x.entity != id by {
            let k = choose|k: int| 0 <= k < local.len() && local[k] == x;
            assert(local[k].entity != id);
        }
    }
}

/// The two parts into which a center sorts an ascending sequence: each is
/// ascending, each holds exactly the records of its kind, and together they
/// hold as many records as the sequence.
pub proof fn lemma_parts(local: Seq<OctreeEntity>, center: Vec3)
    requires
        ascending(local),
    ensures
        ascending(straddling_part(local, center)),
        ascending(clean_part(local, center)),
        forall|x: OctreeEntity| #[trigger]
            straddling_part(local, center).contains(x) <==> (local.contains(x)
                && x.bound.spec_octants_about(center).is_none()),
        forall|x: OctreeEntity| #[trigger]
            clean_part(local, center).contains(x) <==> (local.contains(x)
                && x.bound.spec_octants_about(center).is_some()),
        straddling_part(local, center).len() + clean_part(local, center).len() == local.len(),
    decreases local.len(),
{
    if local.len() > 0 {
        let front = local.drop_last();
        let last = local.last();
        lemma_parts(front, center);
        lemma_part_step(front, straddling_part(front, center), last);
        lemma_part_step(front, clean_part(front, center), last);
        assert(front.push(last) =~= local);
        lemma_push_contains(front, last);
        let straddling = straddling_part(local, center);
        let clean = clean_part(local, center);
        assert forall|x: OctreeEntity| straddling.contains(x) <==> (local.contains(x)
            && x.bound.spec_octants_about(center).is_none()) by {
            assert(local.contains(x) <==> (front.contains(x) || x == last));
            assert(straddling_part(front, center).contains(x) <==> (front.contains(x)
                && x.bound.spec_octants_about(center).is_none()));
        }
        assert forall|x: OctreeEntity| clean.contains(x) <==> (local.contains(x)
            && x.bound.spec_octants_about(center).is_some()) by {
            assert(local.contains(x) <==> (front.contains(x) || x == last));
            assert(clean_part(front, center).contains(x) <==> (front.contains(x)
                && x.bound.spec_octants_about(center).is_some()));
        }
    }
}

/// A sequence with one more record at its end holds that record and what it
/// held before.
pub proof fn lemma_push_contains(front: Seq<OctreeEntity>, last: OctreeEntity)
    ensures
        forall|x: OctreeEntity| #[trigger]
            front.push(last).contains(x) <==> (front.contains(x) || x == last),
{
    let out = front.push(last);
    assert forall|x: OctreeEntity| #[trigger] out.contains(x) <==> (front.contains(x) || x
        == last) by {
        if out.contains(x) {
            let k = choose|k: int| 0 <= k < out.len() && out[k] == x;
            if k < front.len() {
                assert(front[k] == x);
            }
        }
        if front.contains(x) {
            let k = choose|k: int| 0 <= k < front.len() && front[k] == x;
            assert(out[k] == x);
        }
        if x == last {
            assert(out[front.len() as int] == x);
        }
    }
}

/// Pushing the record that follows `front` onto an ascending choice of
/// records of `front` gives an ascending sequence, which holds that record
/// and what the choice held.
proof fn lemma_part_step(front: Seq<OctreeEntity>, part: Seq<OctreeEntity>, last: OctreeEntity)
    requires
        ascending(front.push(last)),
        ascending(part),
        forall|x: OctreeEntity| part.contains(x) ==> front.contains(x),
    ensures
        ascending(part.push(last)),
        forall|x: OctreeEntity| #[trigger]
            part.push(last).contains(x) <==> (part.contains(x) || x == last),
{
    let whole = front.push(last);
    let out = part.push(last);
    assert forall|i: int, j: int| 0 <= i < j < out.len() implies out[i].entity
        < out[j].entity by {
        if j == part.len() {
            assert(part.contains(part[i]));
            let k = choose|k: int| 0 <= k < front.len() && front[k] == part[i];
            assert(whole[k] == part[i]);
            assert(whole[front.len() as int] == last);
        }
    }
    lemma_push_contains(part, last);
}

/// The empty node over a well-formed region is well formed.
pub proof fn lemma_empty_wf(region: crate::bounding_box::BoundingBox)
    requires
        region.wf(),
    ensures
        Tree::empty(region).wf(),
        Tree::empty(region).is_empty(),
{
}

/// Settling a record in a well-formed tree leaves a well-formed tree over the
/// same region, which is not empty and has every octant that it had.
pub proof fn lemma_settle_wf(t: Tree, e: OctreeEntity)
    requires
        t.wf(),
        e.bound.wf(),
    ensures
        t.settle(e).wf(),
        t.settle(e).region == t.region,
        !t.settle(e).is_empty(),
        forall|i: int| 0 <= i < 8 && t.leaves[i].is_some() ==> t.settle(e).leaves[i].is_some(),
    decreases t.region.span(), 1nat, 0nat,
{
    if t.local.len() < LOCAL_THRESHOLD || !t.region.splittable() {
        lemma_store_ascending(t.local, e);
        let local = store(t.local, e).0;
        lemma_held_boxes(t.local, e, local);
        assert(local.len() > 0);
    } else {
        let center = t.region.spec_center();
        if e.bound.spec_octants_about(center).is_some() {
            let kept = straddling_part(t.local, center);
            let moving = seq![e] + clean_part(t.local, center);
            lemma_parts(t.local, center);
            assert forall|x: OctreeEntity| moving.contains(x) implies (t.local.contains(x) || x
                == e) by {
                let k = choose|k: int| 0 <= k < moving.len() && moving[k] == x;
                if k > 0 {
                    assert(clean_part(t.local, center)[k - 1] == x);
                    assert(clean_part(t.local, center).contains(x));
                }
            }
            lemma_held_boxes(t.local, e, kept);
            lemma_held_boxes(t.local, e, moving);
            assert(moving[0] == e);
            lemma_relocate_wf(t.with_local(kept), moving);
        } else {
            let local = store(t.local, e).0;
            lemma_store_ascending(t.local, e);
            let kept = straddling_part(local, center);
            let moving = clean_part(local, center);
            lemma_parts(local, center);
            assert forall|x: OctreeEntity| kept.contains(x) || moving.contains(x) implies (
            t.local.contains(x) || x == e) by {
                assert(local.contains(x));
            }
            lemma_held_boxes(t.local, e, kept);
            lemma_held_boxes(t.local, e, moving);
            if moving.len() > 0 {
                assert(moving.contains(moving[0]));
            }
            lemma_relocate_wf(t.with_local(kept), moving);
        }
    }
}

/// A sequence whose records all come from `local` or are `e` holds
/// well-formed boxes when `local` and `e` do.
pub proof fn lemma_held_boxes(local: Seq<OctreeEntity>, e: OctreeEntity, part: Seq<OctreeEntity>)
    requires
        forall|i: int| 0 <= i < local.len() ==> (#[trigger] local[i]).bound.wf(),
        e.bound.wf(),
        forall|x: OctreeEntity| #[trigger] part.contains(x) ==> (local.contains(x) || x == e),
    ensures
        forall|i: int| 0 <= i < part.len() ==> (#[trigger] part[i]).bound.wf(),
{
    assert forall|i: int| 0 <= i < part.len() implies (#[trigger] part[i]).bound.wf() by {
        assert(part.contains(part[i]));
        if part[i] != e {
            let k = choose|k: int| 0 <= k < local.len() && local[k] == part[i];
            assert(local[k].bound.wf());
        }
    }
}

/// Settling records in the octants, one after the other, leaves a well-formed tree over
/// the same region with the same records at its root; it has every octant that
/// it had, and is not empty if it was not, or if a record went down.
pub proof fn lemma_relocate_wf(t: Tree, moving: Seq<OctreeEntity>)
    requires
        t.wf(),
        t.region.splittable(),
        forall|k: int| 0 <= k < moving.len() ==> (#[trigger] moving[k]).bound.wf(),
    ensures
        t.relocate(moving).wf(),
        t.relocate(moving).region == t.region,
        t.relocate(moving).local == t.local,
        forall|i: int|
            0 <= i < 8 && t.leaves[i].is_some() ==> t.relocate(moving).leaves[i].is_some(),
        !t.is_empty() ==> !t.relocate(moving).is_empty(),
        moving.len() > 0 && moving[0].bound.spec_octants_about(t.region.spec_center()).is_some()
            ==> !t.relocate(moving).is_empty(),
    decreases t.region.span(), 0nat, moving.len(),
{
    if moving.len() > 0 {
        let e = moving[0];
        let rest = moving.drop_first();
        assert forall|k: int| 0 <= k < rest.len() implies (#[trigger] rest[k]).bound.wf() by {
            assert(rest[k] == moving[k + 1]);
        }
        match e.bound.spec_octants_about(t.region.spec_center()) {
            Some(signs) => {
                let i = signs.code();
                lemma_code_of_signs(signs);
                let next = lemma_relocate_step_wf(t, e);
                lemma_relocate_wf(next, rest);
                assert(next.leaves[i].is_some());
                let out = t.relocate(moving);
                assert(out.leaves[i].is_some());
            },
            None => {
                lemma_relocate_wf(t, rest);
            },
        }
    }
}

/// The tree after one record went down into its octant: well formed, over the
/// same region, with the same records at its root and every octant it had.
pub proof fn lemma_relocate_step_wf(t: Tree, e: OctreeEntity) -> (next: Tree)
    requires
        t.wf(),
        t.region.splittable(),
        e.bound.wf(),
        e.bound.spec_octants_about(t.region.spec_center()).is_some(),
    ensures
        next == t.with_leaf(
            e.bound.spec_octants_about(t.region.spec_center()).unwrap().code(),
            Some(
                t.octant(
                    e.bound.spec_octants_about(t.region.spec_center()).unwrap().code(),
                ).settle(e),
            ),
        ),
        forall|rest: Seq<OctreeEntity>|
            t.relocate(seq![e] + rest) == #[trigger] next.relocate(rest),
        next.wf(),
        next.region == t.region,
        next.local == t.local,
        forall|i: int| 0 <= i < 8 && t.leaves[i].is_some() ==> next.leaves[i].is_some(),
    decreases t.region.span(), 0nat, 0nat,
{
    let signs = e.bound.spec_octants_about(t.region.spec_center()).unwrap();
    let i = signs.code();
    lemma_code_of_signs(signs);
    let below = t.octant(i);
    assert(below.wf() && below.region == t.octant_region(i)) by {
        if t.leaves[i].is_none() {
            lemma_empty_wf(t.octant_region(i));
        }
    }
    assert(below.region.span() < t.region.span());
    lemma_settle_wf(below, e);
    let grown = below.settle(e);
    let next = t.with_leaf(i, Some(grown));
    assert forall|j: int| 0 <= j < next.leaves.len() implies ((#[trigger] next.leaves[j]) matches Some(
        leaf,
    ) ==> {
        &&& next.region.splittable()
        &&& leaf.region == next.octant_region(j)
        &&& leaf.wf()
        &&& !leaf.is_empty()
    }) by {
        if j != i {
            assert(next.leaves[j] == t.leaves[j]);
        }
    }
    assert forall|rest: Seq<OctreeEntity>|
        t.relocate(seq![e] + rest) == #[trigger] next.relocate(rest) by {
        let moving = seq![e] + rest;
        assert(moving[0] == e);
        assert(moving.drop_first() =~= rest);
    }
    next
}

/// Taking a record out of a well-formed tree leaves a well-formed tree over
/// the same region; a tree in which the record was not found is left as it
/// was.
pub proof fn lemma_remove_wf(t: Tree, e: OctreeEntity)
    requires
        t.wf(),
    ensures
        t.remove(e).0.wf(),
        t.remove(e).0.region == t.region,
        !t.remove(e).1 ==> t.remove(e).0 == t,
    decreases t,
{
    let out = t.remove(e).0;
    match e.bound.spec_octants_about(t.region.spec_center()) {
        Some(signs) => {
            let i = signs.code();
            lemma_code_of_signs(signs);
            match t.leaves[i] {
                Some(leaf) => {
                    lemma_remove_wf(leaf, e);
                    let (shrunk, found) = leaf.remove(e);
                    assert forall|j: int| 0 <= j < out.leaves.len() implies ((
                    #[trigger] out.leaves[j]) matches Some(below) ==> {
                        &&& out.region.splittable()
                        &&& below.region == out.octant_region(j)
                        &&& below.wf()
                        &&& !below.is_empty()
                    }) by {
                        if j != i {
                            assert(out.leaves[j] == t.leaves[j]);
                        }
                    }
                    if !found {
                        assert(out.leaves =~= t.leaves);
                    }
                },
                None => {
                    lemma_discard_ascending(t.local, e.entity);
                    lemma_discard_boxes(t.local, e.entity);
                },
            }
        },
        None => {
            lemma_discard_ascending(t.local, e.entity);
            lemma_discard_boxes(t.local, e.entity);
        },
    }
}

/// What is left after a record was discarded holds well-formed boxes if the
/// sequence did.
proof fn lemma_discard_boxes(local: Seq<OctreeEntity>, id: u64)
    requires
        ascending(local),
        forall|i: int| 0 <= i < local.len() ==> (#[trigger] local[i]).bound.wf(),
    ensures
        forall|i: int|
            0 <= i < discard(local, id).0.len() ==> (#[trigger] discard(local, id).0[i]).bound.wf(),
{
    lemma_rank_parts(local, id);
    let out = discard(local, id).0;
    let r = rank(local, id);
    assert forall|i: int| 0 <= i < out.len() implies (#[trigger] out[i]).bound.wf() by {
        if has_id(local, id) {
            assert(out[i] == if i < r { local[i] } else { local[i + 1] });
        }
    }
}

/// A sequence that holds a record has a record of its identifier.
pub proof fn lemma_contains_has_id(local: Seq<OctreeEntity>, x: OctreeEntity)
    requires
        local.contains(x),
    ensures
        has_id(local, x.entity),
{
    let k = choose|k: int| 0 <= k < local.len() && local[k] == x;
    assert(local[k].entity == x.entity);
}

/// A sequence that has a record of an identifier holds such a record.
pub proof fn lemma_has_id_witness(local: Seq<OctreeEntity>, id: u64) -> (x: OctreeEntity)
    requires
        has_id(local, id),
    ensures
        local.contains(x),
        x.entity == id,
{
    let k = choose|k: int| 0 <= k < local.len() && #[trigger] local[k].entity == id;
    assert(local.contains(local[k]));
    local[k]
}

/// An ascending sequence holds one record of an identifier at most.
pub proof fn lemma_ascending_same_id(local: Seq<OctreeEntity>, x: OctreeEntity, y: OctreeEntity)
    requires
        ascending(local),
        local.contains(x),
        local.contains(y),
        x.entity == y.entity,
    ensures
        x == y,
{
    let i = choose|i: int| 0 <= i < local.len() && local[i] == x;
    let j = choose|j: int| 0 <= j < local.len() && local[j] == y;
    if i < j {
        assert(local[i].entity < local[j].entity);
    }
    if j < i {
        assert(local[j].entity < local[i].entity);
    }
}

/// Each identifier of an ascending sequence is in exactly one of the two parts
/// into which a center sorts it.
pub proof fn lemma_parts_ids(local: Seq<OctreeEntity>, center: Vec3)
    requires
        ascending(local),
    ensures
        forall|id: u64|
            has_id(local, id) <==> (#[trigger] has_id(straddling_part(local, center), id)
                || has_id(clean_part(local, center), id)),
        forall|id: u64|
            !(#[trigger] has_id(straddling_part(local, center), id) && has_id(
                clean_part(local, center),
                id,
            )),
        forall|id: u64|
            has_id(local, id) <==> (has_id(straddling_part(local, center), id) || #[trigger] has_id(
                clean_part(local, center),
                id,
            )),
{
    lemma_parts(local, center);
    let kept = straddling_part(local, center);
    let clean = clean_part(local, center);
    assert forall|id: u64|
        (has_id(local, id) <==> (has_id(kept, id) || has_id(clean, id))) && !(has_id(kept, id)
            && has_id(clean, id)) by {
        if has_id(local, id) {
            let x = lemma_has_id_witness(local, id);
            if x.bound.spec_octants_about(center).is_none() {
                assert(kept.contains(x));
                lemma_contains_has_id(kept, x);
            } else {
                assert(clean.contains(x));
                lemma_contains_has_id(clean, x);
            }
        }
        if has_id(kept, id) {
            let x = lemma_has_id_witness(kept, id);
            assert(local.contains(x));
            lemma_contains_has_id(local, x);
            if has_id(clean, id) {
                let y = lemma_has_id_witness(clean, id);
                assert(local.contains(y));
                lemma_ascending_same_id(local, x, y);
            }
        }
        if has_id(clean, id) {
            let y = lemma_has_id_witness(clean, id);
            assert(local.contains(y));
            lemma_contains_has_id(local, y);
        }
    }
}

/// After a record was stored the sequence has its identifier besides those it
/// had.
pub proof fn lemma_store_ids(local: Seq<OctreeEntity>, e: OctreeEntity)
    requires
        ascending(local),
    ensures
        forall|id: u64| #[trigger]
            has_id(store(local, e).0, id) <==> (has_id(local, id) || id == e.entity),
{
    lemma_store_ascending(local, e);
    let out = store(local, e).0;
    assert forall|id: u64| #[trigger] has_id(out, id) <==> (has_id(local, id) || id == e.entity) by {
        if has_id(out, id) {
            let x = lemma_has_id_witness(out, id);
            if local.contains(x) {
                lemma_contains_has_id(local, x);
            }
        }
        if has_id(local, id) {
            let x = lemma_has_id_witness(local, id);
            assert(out.contains(x));
            lemma_contains_has_id(out, x);
        }
        if id == e.entity && !has_id(local, id) {
            assert(out.contains(e));
            lemma_contains_has_id(out, e);
        }
    }
}

/// After a record was discarded the sequence has the identifiers it had but
/// that one.
pub proof fn lemma_discard_ids(local: Seq<OctreeEntity>, id: u64)
    requires
        ascending(local),
    ensures
        forall|other: u64| #[trigger]
            has_id(discard(local, id).0, other) <==> (has_id(local, other) && other != id),
{
    lemma_discard_ascending(local, id);
    let out = discard(local, id).0;
    assert forall|other: u64| #[trigger]
        has_id(out, other) <==> (has_id(local, other) && other != id) by {
        if has_id(out, other) {
            let x = lemma_has_id_witness(out, other);
            assert(local.contains(x));
            lemma_contains_has_id(local, x);
        }
        if has_id(local, other) && other != id {
            let x = lemma_has_id_witness(local, other);
            assert(out.contains(x));
            lemma_contains_has_id(out, x);
        }
    }
}

} // verus!
