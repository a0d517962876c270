use crate::entity::OctreeEntity;
use crate::laws::lemma_empty_holds_nothing;
use crate::lemmas::{
    lemma_contains_has_id, lemma_discard_ascending, lemma_discard_ids, lemma_empty_wf,
    lemma_has_id_witness, lemma_held_boxes, lemma_parts, lemma_parts_ids,
    lemma_relocate_step_wf, lemma_remove_wf, lemma_store_ascending, lemma_store_ids,
};
use crate::tree::{
    clean_part, discard, distinct_ids, has_id, store, straddling_part, Tree, LOCAL_THRESHOLD,
};
use crate::vec3::lemma_code_of_signs;
use vstd::prelude::*;

verus! {

/// How many records of `id` the tree keeps outside the octant with code `i`.
pub closed spec fn count_besides(t: Tree, i: int, id: u64) -> nat {
    (if has_id(t.local, id) { 1nat } else { 0 }) + (if i == 0 { 0 } else { t.count_at(0, id) }) + (if i
        == 1 { 0 } else { t.count_at(1, id) }) + (if i == 2 { 0 } else { t.count_at(2, id) }) + (if i
        == 3 { 0 } else { t.count_at(3, id) }) + (if i == 4 { 0 } else { t.count_at(4, id) }) + (if i
        == 5 { 0 } else { t.count_at(5, id) }) + (if i == 6 { 0 } else { t.count_at(6, id) }) + (if i
        == 7 { 0 } else { t.count_at(7, id) })
}

/// Whether the tree keeps the record `x` outside the octant with code `i`.
pub closed spec fn holds_besides(t: Tree, i: int, x: OctreeEntity) -> bool {
    t.local.contains(x) || (i != 0 && t.holds_at(0, x)) || (i != 1 && t.holds_at(1, x)) || (i != 2
        && t.holds_at(2, x)) || (i != 3 && t.holds_at(3, x)) || (i != 4 && t.holds_at(4, x)) || (i
        != 5 && t.holds_at(5, x)) || (i != 6 && t.holds_at(6, x)) || (i != 7 && t.holds_at(7, x))
}

/// What a tree keeps is what it keeps in one octant and what it keeps outside
/// of it.
pub proof fn lemma_split_at(t: Tree, i: int, x: OctreeEntity)
    requires
        0 <= i < 8,
    ensures
        t.count(x.entity) == count_besides(t, i, x.entity) + t.count_at(i, x.entity),
        t.holds(x) <==> (holds_besides(t, i, x) || t.holds_at(i, x)),
{
}

/// Changing one octant changes nothing of what a tree keeps outside of it.
pub proof fn lemma_with_leaf_besides(t: Tree, i: int, leaf: Option<Tree>, x: OctreeEntity)
    requires
        0 <= i < 8,
        t.leaves.len() == 8,
    ensures
        count_besides(t.with_leaf(i, leaf), i, x.entity) == count_besides(t, i, x.entity),
        holds_besides(t.with_leaf(i, leaf), i, x) == holds_besides(t, i, x),
        t.with_leaf(i, leaf).count_at(i, x.entity) == match leaf {
            Some(l) => l.count(x.entity),
            None => 0,
        },
        t.with_leaf(i, leaf).holds_at(i, x) == match leaf {
            Some(l) => l.holds(x),
            None => false,
        },
{
    let out = t.with_leaf(i, leaf);
    assert(forall|j: int| 0 <= j < 8 && j != i ==> out.leaves[j] == t.leaves[j]);
    assert(out.leaves[i] == leaf);
    assert(forall|j: int|
        0 <= j < 8 && j != i ==> #[trigger] out.count_at(j, x.entity) == t.count_at(j, x.entity));
    assert(forall|j: int| 0 <= j < 8 && j != i ==> #[trigger] out.holds_at(j, x) == t.holds_at(j, x));
}

/// An identifier that is kept at the root and in an octant is kept twice.
pub proof fn lemma_local_and_octant(t: Tree, i: int, id: u64)
    requires
        0 <= i < 8,
        has_id(t.local, id),
        t.count_at(i, id) >= 1,
    ensures
        t.count(id) >= 2,
{
}

/// A record that a tree keeps is counted under its identifier.
pub proof fn lemma_holds_is_counted(t: Tree, x: OctreeEntity)
    requires
        t.holds(x),
    ensures
        t.count(x.entity) >= 1,
    decreases t,
{
    if t.local.contains(x) {
        lemma_contains_has_id(t.local, x);
    } else {
        let i = if t.holds_at(0, x) {
            0int
        } else if t.holds_at(1, x) {
            1
        } else if t.holds_at(2, x) {
            2
        } else if t.holds_at(3, x) {
            3
        } else if t.holds_at(4, x) {
            4
        } else if t.holds_at(5, x) {
            5
        } else if t.holds_at(6, x) {
            6
        } else {
            7
        };
        assert(t.holds_at(i, x));
        lemma_holds_is_counted(t.leaves[i].unwrap(), x);
        lemma_split_at(t, i, x);
    }
}

/// A sequence has the identifier of its first record and those of the rest,
/// and holds its first record and those of the rest.
pub proof fn lemma_first_and_rest(moving: Seq<OctreeEntity>, x: OctreeEntity)
    requires
        moving.len() > 0,
    ensures
        has_id(moving, x.entity) <==> (moving[0].entity == x.entity || has_id(
            moving.drop_first(),
            x.entity,
        )),
        moving.contains(x) <==> (x == moving[0] || moving.drop_first().contains(x)),
{
    let rest = moving.drop_first();
    let id = x.entity;
    if has_id(moving, id) {
        let k = choose|k: int| 0 <= k < moving.len() && #[trigger] moving[k].entity == id;
        if k > 0 {
            assert(rest[k - 1].entity == id);
        }
    }
    if has_id(rest, id) {
        let k = choose|k: int| 0 <= k < rest.len() && #[trigger] rest[k].entity == id;
        assert(moving[k + 1].entity == id);
    }
    if moving.contains(x) {
        let k = choose|k: int| 0 <= k < moving.len() && moving[k] == x;
        if k > 0 {
            assert(rest[k - 1] == x);
        }
    }
    if rest.contains(x) {
        let k = choose|k: int| 0 <= k < rest.len() && rest[k] == x;
        assert(moving[k + 1] == x);
    }
}

/// What a node is left with, and what it hands down, when the record `e`
/// arrives at a node that sorts its records by octant.
pub open spec fn sorted_out(t: Tree, e: OctreeEntity) -> (Tree, Seq<OctreeEntity>) {
    let center = t.region.spec_center();
    if e.bound.spec_octants_about(center).is_some() {
        (t.with_local(straddling_part(t.local, center)), seq![e] + clean_part(t.local, center))
    } else {
        let local = store(t.local, e).0;
        (t.with_local(straddling_part(local, center)), clean_part(local, center))
    }
}

/// Sorting the records of a node by octant, with a record `e` whose
/// identifier the tree does not keep, loses and doubles nothing: what stays and
/// what goes down are, together, `e` and what the tree kept.
pub proof fn lemma_sorted_out(t: Tree, e: OctreeEntity)
    requires
        t.wf(),
        e.bound.wf(),
        t.unique_ids(),
        t.count(e.entity) == 0,
    ensures
        sorted_out(t, e).0.wf(),
        sorted_out(t, e).0.region == t.region,
        sorted_out(t, e).0.unique_ids(),
        distinct_ids(sorted_out(t, e).1),
        forall|k: int|
            0 <= k < sorted_out(t, e).1.len() ==> {
                &&& (#[trigger] sorted_out(t, e).1[k]).bound.wf()
                &&& sorted_out(t, e).1[k].bound.spec_octants_about(t.region.spec_center()).is_some()
                &&& sorted_out(t, e).0.count(sorted_out(t, e).1[k].entity) == 0
            },
        forall|id: u64|
            #[trigger] sorted_out(t, e).0.count(id) + (if has_id(sorted_out(t, e).1, id) {
                1nat
            } else {
                0
            }) == t.count(id) + if id == e.entity { 1nat } else { 0 },
        forall|x: OctreeEntity|
            (#[trigger] sorted_out(t, e).0.holds(x) || sorted_out(t, e).1.contains(x)) <==> (
            t.holds(x) || x == e),
{
    let center = t.region.spec_center();
    let clean_e = e.bound.spec_octants_about(center).is_some();
    let stored = if clean_e { t.local } else { store(t.local, e).0 };
    let kept = straddling_part(stored, center);
    let clean = clean_part(stored, center);
    let moving = sorted_out(t, e).1;
    let below = sorted_out(t, e).0;
    assert(moving == if clean_e { seq![e] + clean } else { clean });
    assert(below == t.with_local(kept));
    lemma_store_ascending(t.local, e);
    lemma_store_ids(t.local, e);
    lemma_parts(stored, center);
    lemma_parts_ids(stored, center);
    assert(!has_id(t.local, e.entity));
    assert forall|x: OctreeEntity| #[trigger]
        moving.contains(x) <==> ((stored.contains(x) && x.bound.spec_octants_about(
            center,
        ).is_some()) || (clean_e && x == e)) by {
        assert(clean.contains(x) <==> (stored.contains(x) && x.bound.spec_octants_about(
            center,
        ).is_some()));
        if clean_e {
            lemma_first_and_rest(moving, x);
            assert(moving.drop_first() =~= clean);
            assert(moving[0] == e);
        }
    }
    assert forall|id: u64| #[trigger]
        has_id(moving, id) <==> (has_id(clean, id) || (clean_e && id == e.entity)) by {
        if clean_e {
            lemma_first_and_rest(moving, OctreeEntity { entity: id, bound: e.bound });
            assert(moving.drop_first() =~= clean);
            assert(moving[0] == e);
        }
    }
    assert forall|x: OctreeEntity| #[trigger] kept.contains(x) implies (t.local.contains(x) || x
        == e) by {
        assert(stored.contains(x));
    }
    assert forall|x: OctreeEntity| #[trigger] moving.contains(x) implies (t.local.contains(x)
        || x == e) by {
        assert(stored.contains(x) || x == e);
    }
    lemma_held_boxes(t.local, e, kept);
    lemma_held_boxes(t.local, e, moving);
    assert(below.wf()) by {
        assert forall|n: int| 0 <= n < below.leaves.len() implies ((
        #[trigger] below.leaves[n]) matches Some(leaf) ==> {
            &&& below.region.splittable()
            &&& leaf.region == below.octant_region(n)
            &&& leaf.wf()
            &&& !leaf.is_empty()
        }) by {
            assert(below.leaves[n] == t.leaves[n]);
        }
    }
    assert(distinct_ids(moving)) by {
        assert forall|i: int, j: int| 0 <= i < j < moving.len() implies moving[i].entity
            != moving[j].entity by {
            if clean_e {
                assert(moving[j] == clean[j - 1]);
                if i == 0 {
                    assert(clean.contains(clean[j - 1]));
                    lemma_contains_has_id(t.local, clean[j - 1]);
                } else {
                    assert(moving[i] == clean[i - 1]);
                }
            }
        }
    }
    assert forall|id: u64|
        #[trigger] below.count(id) + (if has_id(moving, id) { 1nat } else { 0 }) == t.count(id)
            + if id == e.entity { 1nat } else { 0 } by {
        assert(has_id(moving, id) <==> (has_id(clean, id) || (clean_e && id == e.entity)));
        assert(has_id(stored, id) <==> (has_id(kept, id) || has_id(clean, id)));
        assert(!(has_id(kept, id) && has_id(clean, id)));
        assert(has_id(stored, id) <==> (has_id(t.local, id) || (!clean_e && id == e.entity)));
        if has_id(clean, id) && clean_e && id == e.entity {
            assert(has_id(stored, id));
        }
    }
    assert(below.unique_ids()) by {
        assert forall|id: u64| #[trigger] below.count(id) <= 1 by {
            assert(t.count(id) <= 1);
            assert(below.count(id) + (if has_id(moving, id) { 1nat } else { 0 }) == t.count(id)
                + if id == e.entity { 1nat } else { 0 });
        }
    }
    assert forall|k: int| 0 <= k < moving.len() implies {
        &&& (#[trigger] moving[k]).bound.wf()
        &&& moving[k].bound.spec_octants_about(t.region.spec_center()).is_some()
        &&& below.count(moving[k].entity) == 0
    } by {
        let id = moving[k].entity;
        assert(moving.contains(moving[k]));
        assert(has_id(moving, id));
        assert(t.count(id) <= 1);
        assert(below.count(id) + (if has_id(moving, id) { 1nat } else { 0 }) == t.count(id)
            + if id == e.entity { 1nat } else { 0 });
    }
    assert forall|x: OctreeEntity|
        (#[trigger] below.holds(x) || moving.contains(x)) <==> (t.holds(x) || x == e) by {
        assert(kept.contains(x) <==> (stored.contains(x) && x.bound.spec_octants_about(
            center,
        ).is_none()));
        assert(stored.contains(x) <==> (t.local.contains(x) || (!clean_e && x == e)));
        assert(moving.contains(x) <==> ((stored.contains(x) && x.bound.spec_octants_about(
            center,
        ).is_some()) || (clean_e && x == e)));
    }
}

/// What handing a record to a tree does, where no identifier is kept twice and
/// the record's identifier is not kept yet: its identifier is counted once
/// more, and the tree keeps the record besides all that it kept.
pub proof fn lemma_settle_effect(t: Tree, e: OctreeEntity)
    requires
        t.wf(),
        e.bound.wf(),
        t.unique_ids(),
        t.count(e.entity) == 0,
    ensures
        forall|id: u64| #[trigger]
            t.settle(e).count(id) == t.count(id) + if id == e.entity { 1nat } else { 0 },
        forall|x: OctreeEntity| #[trigger] t.settle(e).holds(x) <==> (t.holds(x) || x == e),
    decreases t.region.span(), 1nat, 0nat,
{
    let out = t.settle(e);
    if t.local.len() < LOCAL_THRESHOLD || !t.region.splittable() {
        lemma_store_ascending(t.local, e);
        lemma_store_ids(t.local, e);
        let stored = store(t.local, e).0;
        assert forall|id: u64| #[trigger]
            out.count(id) == t.count(id) + if id == e.entity { 1nat } else { 0 } by {
            assert(has_id(stored, id) <==> (has_id(t.local, id) || id == e.entity));
        }
        assert forall|x: OctreeEntity| #[trigger] out.holds(x) <==> (t.holds(x) || x == e) by {
            assert(stored.contains(x) <==> (t.local.contains(x) || x == e));
        }
    } else {
        let (below, moving) = sorted_out(t, e);
        lemma_sorted_out(t, e);
        assert(t.settle(e) == below.relocate(moving));
        lemma_relocate_effect(below, moving);
        assert forall|id: u64| #[trigger]
            out.count(id) == t.count(id) + if id == e.entity { 1nat } else { 0 } by {
            assert(below.count(id) + (if has_id(moving, id) { 1nat } else { 0 }) == t.count(id)
                + if id == e.entity { 1nat } else { 0 });
        }
        assert forall|x: OctreeEntity| #[trigger] out.holds(x) <==> (t.holds(x) || x == e) by {
            assert((below.holds(x) || moving.contains(x)) <==> (t.holds(x) || x == e));
        }
    }
}

/// What handing one record down does, under the same conditions as for
/// several: the tree that results keeps the record besides all that it kept.
pub proof fn lemma_step_effect(t: Tree, e: OctreeEntity) -> (next: Tree)
    requires
        t.wf(),
        t.region.splittable(),
        e.bound.wf(),
        e.bound.spec_octants_about(t.region.spec_center()).is_some(),
        t.unique_ids(),
        t.count(e.entity) == 0,
    ensures
        next.wf(),
        next.region == t.region,
        next.unique_ids(),
        forall|rest: Seq<OctreeEntity>|
            t.relocate(seq![e] + rest) == #[trigger] next.relocate(rest),
        forall|id: u64| #[trigger]
            next.count(id) == t.count(id) + if id == e.entity { 1nat } else { 0 },
        forall|x: OctreeEntity| #[trigger] next.holds(x) <==> (t.holds(x) || x == e),
    decreases t.region.span(), 0nat, 0nat,
{
    let signs = e.bound.spec_octants_about(t.region.spec_center()).unwrap();
    let i = signs.code();
    lemma_code_of_signs(signs);
    let below = t.octant(i);
    if t.leaves[i].is_none() {
        lemma_empty_wf(t.octant_region(i));
    }
    assert(below.region.span() < t.region.span());
    assert forall|x: OctreeEntity|
        #[trigger] below.count(x.entity) == t.count_at(i, x.entity) && below.holds(x)
            == t.holds_at(i, x) by {
        if t.leaves[i].is_none() {
            lemma_empty_holds_nothing(below, x);
        }
    }
    assert(below.unique_ids() && below.count(e.entity) == 0) by {
        assert forall|id: u64| #[trigger] below.count(id) <= 1 by {
            let x = OctreeEntity { entity: id, bound: e.bound };
            assert(below.count(x.entity) == t.count_at(i, x.entity));
            lemma_split_at(t, i, x);
            assert(t.count(id) <= 1);
        }
        assert(below.count(e.entity) == t.count_at(i, e.entity));
        lemma_split_at(t, i, e);
    }
    lemma_settle_effect(below, e);
    let grown = below.settle(e);
    let next = lemma_relocate_step_wf(t, e);
    assert(next == t.with_leaf(i, Some(grown)));
    assert forall|x: OctreeEntity|
        (#[trigger] next.holds(x) <==> (t.holds(x) || x == e)) && next.count(x.entity) == t.count(
            x.entity,
        ) + if x.entity == e.entity { 1nat } else { 0 } by {
        lemma_split_at(t, i, x);
        lemma_split_at(next, i, x);
        lemma_with_leaf_besides(t, i, Some(grown), x);
        assert(grown.holds(x) <==> (below.holds(x) || x == e));
        assert(grown.count(x.entity) == below.count(x.entity) + if x.entity == e.entity {
            1nat
        } else {
            0
        });
        assert(below.count(x.entity) == t.count_at(i, x.entity) && below.holds(x) == t.holds_at(
            i,
            x,
        ));
    }
    assert forall|id: u64| #[trigger]
        next.count(id) == t.count(id) + if id == e.entity { 1nat } else { 0 } by {
        let x = OctreeEntity { entity: id, bound: e.bound };
        assert(next.holds(x) <==> (t.holds(x) || x == e));
    }
    assert(next.unique_ids()) by {
        assert forall|id: u64| #[trigger] next.count(id) <= 1 by {
            assert(t.count(id) <= 1);
        }
    }
    next
}

/// What handing records down does, where no identifier is kept twice, the
/// records lie each in one octant, and their identifiers differ from each
/// other and from all that the tree keeps: each of the identifiers is
/// counted once more, and the tree keeps the records besides all that it
/// kept.
pub proof fn lemma_relocate_effect(t: Tree, moving: Seq<OctreeEntity>)
    requires
        t.wf(),
        t.region.splittable(),
        forall|k: int| 0 <= k < moving.len() ==> (#[trigger] moving[k]).bound.wf(),
        forall|k: int|
            0 <= k < moving.len() ==> (#[trigger] moving[k]).bound.spec_octants_about(
                t.region.spec_center(),
            ).is_some(),
        distinct_ids(moving),
        t.unique_ids(),
        forall|k: int| 0 <= k < moving.len() ==> t.count((#[trigger] moving[k]).entity) == 0,
    ensures
        forall|id: u64| #[trigger]
            t.relocate(moving).count(id) == t.count(id) + if has_id(moving, id) {
                1nat
            } else {
                0
            },
        forall|x: OctreeEntity| #[trigger]
            t.relocate(moving).holds(x) <==> (t.holds(x) || moving.contains(x)),
    decreases t.region.span(), 0nat, moving.len(),
{
    let out = t.relocate(moving);
    if moving.len() > 0 {
        let e = moving[0];
        let rest = moving.drop_first();
        assert(moving =~= seq![e] + rest);
        assert(e.bound.wf());
        assert(t.count(e.entity) == 0);
        let next = lemma_step_effect(t, e);
        assert(t.relocate(moving) == next.relocate(rest));
        assert forall|k: int| 0 <= k < rest.len() implies (#[trigger] rest[k]).bound.wf()
            && rest[k].bound.spec_octants_about(next.region.spec_center()).is_some()
            && next.count(rest[k].entity) == 0 by {
            assert(rest[k] == moving[k + 1]);
            assert(moving[0].entity != moving[k + 1].entity);
            assert(t.count(moving[k + 1].entity) == 0);
            assert(next.count(rest[k].entity) == t.count(rest[k].entity) + if rest[k].entity
                == e.entity { 1nat } else { 0 });
        }
        assert(distinct_ids(rest)) by {
            assert forall|a: int, b: int| 0 <= a < b < rest.len() implies rest[a].entity
                != rest[b].entity by {
                assert(rest[a] == moving[a + 1] && rest[b] == moving[b + 1]);
            }
        }
        lemma_relocate_effect(next, rest);
        assert forall|id: u64| #[trigger]
            out.count(id) == t.count(id) + if has_id(moving, id) { 1nat } else { 0 } by {
            let x = OctreeEntity { entity: id, bound: e.bound };
            lemma_first_and_rest(moving, x);
            assert(next.count(id) == t.count(id) + if id == e.entity { 1nat } else { 0 });
            if has_id(rest, id) {
                let y = lemma_has_id_witness(rest, id);
                let k = choose|k: int| 0 <= k < rest.len() && rest[k] == y;
                assert(next.count(rest[k].entity) == 0);
            }
        }
        assert forall|x: OctreeEntity| #[trigger]
            out.holds(x) <==> (t.holds(x) || moving.contains(x)) by {
            lemma_first_and_rest(moving, x);
            assert(next.holds(x) <==> (t.holds(x) || x == e));
        }
    } else {
        assert forall|id: u64| !has_id(moving, id) by {}
        assert forall|x: OctreeEntity| !moving.contains(x) by {}
    }
}

/// What taking a record out does to one record `x` and to its identifier.
proof fn lemma_remove_effect_at(t: Tree, e: OctreeEntity, x: OctreeEntity)
    requires
        t.wf(),
    ensures
        t.remove(e).0.count(x.entity) == t.count(x.entity) - if t.remove(e).1 && x.entity
            == e.entity { 1int } else { 0 },
        t.remove(e).0.holds(x) ==> t.holds(x),
        t.holds(x) && x.entity != e.entity ==> t.remove(e).0.holds(x),
    decreases t,
{
    let at_leaf = match e.bound.spec_octants_about(t.region.spec_center()) {
        Some(signs) => t.leaves[signs.code()].is_some(),
        None => false,
    };
    if at_leaf {
        let signs = e.bound.spec_octants_about(t.region.spec_center()).unwrap();
        let i = signs.code();
        lemma_code_of_signs(signs);
        let leaf = t.leaves[i].unwrap();
        lemma_remove_effect_at(leaf, e, x);
        lemma_remove_wf(leaf, e);
        let shrunk = leaf.remove(e).0;
        let found = leaf.remove(e).1;
        let slot = if found && shrunk.is_empty() { None } else { Some(shrunk) };
        assert(t.remove(e) == (t.with_leaf(i, slot), found));
        if shrunk.is_empty() {
            lemma_empty_holds_nothing(shrunk, x);
        }
        lemma_leaf_changed(t, i, slot, x);
    } else {
        lemma_discard_ascending(t.local, e.entity);
        lemma_discard_ids(t.local, e.entity);
        let left = discard(t.local, e.entity).0;
        assert(t.remove(e) == (t.with_local(left), discard(t.local, e.entity).1));
        lemma_local_changed(t, left, x);
    }
}

/// How a tree with another octant at `i` keeps `x`, against the tree itself.
proof fn lemma_leaf_changed(t: Tree, i: int, slot: Option<Tree>, x: OctreeEntity)
    requires
        0 <= i < 8,
        t.leaves.len() == 8,
    ensures
        t.with_leaf(i, slot).count(x.entity) == t.count(x.entity) - t.count_at(i, x.entity)
            + match slot {
            Some(l) => l.count(x.entity),
            None => 0,
        },
        t.with_leaf(i, slot).holds(x) ==> t.holds(x) || (slot matches Some(l) && l.holds(x)),
        slot matches Some(l) && l.holds(x) ==> t.with_leaf(i, slot).holds(x),
        t.holds(x) && !t.holds_at(i, x) ==> t.with_leaf(i, slot).holds(x),
{
    lemma_split_at(t, i, x);
    lemma_split_at(t.with_leaf(i, slot), i, x);
    lemma_with_leaf_besides(t, i, slot, x);
}

/// How a tree with other records at its root keeps `x`, against the tree
/// itself.
proof fn lemma_local_changed(t: Tree, local: Seq<OctreeEntity>, x: OctreeEntity)
    ensures
        t.with_local(local).count(x.entity) == t.count(x.entity) - (if has_id(
            t.local,
            x.entity,
        ) { 1int } else { 0 }) + (if has_id(local, x.entity) { 1int } else { 0 }),
        t.with_local(local).holds(x) <==> (local.contains(x) || (t.holds(x) && (
        !t.local.contains(x) || holds_beneath(t, x)))),
{
    let out = t.with_local(local);
    assert(out.leaves == t.leaves);
    assert(out.count_at(0, x.entity) == t.count_at(0, x.entity));
    assert(out.count_at(1, x.entity) == t.count_at(1, x.entity));
    assert(out.count_at(2, x.entity) == t.count_at(2, x.entity));
    assert(out.count_at(3, x.entity) == t.count_at(3, x.entity));
    assert(out.count_at(4, x.entity) == t.count_at(4, x.entity));
    assert(out.count_at(5, x.entity) == t.count_at(5, x.entity));
    assert(out.count_at(6, x.entity) == t.count_at(6, x.entity));
    assert(out.count_at(7, x.entity) == t.count_at(7, x.entity));
    assert(out.holds_at(0, x) == t.holds_at(0, x));
    assert(out.holds_at(1, x) == t.holds_at(1, x));
    assert(out.holds_at(2, x) == t.holds_at(2, x));
    assert(out.holds_at(3, x) == t.holds_at(3, x));
    assert(out.holds_at(4, x) == t.holds_at(4, x));
    assert(out.holds_at(5, x) == t.holds_at(5, x));
    assert(out.holds_at(6, x) == t.holds_at(6, x));
    assert(out.holds_at(7, x) == t.holds_at(7, x));
}

/// Whether the tree keeps the record `x` in one of its octants.
pub open spec fn holds_beneath(t: Tree, x: OctreeEntity) -> bool {
    t.holds_at(0, x) || t.holds_at(1, x) || t.holds_at(2, x) || t.holds_at(3, x) || t.holds_at(4, x)
        || t.holds_at(5, x) || t.holds_at(6, x) || t.holds_at(7, x)
}

/// What taking a record out does: where it is found, its identifier is counted
/// once less and nothing else changes; the tree keeps no record that it did not
/// keep, and still keeps every record of another identifier.
pub proof fn lemma_remove_effect(t: Tree, e: OctreeEntity)
    requires
        t.wf(),
    ensures
        forall|id: u64| #[trigger]
            t.remove(e).0.count(id) == t.count(id) - if t.remove(e).1 && id == e.entity {
                1int
            } else {
                0
            },
        forall|x: OctreeEntity| #[trigger] t.remove(e).0.holds(x) ==> t.holds(x),
        forall|x: OctreeEntity|
            t.holds(x) && x.entity != e.entity ==> #[trigger] t.remove(e).0.holds(x),
{
    assert forall|id: u64| #[trigger]
        t.remove(e).0.count(id) == t.count(id) - if t.remove(e).1 && id == e.entity {
            1int
        } else {
            0
        } by {
        lemma_remove_effect_at(t, e, OctreeEntity { entity: id, bound: e.bound });
    }
    assert forall|x: OctreeEntity|
        (#[trigger] t.remove(e).0.holds(x) ==> t.holds(x)) && (t.holds(x) && x.entity != e.entity
            ==> t.remove(e).0.holds(x)) by {
        lemma_remove_effect_at(t, e, x);
    }
}

} // verus!
