use crate::bounding_box::{
    axis_admits, axis_entry, axis_entry_bound, axis_exit, axis_exit_bound, later, sooner,
    BoundingBox,
};
use crate::ratio::{lemma_order_is_total, lemma_order_is_transitive, Ratio};
use crate::vec3::Vec3;
use vstd::prelude::*;

verus! {

/// Whether, on one axis, the ray that starts at `o` and advances by `d` stands
/// between `lo` and `hi`, the two included, after the distance `t`.
pub open spec fn axis_inside(lo: i32, hi: i32, o: i32, d: i32, t: Ratio) -> bool {
    t.den * lo <= t.den * o + t.num * d <= t.den * hi
}

/// Whether the ray from `origin` along `dir` stands in the box, its boundary
/// included, after the distance `t`.
pub open spec fn ray_inside(b: BoundingBox, origin: Vec3, dir: Vec3, t: Ratio) -> bool {
    &&& axis_inside(b.min.x, b.max.x, origin.x, dir.x, t)
    &&& axis_inside(b.min.y, b.max.y, origin.y, dir.y, t)
    &&& axis_inside(b.min.z, b.max.z, origin.z, dir.z, t)
}

/// Whether `t` is at or after a lower bound, where `None` bounds nothing.
pub open spec fn not_before(bound: Option<Ratio>, t: Ratio) -> bool {
    bound matches Some(x) ==> x.spec_le(t)
}

/// Whether `t` is at or before an upper bound, where `None` bounds nothing.
pub open spec fn not_after(bound: Option<Ratio>, t: Ratio) -> bool {
    bound matches Some(x) ==> t.spec_le(x)
}

/// On an axis along which the ray moves, it stands inside the slab exactly
/// between the distance at which it enters and the one at which it leaves; on
/// an axis along which it does not move, exactly when it starts inside.
proof fn lemma_axis_inside(lo: i32, hi: i32, o: i32, d: i32, t: Ratio)
    requires
        t.wf(),
    ensures
        axis_inside(lo, hi, o, d, t) <==> (axis_admits(lo, hi, o, d) && not_before(
            axis_entry_bound(lo, hi, o, d),
            t,
        ) && not_after(axis_exit_bound(lo, hi, o, d), t)),
        axis_entry_bound(lo, hi, o, d) matches Some(x) ==> x.wf(),
        axis_exit_bound(lo, hi, o, d) matches Some(x) ==> x.wf(),
{
    let (n, q) = (t.num as int, t.den as int);
    let (l, h, s, v) = (lo as int, hi as int, o as int, d as int);
    if d == 0 {
        assert(n * v == 0) by (nonlinear_arith)
            requires
                v == 0,
        ;
        assert((q * l <= q * s) <==> (l <= s)) by (nonlinear_arith)
            requires
                q > 0,
        ;
        assert((q * s <= q * h) <==> (s <= h)) by (nonlinear_arith)
            requires
                q > 0,
        ;
    } else if d > 0 {
        let en = axis_entry(lo, hi, o, d);
        let ex = axis_exit(lo, hi, o, d);
        assert(en.num == l - s && en.den == v);
        assert(ex.num == h - s && ex.den == v);
        assert((l - s) * q == q * l - q * s) by (nonlinear_arith);
        assert((h - s) * q == q * h - q * s) by (nonlinear_arith);
    } else {
        let en = axis_entry(lo, hi, o, d);
        let ex = axis_exit(lo, hi, o, d);
        assert(en.num == s - h && en.den == -v);
        assert(ex.num == s - l && ex.den == -v);
        assert((s - h) * q == q * s - q * h) by (nonlinear_arith);
        assert((s - l) * q == q * s - q * l) by (nonlinear_arith);
        assert(n * (-v) == -(n * v)) by (nonlinear_arith);
    }
}

/// A distance is at or after the later of two lower bounds exactly when it is
/// at or after both.
proof fn lemma_later(a: Option<Ratio>, b: Option<Ratio>, t: Ratio)
    requires
        t.wf(),
        a matches Some(x) ==> x.wf(),
        b matches Some(x) ==> x.wf(),
    ensures
        not_before(later(a, b), t) <==> (not_before(a, t) && not_before(b, t)),
        later(a, b) matches Some(x) ==> x.wf(),
        later(a, b).is_none() <==> (a.is_none() && b.is_none()),
{
    match (a, b) {
        (Some(x), Some(y)) => {
            lemma_order_is_total(x, y);
            lemma_order_is_total(y, x);
            if x.spec_lt(y) {
                if y.spec_le(t) {
                    lemma_order_is_transitive(x, y, t);
                }
            } else {
                if x.spec_le(t) {
                    lemma_order_is_transitive(y, x, t);
                }
            }
        },
        _ => {},
    }
}

/// A distance is at or before the sooner of two upper bounds exactly when it
/// is at or before both.
proof fn lemma_sooner(a: Option<Ratio>, b: Option<Ratio>, t: Ratio)
    requires
        t.wf(),
        a matches Some(x) ==> x.wf(),
        b matches Some(x) ==> x.wf(),
    ensures
        not_after(sooner(a, b), t) <==> (not_after(a, t) && not_after(b, t)),
        sooner(a, b) matches Some(x) ==> x.wf(),
        sooner(a, b).is_none() <==> (a.is_none() && b.is_none()),
{
    match (a, b) {
        (Some(x), Some(y)) => {
            lemma_order_is_total(x, y);
            lemma_order_is_total(y, x);
            if y.spec_lt(x) {
                if t.spec_le(y) {
                    lemma_order_is_transitive(t, y, x);
                }
            } else {
                if t.spec_le(x) {
                    lemma_order_is_transitive(t, x, y);
                }
            }
        },
        _ => {},
    }
}

/// The ray stands in the box after the distance `t` exactly when it starts
/// inside the slab of every axis along which it does not move, and `t` lies
/// between the distance at which it has entered all slabs and the one at
/// which it leaves the first.
pub proof fn lemma_inside_between(b: BoundingBox, origin: Vec3, dir: Vec3, t: Ratio)
    requires
        t.wf(),
    ensures
        ray_inside(b, origin, dir, t) <==> (b.ray_admitted(origin, dir) && not_before(
            b.ray_entry(origin, dir),
            t,
        ) && not_after(b.ray_exit(origin, dir), t)),
        b.ray_entry(origin, dir) matches Some(x) ==> x.wf(),
        b.ray_exit(origin, dir) matches Some(x) ==> x.wf(),
        dir != Vec3::zero() ==> b.ray_entry(origin, dir).is_some() && b.ray_exit(
            origin,
            dir,
        ).is_some(),
{
    lemma_axis_inside(b.min.x, b.max.x, origin.x, dir.x, t);
    lemma_axis_inside(b.min.y, b.max.y, origin.y, dir.y, t);
    lemma_axis_inside(b.min.z, b.max.z, origin.z, dir.z, t);
    let ex = axis_entry_bound(b.min.x, b.max.x, origin.x, dir.x);
    let ey = axis_entry_bound(b.min.y, b.max.y, origin.y, dir.y);
    let ez = axis_entry_bound(b.min.z, b.max.z, origin.z, dir.z);
    let lx = axis_exit_bound(b.min.x, b.max.x, origin.x, dir.x);
    let ly = axis_exit_bound(b.min.y, b.max.y, origin.y, dir.y);
    let lz = axis_exit_bound(b.min.z, b.max.z, origin.z, dir.z);
    lemma_later(ex, ey, t);
    lemma_later(later(ex, ey), ez, t);
    lemma_sooner(lx, ly, t);
    lemma_sooner(sooner(lx, ly), lz, t);
}

/// Where a ray strikes a box, it stands in the box, its boundary included,
/// after the distance reported, and that distance is greater than zero.
pub proof fn lemma_hit_is_inside(b: BoundingBox, origin: Vec3, dir: Vec3)
    ensures
        b.spec_intersects_ray(origin, dir) matches Some(t) ==> t.wf() && t.spec_positive()
            && ray_inside(b, origin, dir, t),
{
    match b.spec_intersects_ray(origin, dir) {
        Some(t) => {
            let entry = b.ray_entry(origin, dir).unwrap();
            let exit = b.ray_exit(origin, dir).unwrap();
            lemma_inside_between(b, origin, dir, t);
            lemma_order_is_total(exit, entry);
            lemma_order_is_total(entry, entry);
            lemma_order_is_total(exit, exit);
        },
        None => {},
    }
}

/// A ray with a direction strikes a box as soon as it stands in the box after
/// some distance greater than zero; the distance it reports is at most that
/// one where it reports its entry, and at least that one where it reports its
/// leaving.
pub proof fn lemma_inside_is_hit(b: BoundingBox, origin: Vec3, dir: Vec3, t: Ratio)
    requires
        dir != Vec3::zero(),
        t.wf(),
        t.spec_positive(),
        ray_inside(b, origin, dir, t),
    ensures
        b.spec_intersects_ray(origin, dir).is_some(),
        not_before(b.ray_entry(origin, dir), t),
        not_after(b.ray_exit(origin, dir), t),
{
    lemma_inside_between(b, origin, dir, t);
    let entry = b.ray_entry(origin, dir).unwrap();
    let exit = b.ray_exit(origin, dir).unwrap();
    lemma_order_is_transitive(entry, t, exit);
    lemma_order_is_total(exit, entry);
    assert(exit.spec_positive()) by (nonlinear_arith)
        requires
            t.num > 0,
            t.den > 0,
            exit.den > 0,
            t.num * exit.den <= exit.num * t.den,
    ;
}

} // verus!
