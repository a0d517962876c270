use crate::ratio::Ratio;
use crate::vec3::Vec3;
use vstd::arithmetic::div_mod::{lemma_fundamental_div_mod, lemma_fundamental_div_mod_converse_div};
use vstd::prelude::*;

verus! {

/// Where a ray that starts at `o` and advances by `d` per unit stands on one
/// axis after the distance `t - back`, rounded down to the lattice.
pub open spec fn reach(o: i32, d: i32, t: Ratio, back: Ratio) -> int {
    o + (d * (t.num * back.den - back.num * t.den)) / (t.den * back.den)
}

/// The coordinate nearest to `v` that the lattice has.
pub open spec fn on_lattice(v: int) -> i32 {
    if v < i32::MIN {
        i32::MIN
    } else if v > i32::MAX {
        i32::MAX
    } else {
        v as i32
    }
}

/// The lattice point where the ray from `origin` along `dir` stands after the
/// distance `t - back`: each coordinate is rounded down, and one that would
/// leave the lattice stops at its edge.
pub open spec fn spec_point_at(origin: Vec3, dir: Vec3, t: Ratio, back: Ratio) -> Vec3 {
    Vec3 {
        x: on_lattice(reach(origin.x, dir.x, t, back)),
        y: on_lattice(reach(origin.y, dir.y, t, back)),
        z: on_lattice(reach(origin.z, dir.z, t, back)),
    }
}

/// The lattice point where the ray from `origin` along `dir` stands after the
/// distance `t - back`.
pub fn point_at(origin: Vec3, dir: Vec3, t: &Ratio, back: &Ratio) -> (p: Vec3)
    requires
        t.wf(),
        back.wf(),
    ensures
        p == spec_point_at(origin, dir, *t, *back),
{
    Vec3 {
        x: coordinate_at(origin.x, dir.x, t, back),
        y: coordinate_at(origin.y, dir.y, t, back),
        z: coordinate_at(origin.z, dir.z, t, back),
    }
}

/// One coordinate of `point_at`.
fn coordinate_at(o: i32, d: i32, t: &Ratio, back: &Ratio) -> (c: i32)
    requires
        t.wf(),
        back.wf(),
    ensures
        c == on_lattice(reach(o, d, *t, *back)),
{
    proof {
        lemma_travel_fits(d as int, t.num as int, t.den as int, back.num as int, back.den as int);
    }
    let ahead: i128 = (t.num as i128) * (back.den as i128);
    let behind: i128 = (back.num as i128) * (t.den as i128);
    let scaled: i128 = (d as i128) * (ahead - behind);
    let unit: i128 = (t.den as i128) * (back.den as i128);
    let v: i128 = (o as i128) + floor_div(scaled, unit);
    if v < i32::MIN as i128 {
        i32::MIN
    } else if v > i32::MAX as i128 {
        i32::MAX
    } else {
        v as i32
    }
}

/// `n / q`, rounded down.
fn floor_div(n: i128, q: i128) -> (r: i128)
    requires
        0 < q <= 0x1_0000_0000_0000_0000,
        -0x7fff_ffff_8000_0000_0000_0000_0000_0000 <= n <= 0x7fff_ffff_8000_0000_0000_0000_0000_0000,
    ensures
        r == n as int / q as int,
        -0x7fff_ffff_8000_0000_0000_0000_0000_0000 <= r <= 0x7fff_ffff_8000_0000_0000_0000_0000_0000,
{
    if n >= 0 {
        proof {
            lemma_fundamental_div_mod(n as int, q as int);
            assert(0 <= (n as int) / (q as int) <= n) by (nonlinear_arith)
                requires
                    n >= 0,
                    q > 0,
            ;
        }
        n / q
    } else {
        let m: i128 = (-n) + (q - 1);
        let k: i128 = m / q;
        proof {
            let rem = (m as int) % (q as int);
            lemma_fundamental_div_mod(m as int, q as int);
            assert(0 <= rem < q) by (nonlinear_arith)
                requires
                    rem == (m as int) % (q as int),
                    q > 0,
            ;
            assert(0 <= (m as int) / (q as int) <= m) by (nonlinear_arith)
                requires
                    m >= 0,
                    q > 0,
            ;
            assert(n as int == (-k) * q + (q - 1 - rem)) by (nonlinear_arith)
                requires
                    m as int == q * k + rem,
                    m as int == -n + (q - 1),
            ;
            lemma_fundamental_div_mod_converse_div(n as int, q as int, -(k as int), q - 1 - rem);
            assert(k <= -n) by (nonlinear_arith)
                requires
                    n as int == (-k) * q + (q - 1 - rem),
                    0 <= rem,
                    q >= 1,
                    n < 0,
            ;
        }
        -k
    }
}

/// The products that `coordinate_at` forms stay within 128 bits.
proof fn lemma_travel_fits(d: int, tn: int, td: int, bn: int, bd: int)
    requires
        -0x8000_0000 <= d <= 0x7fff_ffff,
        -0x8000_0000_0000_0000 <= tn <= 0x7fff_ffff_ffff_ffff,
        -0x8000_0000_0000_0000 <= bn <= 0x7fff_ffff_ffff_ffff,
        0 < td <= 0xffff_ffff,
        0 < bd <= 0xffff_ffff,
    ensures
        -0x7fff_ffff_8000_0000_0000_0000 <= tn * bd <= 0x7fff_ffff_8000_0000_0000_0000,
        -0x7fff_ffff_8000_0000_0000_0000 <= bn * td <= 0x7fff_ffff_8000_0000_0000_0000,
        -0x7fff_ffff_8000_0000_0000_0000_0000_0000 <= d * (tn * bd - bn * td)
            <= 0x7fff_ffff_8000_0000_0000_0000_0000_0000,
        0 < td * bd <= 0x1_0000_0000_0000_0000,
{
    assert(-0x7fff_ffff_8000_0000_0000_0000 <= tn * bd <= 0x7fff_ffff_8000_0000_0000_0000)
        by (nonlinear_arith)
        requires
            -0x8000_0000_0000_0000 <= tn <= 0x7fff_ffff_ffff_ffff,
            0 < bd <= 0xffff_ffff,
    ;
    assert(-0x7fff_ffff_8000_0000_0000_0000 <= bn * td <= 0x7fff_ffff_8000_0000_0000_0000)
        by (nonlinear_arith)
        requires
            -0x8000_0000_0000_0000 <= bn <= 0x7fff_ffff_ffff_ffff,
            0 < td <= 0xffff_ffff,
    ;
    let diff = tn * bd - bn * td;
    assert(-0xffff_ffff_0000_0000_0000_0000 <= diff <= 0xffff_ffff_0000_0000_0000_0000);
    assert(-0x7fff_ffff_8000_0000_0000_0000_0000_0000 <= d * diff
        <= 0x7fff_ffff_8000_0000_0000_0000_0000_0000) by (nonlinear_arith)
        requires
            -0x8000_0000 <= d <= 0x7fff_ffff,
            -0xffff_ffff_0000_0000_0000_0000 <= diff <= 0xffff_ffff_0000_0000_0000_0000,
    ;
    assert(0 < td * bd <= 0x1_0000_0000_0000_0000) by (nonlinear_arith)
        requires
            0 < td <= 0xffff_ffff,
            0 < bd <= 0xffff_ffff,
    ;
}

} // verus!
