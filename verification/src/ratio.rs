use vstd::prelude::*;

verus! {

/// An exact fraction `num / den` with a positive denominator.
///
/// Distances along a ray are fractions of lattice differences; keeping them
/// exact makes every comparison between two hits exact too.
#[derive(Clone, Copy, Debug)]
pub struct Ratio {
    pub num: i64,
    pub den: u32,
}

impl Ratio {
    /// A fraction is well formed when its denominator is positive.
    pub open spec fn wf(self) -> bool {
        self.den > 0
    }

    /// `self < other` as fractions.
    pub open spec fn spec_lt(self, other: Ratio) -> bool {
        self.num * other.den < other.num * self.den
    }

    /// `self <= other` as fractions.
    pub open spec fn spec_le(self, other: Ratio) -> bool {
        self.num * other.den <= other.num * self.den
    }

    /// `self` and `other` stand for the same number.
    pub open spec fn spec_same(self, other: Ratio) -> bool {
        self.num * other.den == other.num * self.den
    }

    /// Whether the fraction is greater than zero.
    pub open spec fn spec_positive(self) -> bool {
        self.num > 0
    }

    /// The fraction `num / den`.
    pub fn new(num: i64, den: u32) -> (r: Self)
        requires
            den > 0,
        ensures
            r == (Ratio { num, den }),
            r.wf(),
    {
        Ratio { num, den }
    }

    /// The whole number `n`.
    pub fn from_int(n: i64) -> (r: Self)
        ensures
            r == (Ratio { num: n, den: 1 }),
            r.wf(),
    {
        Ratio { num: n, den: 1 }
    }

    /// Whether the fraction is greater than zero.
    pub fn is_positive(&self) -> (r: bool)
        ensures
            r == self.spec_positive(),
    {
        self.num > 0
    }

    /// Whether `self < other`.
    pub fn less_than(&self, other: &Ratio) -> (r: bool)
        ensures
            r == self.spec_lt(*other),
    {
        let (a, b) = cross(self, other);
        a < b
    }

    /// Whether `self <= other`.
    pub fn at_most(&self, other: &Ratio) -> (r: bool)
        ensures
            r == self.spec_le(*other),
    {
        let (a, b) = cross(self, other);
        a <= b
    }

    /// Whether `self` and `other` stand for the same number.
    pub fn same_value(&self, other: &Ratio) -> (r: bool)
        ensures
            r == self.spec_same(*other),
    {
        let (a, b) = cross(self, other);
        a == b
    }
}

/// The two cross products by which `a` and `b` are compared.
fn cross(a: &Ratio, b: &Ratio) -> (p: (i128, i128))
    ensures
        p.0 == a.num * b.den,
        p.1 == b.num * a.den,
{
    proof {
        lemma_product_fits(a.num as int, b.den as int);
        lemma_product_fits(b.num as int, a.den as int);
    }
    ((a.num as i128) * (b.den as i128), (b.num as i128) * (a.den as i128))
}

/// The product of a 64-bit numerator and a 32-bit denominator fits in 128 bits.
proof fn lemma_product_fits(n: int, d: int)
    requires
        -0x8000_0000_0000_0000 <= n <= 0x7fff_ffff_ffff_ffff,
        0 <= d <= 0xffff_ffff,
    ensures
        -0x8000_0000_0000_0000_0000_0000 <= n * d <= 0x8000_0000_0000_0000_0000_0000,
{
    assert(n * d <= 0x7fff_ffff_ffff_ffff * d) by (nonlinear_arith)
        requires
            n <= 0x7fff_ffff_ffff_ffff,
            0 <= d,
    ;
    assert(n * d >= -0x8000_0000_0000_0000 * d) by (nonlinear_arith)
        requires
            n >= -0x8000_0000_0000_0000,
            0 <= d,
    ;
}

/// Of two fractions one is below the other, or the other is at most the one.
pub proof fn lemma_order_is_total(a: Ratio, b: Ratio)
    ensures
        a.spec_lt(b) <==> !b.spec_le(a),
        a.spec_lt(b) ==> a.spec_le(b),
        a.spec_le(a),
{
}

/// The order of well-formed fractions is transitive.
pub proof fn lemma_order_is_transitive(a: Ratio, b: Ratio, c: Ratio)
    requires
        a.wf(),
        b.wf(),
        c.wf(),
        a.spec_le(b),
        b.spec_le(c),
    ensures
        a.spec_le(c),
{
    let (an, ad) = (a.num as int, a.den as int);
    let (bn, bd) = (b.num as int, b.den as int);
    let (cn, cd) = (c.num as int, c.den as int);
    assert(an * bd * cd <= bn * ad * cd) by (nonlinear_arith)
        requires
            an * bd <= bn * ad,
            cd > 0,
    ;
    assert(bn * cd * ad <= cn * bd * ad) by (nonlinear_arith)
        requires
            bn * cd <= cn * bd,
            ad > 0,
    ;
    assert(bn * ad * cd == bn * cd * ad) by (nonlinear_arith);
    assert(an * bd * cd == (an * cd) * bd) by (nonlinear_arith);
    assert(cn * bd * ad == (cn * ad) * bd) by (nonlinear_arith);
    assert(an * cd <= cn * ad) by (nonlinear_arith)
        requires
            (an * cd) * bd <= (cn * ad) * bd,
            bd > 0,
    ;
}

} // verus!
