use vstd::prelude::*;

verus! {

/// A point or a displacement on the integer lattice.
#[derive(Clone, Copy, Debug, PartialEq, Eq, Structural)]
pub struct Vec3 {
    pub x: i32,
    pub y: i32,
    pub z: i32,
}

impl Vec3 {
    /// The vector with the three given components.
    pub fn new(x: i32, y: i32, z: i32) -> (v: Self)
        ensures
            v == (Vec3 { x, y, z }),
    {
        Vec3 { x, y, z }
    }

    /// The vector whose three components all equal `v`.
    pub fn splat(v: i32) -> (r: Self)
        ensures
            r == (Vec3 { x: v, y: v, z: v }),
    {
        Vec3 { x: v, y: v, z: v }
    }

    /// The lattice origin.
    pub open spec fn zero() -> Vec3 {
        Vec3 { x: 0, y: 0, z: 0 }
    }

    /// Whether every component is zero.
    pub fn is_zero(&self) -> (r: bool)
        ensures
            r == (*self == Vec3::zero()),
    {
        self.x == 0 && self.y == 0 && self.z == 0
    }
}

/// On which side of a split point a box lies, axis by axis: `true` is the
/// positive side, `false` the negative side.
#[derive(Clone, Copy, Debug, PartialEq, Eq, Structural)]
pub struct OctantSigns {
    pub x: bool,
    pub y: bool,
    pub z: bool,
}

impl OctantSigns {
    /// The signs with the three given components.
    pub fn new(x: bool, y: bool, z: bool) -> (s: Self)
        ensures
            s == (OctantSigns { x, y, z }),
    {
        OctantSigns { x, y, z }
    }

    /// The octant code of these signs: four for a positive x, two for a
    /// positive y, one for a positive z, added up.
    pub open spec fn code(self) -> int {
        (if self.x { 4int } else { 0 }) + (if self.y { 2int } else { 0 }) + (if self.z { 1int } else { 0 })
    }

    /// The signs that an octant code stands for.
    pub open spec fn of_code(code: int) -> OctantSigns {
        OctantSigns { x: (code / 4) % 2 == 1, y: (code / 2) % 2 == 1, z: code % 2 == 1 }
    }

    /// The octant code of these signs, between 0 and 7.
    pub fn index(&self) -> (i: usize)
        ensures
            i == self.code(),
            i < 8,
    {
        let a: usize = if self.x { 4 } else { 0 };
        let b: usize = if self.y { 2 } else { 0 };
        let c: usize = if self.z { 1 } else { 0 };
        a + b + c
    }

    /// The signs that the octant code `i` stands for.
    pub fn from_index(i: usize) -> (s: Self)
        requires
            i < 8,
        ensures
            s == OctantSigns::of_code(i as int),
            s.code() == i,
    {
        OctantSigns { x: (i / 4) % 2 == 1, y: (i / 2) % 2 == 1, z: i % 2 == 1 }
    }
}

/// Codes and signs stand for each other, one for one.
pub proof fn lemma_code_of_signs(s: OctantSigns)
    ensures
        0 <= s.code() < 8,
        OctantSigns::of_code(s.code()) == s,
{
}

} // verus!
