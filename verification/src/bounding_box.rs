use crate::ratio::Ratio;
use crate::vec3::{OctantSigns, Vec3};
use vstd::prelude::*;

verus! {

/// An axis-aligned box on the lattice, given by its least and greatest corner.
#[derive(Clone, Copy, Debug, PartialEq, Eq, Structural)]
pub struct BoundingBox {
    pub min: Vec3,
    pub max: Vec3,
}

/// The lattice point halfway between `lo` and `hi`, rounded down.
pub open spec fn midpoint(lo: i32, hi: i32) -> i32 {
    (lo + (hi - lo) / 2) as i32
}

/// On which side of `origin` the interval from `lo` to `hi` lies: `Some(true)`
/// strictly above it, `Some(false)` strictly below it, `None` when the interval
/// reaches or crosses `origin`.
pub open spec fn side_of(lo: i32, hi: i32, origin: i32) -> Option<bool> {
    if lo > origin && hi > origin {
        Some(true)
    } else if lo < origin && hi < origin {
        Some(false)
    } else {
        None
    }
}

/// The parameter at which a ray that starts at `o` and advances by `d != 0`
/// enters the interval from `lo` to `hi`.
pub open spec fn axis_entry(lo: i32, hi: i32, o: i32, d: i32) -> Ratio {
    if d > 0 {
        Ratio { num: (lo - o) as i64, den: d as u32 }
    } else {
        Ratio { num: (o - hi) as i64, den: (-d) as u32 }
    }
}

/// The parameter at which a ray that starts at `o` and advances by `d != 0`
/// leaves the interval from `lo` to `hi`.
pub open spec fn axis_exit(lo: i32, hi: i32, o: i32, d: i32) -> Ratio {
    if d > 0 {
        Ratio { num: (hi - o) as i64, den: d as u32 }
    } else {
        Ratio { num: (o - lo) as i64, den: (-d) as u32 }
    }
}

/// The later of two lower bounds, where `None` bounds nothing. Of two equal
/// bounds the first is kept.
pub open spec fn later(a: Option<Ratio>, b: Option<Ratio>) -> Option<Ratio> {
    match (a, b) {
        (None, _) => b,
        (_, None) => a,
        (Some(x), Some(y)) => if x.spec_lt(y) { b } else { a },
    }
}

/// The sooner of two upper bounds, where `None` bounds nothing. Of two equal
/// bounds the first is kept.
pub open spec fn sooner(a: Option<Ratio>, b: Option<Ratio>) -> Option<Ratio> {
    match (a, b) {
        (None, _) => b,
        (_, None) => a,
        (Some(x), Some(y)) => if y.spec_lt(x) { b } else { a },
    }
}

/// The entry bound that one axis contributes: none where the ray does not move
/// along it.
pub open spec fn axis_entry_bound(lo: i32, hi: i32, o: i32, d: i32) -> Option<Ratio> {
    if d == 0 { None } else { Some(axis_entry(lo, hi, o, d)) }
}

/// The exit bound that one axis contributes: none where the ray does not move
/// along it.
pub open spec fn axis_exit_bound(lo: i32, hi: i32, o: i32, d: i32) -> Option<Ratio> {
    if d == 0 { None } else { Some(axis_exit(lo, hi, o, d)) }
}

/// A ray that does not move along an axis stays inside the interval from `lo`
/// to `hi` exactly when it starts inside it, the two ends included.
pub open spec fn axis_admits(lo: i32, hi: i32, o: i32, d: i32) -> bool {
    d != 0 || lo <= o <= hi
}

impl BoundingBox {
    /// A box is well formed when its least corner is nowhere beyond its
    /// greatest corner.
    pub open spec fn wf(self) -> bool {
        &&& self.min.x <= self.max.x
        &&& self.min.y <= self.max.y
        &&& self.min.z <= self.max.z
    }

    /// The three side lengths.
    pub open spec fn spec_length(self) -> (int, int, int) {
        (self.max.x - self.min.x, self.max.y - self.min.y, self.max.z - self.min.z)
    }

    /// The sum of the three side lengths; it shrinks on every halving of a box
    /// that can still be split.
    pub open spec fn span(self) -> nat {
        if self.wf() {
            ((self.max.x - self.min.x) + (self.max.y - self.min.y) + (self.max.z - self.min.z)) as nat
        } else {
            0
        }
    }

    /// A box can be split when it is longer than one lattice step on some axis:
    /// each of its octants is then smaller than the box.
    pub open spec fn splittable(self) -> bool {
        self.wf() && (self.max.x - self.min.x >= 2 || self.max.y - self.min.y >= 2 || self.max.z
            - self.min.z >= 2)
    }

    /// The lattice point in the middle of the box, rounded down on each axis.
    pub open spec fn spec_center(self) -> Vec3 {
        Vec3 {
            x: midpoint(self.min.x, self.max.x),
            y: midpoint(self.min.y, self.max.y),
            z: midpoint(self.min.z, self.max.z),
        }
    }

    /// The octant of `origin` that holds the whole box, if one does: `None` as
    /// soon as the box reaches or crosses `origin` on any axis.
    pub open spec fn spec_octants_about(self, origin: Vec3) -> Option<OctantSigns> {
        match (
            side_of(self.min.x, self.max.x, origin.x),
            side_of(self.min.y, self.max.y, origin.y),
            side_of(self.min.z, self.max.z, origin.z),
        ) {
            (Some(x), Some(y), Some(z)) => Some(OctantSigns { x, y, z }),
            _ => None,
        }
    }

    /// The octant of the box on the given sides of its center. The center is a
    /// corner of every octant.
    pub open spec fn spec_get_octant(self, x: bool, y: bool, z: bool) -> BoundingBox {
        let c = self.spec_center();
        BoundingBox {
            min: Vec3 {
                x: if x { c.x } else { self.min.x },
                y: if y { c.y } else { self.min.y },
                z: if z { c.z } else { self.min.z },
            },
            max: Vec3 {
                x: if x { self.max.x } else { c.x },
                y: if y { self.max.y } else { c.y },
                z: if z { self.max.z } else { c.z },
            },
        }
    }

    /// Whether the box lies in `outer`, where the two may share parts of their
    /// boundary.
    pub open spec fn spec_within(self, outer: BoundingBox) -> bool {
        &&& outer.min.x <= self.min.x && self.max.x <= outer.max.x
        &&& outer.min.y <= self.min.y && self.max.y <= outer.max.y
        &&& outer.min.z <= self.min.z && self.max.z <= outer.max.z
    }

    /// Two boxes intersect when their interiors overlap on every axis; boxes
    /// that only touch do not.
    pub open spec fn spec_intersects(self, other: BoundingBox) -> bool {
        &&& self.min.x < other.max.x && self.max.x > other.min.x
        &&& self.min.y < other.max.y && self.max.y > other.min.y
        &&& self.min.z < other.max.z && self.max.z > other.min.z
    }

    /// A point lies in the box when it is strictly between the two corners on
    /// every axis: the boundary is left out, as it is for two boxes.
    pub open spec fn spec_overlaps_point(self, p: Vec3) -> bool {
        &&& self.min.x < p.x < self.max.x
        &&& self.min.y < p.y < self.max.y
        &&& self.min.z < p.z < self.max.z
    }

    /// The box moved by `dx`, `dy` and `dz` along the three axes, as long as
    /// the result stays on the lattice.
    pub open spec fn shifted(self, dx: int, dy: int, dz: int) -> BoundingBox {
        BoundingBox {
            min: Vec3 {
                x: (self.min.x + dx) as i32,
                y: (self.min.y + dy) as i32,
                z: (self.min.z + dz) as i32,
            },
            max: Vec3 {
                x: (self.max.x + dx) as i32,
                y: (self.max.y + dy) as i32,
                z: (self.max.z + dz) as i32,
            },
        }
    }

    /// Whether both corners of the box, moved by `dx`, `dy` and `dz`, stay on
    /// the lattice.
    pub open spec fn shiftable(self, dx: int, dy: int, dz: int) -> bool {
        &&& i32::MIN <= self.min.x + dx <= i32::MAX
        &&& i32::MIN <= self.max.x + dx <= i32::MAX
        &&& i32::MIN <= self.min.y + dy <= i32::MAX
        &&& i32::MIN <= self.max.y + dy <= i32::MAX
        &&& i32::MIN <= self.min.z + dz <= i32::MAX
        &&& i32::MIN <= self.max.z + dz <= i32::MAX
    }

    /// The box moved by `delta`.
    pub open spec fn spec_translate(self, delta: Vec3) -> BoundingBox {
        self.shifted(delta.x as int, delta.y as int, delta.z as int)
    }

    /// Whether the box moved by `delta` stays on the lattice.
    pub open spec fn translatable(self, delta: Vec3) -> bool {
        self.shiftable(delta.x as int, delta.y as int, delta.z as int)
    }

    /// The latest of the parameters at which the ray enters the box's three
    /// slabs; `None` for a ray that moves along no axis.
    pub open spec fn ray_entry(self, origin: Vec3, dir: Vec3) -> Option<Ratio> {
        later(
            later(
                axis_entry_bound(self.min.x, self.max.x, origin.x, dir.x),
                axis_entry_bound(self.min.y, self.max.y, origin.y, dir.y),
            ),
            axis_entry_bound(self.min.z, self.max.z, origin.z, dir.z),
        )
    }

    /// The soonest of the parameters at which the ray leaves the box's three
    /// slabs; `None` for a ray that moves along no axis.
    pub open spec fn ray_exit(self, origin: Vec3, dir: Vec3) -> Option<Ratio> {
        sooner(
            sooner(
                axis_exit_bound(self.min.x, self.max.x, origin.x, dir.x),
                axis_exit_bound(self.min.y, self.max.y, origin.y, dir.y),
            ),
            axis_exit_bound(self.min.z, self.max.z, origin.z, dir.z),
        )
    }

    /// Whether the ray starts inside the slab of every axis along which it does
    /// not move.
    pub open spec fn ray_admitted(self, origin: Vec3, dir: Vec3) -> bool {
        &&& axis_admits(self.min.x, self.max.x, origin.x, dir.x)
        &&& axis_admits(self.min.y, self.max.y, origin.y, dir.y)
        &&& axis_admits(self.min.z, self.max.z, origin.z, dir.z)
    }

    /// The distance, in multiples of `dir`, at which the ray from `origin`
    /// strikes the box.
    ///
    /// There is no hit when the ray has no direction, when it runs beside the
    /// box, when it leaves the last slab before it has entered all three, or
    /// when the box lies behind `origin`. A ray that starts outside reports
    /// where it enters; one that starts inside, or on the boundary, reports
    /// where it leaves.
    pub open spec fn spec_intersects_ray(self, origin: Vec3, dir: Vec3) -> Option<Ratio> {
        if dir == Vec3::zero() || !self.ray_admitted(origin, dir) {
            None
        } else {
            match (self.ray_entry(origin, dir), self.ray_exit(origin, dir)) {
                (Some(entry), Some(exit)) => {
                    if !exit.spec_positive() || exit.spec_lt(entry) {
                        None
                    } else if !entry.spec_positive() {
                        Some(exit)
                    } else {
                        Some(entry)
                    }
                },
                _ => None,
            }
        }
    }

    /// Whether the cube of side `size` about `offset` stays on the lattice.
    pub open spec fn size_fits(size: u32, offset: Vec3) -> bool {
        &&& i32::MIN <= offset.x - size / 2 && offset.x - size / 2 + size <= i32::MAX
        &&& i32::MIN <= offset.y - size / 2 && offset.y - size / 2 + size <= i32::MAX
        &&& i32::MIN <= offset.z - size / 2 && offset.z - size / 2 + size <= i32::MAX
    }

    /// The cube of side `size` whose center is `offset`. For an odd `size` no
    /// lattice point is the exact middle: `offset` is then the lower of the two
    /// nearest ones.
    pub open spec fn spec_from_size_offset(size: u32, offset: Vec3) -> BoundingBox {
        BoundingBox {
            min: Vec3 {
                x: (offset.x - size / 2) as i32,
                y: (offset.y - size / 2) as i32,
                z: (offset.z - size / 2) as i32,
            },
            max: Vec3 {
                x: (offset.x - size / 2 + size) as i32,
                y: (offset.y - size / 2 + size) as i32,
                z: (offset.z - size / 2 + size) as i32,
            },
        }
    }

    /// The box between `min` and `max`.
    pub fn new(min: Vec3, max: Vec3) -> (b: Self)
        requires
            min.x <= max.x,
            min.y <= max.y,
            min.z <= max.z,
        ensures
            b == (BoundingBox { min, max }),
            b.wf(),
    {
        BoundingBox { min, max }
    }

    /// The cube of side `size` about the lattice origin.
    pub fn from_size(size: u32) -> (b: Self)
        requires
            Self::size_fits(size, Vec3::zero()),
        ensures
            b == Self::spec_from_size_offset(size, Vec3::zero()),
            b.wf(),
    {
        Self::from_size_offset(size, Vec3 { x: 0, y: 0, z: 0 })
    }

    /// The cube of side `size` about `offset`.
    pub fn from_size_offset(size: u32, offset: Vec3) -> (b: Self)
        requires
            Self::size_fits(size, offset),
        ensures
            b == Self::spec_from_size_offset(size, offset),
            b.wf(),
            b.spec_center() == offset,
    {
        let half: i64 = (size / 2) as i64;
        let side: i64 = size as i64;
        let min_x: i64 = offset.x as i64 - half;
        let min_y: i64 = offset.y as i64 - half;
        let min_z: i64 = offset.z as i64 - half;
        BoundingBox {
            min: Vec3 { x: min_x as i32, y: min_y as i32, z: min_z as i32 },
            max: Vec3 {
                x: (min_x + side) as i32,
                y: (min_y + side) as i32,
                z: (min_z + side) as i32,
            },
        }
    }

    /// The three side lengths.
    pub fn length(&self) -> (l: (u32, u32, u32))
        requires
            self.wf(),
        ensures
            (l.0 as int, l.1 as int, l.2 as int) == self.spec_length(),
    {
        (self.x_length(), self.y_length(), self.z_length())
    }

    /// The side length along x.
    pub fn x_length(&self) -> (l: u32)
        requires
            self.wf(),
        ensures
            l == self.max.x - self.min.x,
    {
        (self.max.x as i64 - self.min.x as i64) as u32
    }

    /// The side length along y.
    pub fn y_length(&self) -> (l: u32)
        requires
            self.wf(),
        ensures
            l == self.max.y - self.min.y,
    {
        (self.max.y as i64 - self.min.y as i64) as u32
    }

    /// The side length along z.
    pub fn z_length(&self) -> (l: u32)
        requires
            self.wf(),
        ensures
            l == self.max.z - self.min.z,
    {
        (self.max.z as i64 - self.min.z as i64) as u32
    }

    /// Whether the box can be split into smaller octants.
    pub fn can_split(&self) -> (r: bool)
        requires
            self.wf(),
        ensures
            r == self.splittable(),
    {
        self.x_length() >= 2 || self.y_length() >= 2 || self.z_length() >= 2
    }

    /// The lattice point in the middle of the box, rounded down on each axis.
    pub fn center(&self) -> (c: Vec3)
        requires
            self.wf(),
        ensures
            c == self.spec_center(),
            self.min.x <= c.x <= self.max.x,
            self.min.y <= c.y <= self.max.y,
            self.min.z <= c.z <= self.max.z,
    {
        Vec3 { x: self.center_x(), y: self.center_y(), z: self.center_z() }
    }

    /// The middle of the box along x, rounded down.
    pub fn center_x(&self) -> (c: i32)
        requires
            self.wf(),
        ensures
            c == midpoint(self.min.x, self.max.x),
            self.min.x <= c <= self.max.x,
    {
        halfway(self.min.x, self.max.x)
    }

    /// The middle of the box along y, rounded down.
    pub fn center_y(&self) -> (c: i32)
        requires
            self.wf(),
        ensures
            c == midpoint(self.min.y, self.max.y),
            self.min.y <= c <= self.max.y,
    {
        halfway(self.min.y, self.max.y)
    }

    /// The middle of the box along z, rounded down.
    pub fn center_z(&self) -> (c: i32)
        requires
            self.wf(),
        ensures
            c == midpoint(self.min.z, self.max.z),
            self.min.z <= c <= self.max.z,
    {
        halfway(self.min.z, self.max.z)
    }

    /// The octant of the lattice origin that holds the whole box, if one does.
    pub fn octants(&self) -> (signs: Option<OctantSigns>)
        ensures
            signs == self.spec_octants_about(Vec3::zero()),
    {
        self.octants_about(Vec3 { x: 0, y: 0, z: 0 })
    }

    /// The octant of `origin` that holds the whole box, if one does.
    pub fn octants_about(&self, origin: Vec3) -> (signs: Option<OctantSigns>)
        ensures
            signs == self.spec_octants_about(origin),
    {
        let x_p = self.min.x > origin.x && self.max.x > origin.x;
        let x_n = self.min.x < origin.x && self.max.x < origin.x;
        let y_p = self.min.y > origin.y && self.max.y > origin.y;
        let y_n = self.min.y < origin.y && self.max.y < origin.y;
        let z_p = self.min.z > origin.z && self.max.z > origin.z;
        let z_n = self.min.z < origin.z && self.max.z < origin.z;
        if (x_p || x_n) && (y_p || y_n) && (z_p || z_n) {
            Some(OctantSigns { x: x_p, y: y_p, z: z_p })
        } else {
            None
        }
    }

    /// The octant of the box on the given sides of its center.
    pub fn get_octant(&self, x: bool, y: bool, z: bool) -> (b: Self)
        requires
            self.wf(),
        ensures
            b == self.spec_get_octant(x, y, z),
            b.wf(),
            self.splittable() ==> b.span() < self.span(),
    {
        let (min_x, max_x) = if x {
            (self.center_x(), self.max.x)
        } else {
            (self.min.x, self.center_x())
        };
        let (min_y, max_y) = if y {
            (self.center_y(), self.max.y)
        } else {
            (self.min.y, self.center_y())
        };
        let (min_z, max_z) = if z {
            (self.center_z(), self.max.z)
        } else {
            (self.min.z, self.center_z())
        };
        Self::new(Vec3::new(min_x, min_y, min_z), Vec3::new(max_x, max_y, max_z))
    }

    /// The box between `min` and `max`, or `None` where `min` is beyond `max`
    /// on some axis.
    pub fn try_new(min: Vec3, max: Vec3) -> (b: Option<Self>)
        ensures
            b == if min.x <= max.x && min.y <= max.y && min.z <= max.z {
                Some(BoundingBox { min, max })
            } else {
                None
            },
            b matches Some(made) ==> made.wf(),
    {
        if min.x <= max.x && min.y <= max.y && min.z <= max.z {
            Some(BoundingBox { min, max })
        } else {
            None
        }
    }

    /// Whether the box is well formed.
    pub fn is_well_formed(&self) -> (r: bool)
        ensures
            r == self.wf(),
    {
        self.min.x <= self.max.x && self.min.y <= self.max.y && self.min.z <= self.max.z
    }

    /// Whether the cube of side `size` about `offset` stays on the lattice.
    pub fn can_hold_size(size: u32, offset: Vec3) -> (r: bool)
        ensures
            r == Self::size_fits(size, offset),
    {
        let half: i64 = (size / 2) as i64;
        let side: i64 = size as i64;
        stays(offset.x as i64 - half) && stays(offset.x as i64 - half + side) && stays(
            offset.y as i64 - half,
        ) && stays(offset.y as i64 - half + side) && stays(offset.z as i64 - half) && stays(
            offset.z as i64 - half + side,
        )
    }

    /// Whether the box moved by `delta` stays on the lattice.
    pub fn can_translate(&self, delta: Vec3) -> (r: bool)
        ensures
            r == self.translatable(delta),
    {
        stays(self.min.x as i64 + delta.x as i64) && stays(self.max.x as i64 + delta.x as i64)
            && stays(self.min.y as i64 + delta.y as i64) && stays(
            self.max.y as i64 + delta.y as i64,
        ) && stays(self.min.z as i64 + delta.z as i64) && stays(self.max.z as i64 + delta.z as i64)
    }

    /// Whether the box moved back by `delta` stays on the lattice.
    pub fn can_translate_back(&self, delta: Vec3) -> (r: bool)
        ensures
            r == self.shiftable(-delta.x, -delta.y, -delta.z),
    {
        stays(self.min.x as i64 - delta.x as i64) && stays(self.max.x as i64 - delta.x as i64)
            && stays(self.min.y as i64 - delta.y as i64) && stays(
            self.max.y as i64 - delta.y as i64,
        ) && stays(self.min.z as i64 - delta.z as i64) && stays(self.max.z as i64 - delta.z as i64)
    }

    /// Whether the box lies in `outer`.
    pub fn within(&self, outer: &Self) -> (r: bool)
        ensures
            r == self.spec_within(*outer),
    {
        outer.min.x <= self.min.x && self.max.x <= outer.max.x && outer.min.y <= self.min.y
            && self.max.y <= outer.max.y && outer.min.z <= self.min.z && self.max.z
            <= outer.max.z
    }

    /// Whether the interiors of the two boxes overlap.
    pub fn intersects(&self, other: &Self) -> (r: bool)
        ensures
            r == self.spec_intersects(*other),
    {
        self.min.x < other.max.x && self.max.x > other.min.x && self.min.y < other.max.y
            && self.max.y > other.min.y && self.min.z < other.max.z && self.max.z > other.min.z
    }

    /// Whether `point` lies strictly inside the box.
    pub fn overlaps_point(&self, point: Vec3) -> (r: bool)
        ensures
            r == self.spec_overlaps_point(point),
    {
        self.min.x < point.x && point.x < self.max.x && self.min.y < point.y && point.y
            < self.max.y && self.min.z < point.z && point.z < self.max.z
    }

    /// The distance, in multiples of `dir`, at which the ray from `origin`
    /// strikes the box, or `None` when it does not.
    pub fn intersects_ray(&self, origin: Vec3, dir: Vec3) -> (hit: Option<Ratio>)
        ensures
            hit == self.spec_intersects_ray(origin, dir),
    {
        if dir.is_zero() {
            return None;
        }
        if !admits(self.min.x, self.max.x, origin.x, dir.x) || !admits(
            self.min.y,
            self.max.y,
            origin.y,
            dir.y,
        ) || !admits(self.min.z, self.max.z, origin.z, dir.z) {
            return None;
        }
        let ex = entry_bound(self.min.x, self.max.x, origin.x, dir.x);
        let ey = entry_bound(self.min.y, self.max.y, origin.y, dir.y);
        let ez = entry_bound(self.min.z, self.max.z, origin.z, dir.z);
        let lx = exit_bound(self.min.x, self.max.x, origin.x, dir.x);
        let ly = exit_bound(self.min.y, self.max.y, origin.y, dir.y);
        let lz = exit_bound(self.min.z, self.max.z, origin.z, dir.z);
        let entry = pick_later(pick_later(ex, ey), ez);
        let exit = pick_sooner(pick_sooner(lx, ly), lz);
        match (entry, exit) {
            (Some(entry), Some(exit)) => {
                if !exit.is_positive() || exit.less_than(&entry) {
                    None
                } else if !entry.is_positive() {
                    Some(exit)
                } else {
                    Some(entry)
                }
            },
            _ => None,
        }
    }

    /// The box moved back by `delta`.
    pub fn translate_back(&self, delta: Vec3) -> (b: Self)
        requires
            self.shiftable(-delta.x, -delta.y, -delta.z),
        ensures
            b == self.shifted(-delta.x, -delta.y, -delta.z),
            self.wf() ==> b.wf(),
    {
        BoundingBox {
            min: Vec3 {
                x: self.min.x - delta.x,
                y: self.min.y - delta.y,
                z: self.min.z - delta.z,
            },
            max: Vec3 {
                x: self.max.x - delta.x,
                y: self.max.y - delta.y,
                z: self.max.z - delta.z,
            },
        }
    }

    /// The box moved by `delta`.
    pub fn translate(&self, delta: Vec3) -> (b: Self)
        requires
            self.translatable(delta),
        ensures
            b == self.spec_translate(delta),
            self.wf() ==> b.wf(),
    {
        BoundingBox {
            min: Vec3 {
                x: self.min.x + delta.x,
                y: self.min.y + delta.y,
                z: self.min.z + delta.z,
            },
            max: Vec3 {
                x: self.max.x + delta.x,
                y: self.max.y + delta.y,
                z: self.max.z + delta.z,
            },
        }
    }
}

/// Whether `v` is a coordinate of the lattice.
fn stays(v: i64) -> (r: bool)
    ensures
        r == (i32::MIN <= v <= i32::MAX),
{
    -0x8000_0000 <= v && v <= 0x7fff_ffff
}

/// The lattice point halfway between `lo` and `hi`, rounded down.
fn halfway(lo: i32, hi: i32) -> (c: i32)
    requires
        lo <= hi,
    ensures
        c == midpoint(lo, hi),
        lo <= c <= hi,
{
    let d: i64 = hi as i64 - lo as i64;
    (lo as i64 + d / 2) as i32
}

/// Whether a ray may pass the slab of an axis along which it does not move.
fn admits(lo: i32, hi: i32, o: i32, d: i32) -> (r: bool)
    ensures
        r == axis_admits(lo, hi, o, d),
{
    d != 0 || (lo <= o && o <= hi)
}

/// The entry bound of one axis.
fn entry_bound(lo: i32, hi: i32, o: i32, d: i32) -> (r: Option<Ratio>)
    ensures
        r == axis_entry_bound(lo, hi, o, d),
        r matches Some(t) ==> t.wf(),
{
    if d == 0 {
        None
    } else if d > 0 {
        Some(Ratio::new(lo as i64 - o as i64, d as u32))
    } else {
        Some(Ratio::new(o as i64 - hi as i64, (-(d as i64)) as u32))
    }
}

/// The exit bound of one axis.
fn exit_bound(lo: i32, hi: i32, o: i32, d: i32) -> (r: Option<Ratio>)
    ensures
        r == axis_exit_bound(lo, hi, o, d),
        r matches Some(t) ==> t.wf(),
{
    if d == 0 {
        None
    } else if d > 0 {
        Some(Ratio::new(hi as i64 - o as i64, d as u32))
    } else {
        Some(Ratio::new(o as i64 - lo as i64, (-(d as i64)) as u32))
    }
}

/// The later of two lower bounds.
fn pick_later(a: Option<Ratio>, b: Option<Ratio>) -> (r: Option<Ratio>)
    ensures
        r == later(a, b),
{
    match (a, b) {
        (None, _) => b,
        (_, None) => a,
        (Some(x), Some(y)) => if x.less_than(&y) { b } else { a },
    }
}

/// The sooner of two upper bounds.
fn pick_sooner(a: Option<Ratio>, b: Option<Ratio>) -> (r: Option<Ratio>)
    ensures
        r == sooner(a, b),
{
    match (a, b) {
        (None, _) => b,
        (_, None) => a,
        (Some(x), Some(y)) => if y.less_than(&x) { b } else { a },
    }
}

/// The distance of a hit is a well-formed fraction.
pub proof fn lemma_hit_is_well_formed(b: BoundingBox, origin: Vec3, dir: Vec3)
    ensures
        b.spec_intersects_ray(origin, dir) matches Some(t) ==> t.wf(),
{
}

impl core::ops::Add<Vec3> for BoundingBox {
    type Output = BoundingBox;

    /// The box moved by `rhs`.
    fn add(self, rhs: Vec3) -> (b: BoundingBox) {
        self.translate(rhs)
    }
}

impl vstd::std_specs::ops::AddSpecImpl<Vec3> for BoundingBox {
    open spec fn obeys_add_spec() -> bool {
        true
    }

    open spec fn add_req(self, rhs: Vec3) -> bool {
        self.translatable(rhs)
    }

    open spec fn add_spec(self, rhs: Vec3) -> BoundingBox {
        self.spec_translate(rhs)
    }
}

impl core::ops::Sub<Vec3> for BoundingBox {
    type Output = BoundingBox;

    /// The box moved back by `rhs`.
    fn sub(self, rhs: Vec3) -> (b: BoundingBox) {
        self.translate_back(rhs)
    }
}

impl vstd::std_specs::ops::SubSpecImpl<Vec3> for BoundingBox {
    open spec fn obeys_sub_spec() -> bool {
        true
    }

    open spec fn sub_req(self, rhs: Vec3) -> bool {
        self.shiftable(-rhs.x, -rhs.y, -rhs.z)
    }

    open spec fn sub_spec(self, rhs: Vec3) -> BoundingBox {
        self.shifted(-rhs.x, -rhs.y, -rhs.z)
    }
}

impl core::ops::Add<i32> for BoundingBox {
    type Output = BoundingBox;

    /// The box moved by `rhs` along every axis.
    fn add(self, rhs: i32) -> (b: BoundingBox) {
        self.translate(Vec3 { x: rhs, y: rhs, z: rhs })
    }
}

impl vstd::std_specs::ops::AddSpecImpl<i32> for BoundingBox {
    open spec fn obeys_add_spec() -> bool {
        true
    }

    open spec fn add_req(self, rhs: i32) -> bool {
        self.shiftable(rhs as int, rhs as int, rhs as int)
    }

    open spec fn add_spec(self, rhs: i32) -> BoundingBox {
        self.shifted(rhs as int, rhs as int, rhs as int)
    }
}

impl core::ops::Sub<i32> for BoundingBox {
    type Output = BoundingBox;

    /// The box moved back by `rhs` along every axis.
    fn sub(self, rhs: i32) -> (b: BoundingBox) {
        self.translate_back(Vec3 { x: rhs, y: rhs, z: rhs })
    }
}

impl vstd::std_specs::ops::SubSpecImpl<i32> for BoundingBox {
    open spec fn obeys_sub_spec() -> bool {
        true
    }

    open spec fn sub_req(self, rhs: i32) -> bool {
        self.shiftable(-rhs, -rhs, -rhs)
    }

    open spec fn sub_spec(self, rhs: i32) -> BoundingBox {
        self.shifted(-rhs, -rhs, -rhs)
    }
}

} // verus!
