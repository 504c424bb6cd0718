use vstd::prelude::*;
use crate::frac::FracCube;
use crate::hex::Cube;

verus! {

/// Hexagon orientation: flat-top or pointy-top. Orientation affects the
/// pixel mapping only — the two use transposed basis matrices — never
/// adjacency.
#[derive(Clone, Copy, PartialEq, Eq, Structural, Debug)]
pub enum Orientation {
    Flat,
    Pointy,
}

/// The hex-to-pixel transform: orientation, per-axis size and origin.
/// Stateless: a value is immutable per query session and replaced
/// wholesale to zoom or pan.
///
/// Drawing-space arithmetic is exact: `sqrt(3)` enters the basis as the
/// rational `1351/780`, and the inverse transform is the exact rational
/// inverse of the forward one, so mapping a coordinate to drawing space
/// and back is the identity (see `lemma_pixel_roundtrip`).
#[derive(Clone, Copy, PartialEq, Eq, Structural, Debug)]
pub struct Layout {
    pub orientation: Orientation,
    pub size_x: i32,
    pub size_y: i32,
    pub origin_x: i32,
    pub origin_y: i32,
}

/// An exact point in drawing space: the coordinates are `xn/den` and
/// `yn/den`.
#[derive(Clone, Copy, PartialEq, Eq, Structural, Debug)]
pub struct PixelPoint {
    pub xn: i128,
    pub yn: i128,
    pub den: i128,
}

impl Layout {
    /// Positive sizes and a bounded frame.
    pub open spec fn wf(self) -> bool {
        1 <= self.size_x <= 1000 && 1 <= self.size_y <= 1000 && -1000000 <= self.origin_x
            <= 1000000 && -1000000 <= self.origin_y <= 1000000
    }
}

impl PixelPoint {
    /// A positive, bounded denominator and bounded coordinates.
    pub open spec fn wf(self) -> bool {
        0 < self.den <= 1000000000 && -1000000000000000 <= self.xn <= 1000000000000000
            && -1000000000000000 <= self.yn <= 1000000000000000
    }

    /// An integer position (a mouse position, say) as an exact point.
    pub fn from_ints(x: i32, y: i32) -> (p: PixelPoint)
        ensures
            p.wf(),
            p.den == 1,
            p.xn == x,
            p.yn == y,
    {
        PixelPoint { xn: x as i128, yn: y as i128, den: 1 }
    }
}

/// The forward transform, written out: what `to_pixel` computes.
pub open spec fn to_pixel_rel(l: Layout, c: Cube, p: PixelPoint) -> bool {
    p.den == 1560 && match l.orientation {
        Orientation::Pointy => p.xn == 1560 * l.origin_x + l.size_x * 1351 * (2 * c.q + c.r)
            && p.yn == 1560 * l.origin_y + 2340 * l.size_y * c.r,
        Orientation::Flat => p.xn == 1560 * l.origin_x + 2340 * l.size_x * c.q && p.yn == 1560
            * l.origin_y + l.size_y * 1351 * (c.q + 2 * c.r),
    }
}

/// The inverse transform, written out: what `pixel_to_cube` computes.
pub open spec fn pixel_to_cube_rel(l: Layout, p: PixelPoint, f: FracCube) -> bool {
    f.den == 8106 * l.size_x * l.size_y * p.den && f.sn == -f.qn - f.rn
        && match l.orientation {
        Orientation::Pointy => f.rn == (p.yn - l.origin_y * p.den) * 5404 * l.size_x && f.qn == (
        p.xn - l.origin_x * p.den) * 4680 * l.size_y - (p.yn - l.origin_y * p.den) * 2702
            * l.size_x,
        Orientation::Flat => f.qn == (p.xn - l.origin_x * p.den) * 5404 * l.size_y && f.rn == (
        p.yn - l.origin_y * p.den) * 4680 * l.size_x - (p.xn - l.origin_x * p.den) * 2702
            * l.size_y,
    }
}

impl Layout {
    /// Maps a cube coordinate to drawing space using the
    /// orientation-dependent basis scaled by `size` and translated by
    /// `origin`. Pure; safe to call from any number of readers.
    pub fn to_pixel(&self, c: Cube) -> (p: PixelPoint)
        requires
            self.wf(),
            -1000000 <= c.q <= 1000000,
            -1000000 <= c.r <= 1000000,
        ensures
            to_pixel_rel(*self, c, p),
            p.wf(),
    {
        let ox: i128 = self.origin_x as i128;
        let oy: i128 = self.origin_y as i128;
        let sx: i128 = self.size_x as i128;
        let sy: i128 = self.size_y as i128;
        let q: i128 = c.q as i128;
        let r: i128 = c.r as i128;
        proof {
            assert(crate::hex::iabs(sx * 1351 * (2 * q + r)) <= 0x1_0000_0000_0000
                && crate::hex::iabs(2340 * sy * r) <= 0x1_0000_0000_0000 && crate::hex::iabs(
                2340 * sx * q,
            ) <= 0x1_0000_0000_0000 && crate::hex::iabs(sy * 1351 * (q + 2 * r))
                <= 0x1_0000_0000_0000) by (nonlinear_arith)
                requires
                    1 <= sx <= 1000,
                    1 <= sy <= 1000,
                    -1000000 <= q <= 1000000,
                    -1000000 <= r <= 1000000,
            ;
        }
        match self.orientation {
            Orientation::Pointy => PixelPoint {
                xn: 1560 * ox + sx * 1351 * (2 * q + r),
                yn: 1560 * oy + 2340 * sy * r,
                den: 1560,
            },
            Orientation::Flat => PixelPoint {
                xn: 1560 * ox + 2340 * sx * q,
                yn: 1560 * oy + sy * 1351 * (q + 2 * r),
                den: 1560,
            },
        }
    }

    /// The inverse transform: an exact fractional cube coordinate. A
    /// caller that needs a concrete tile applies `round`. Pure.
    pub fn pixel_to_cube(&self, p: PixelPoint) -> (f: FracCube)
        requires
            self.wf(),
            p.wf(),
        ensures
            pixel_to_cube_rel(*self, p, f),
            f.wf(),
            crate::hex::iabs(f.qn as int) <= 0x100_0000_0000_0000_0000_0000_0000,
            crate::hex::iabs(f.rn as int) <= 0x100_0000_0000_0000_0000_0000_0000,
            crate::hex::iabs(f.sn as int) <= 0x200_0000_0000_0000_0000_0000_0000,
    {
        let ox: i128 = self.origin_x as i128;
        let oy: i128 = self.origin_y as i128;
        let sx: i128 = self.size_x as i128;
        let sy: i128 = self.size_y as i128;
        proof {
            assert(crate::hex::iabs(ox * p.den) <= 0x10_0000_0000_0000_0000 && crate::hex::iabs(
                oy * p.den,
            ) <= 0x10_0000_0000_0000_0000) by (nonlinear_arith)
                requires
                    -1000000 <= ox <= 1000000,
                    -1000000 <= oy <= 1000000,
                    0 < p.den <= 1000000000,
            ;
        }
        let dx: i128 = p.xn - ox * p.den;
        let dy: i128 = p.yn - oy * p.den;
        proof {
            assert(0 < 8106 * sx * sy <= 0x1_0000_0000_0000 && 0 < 8106 * sx * sy * p.den
                <= 0x1000_0000_0000_0000_0000_0000) by (nonlinear_arith)
                requires
                    1 <= sx <= 1000,
                    1 <= sy <= 1000,
                    0 < p.den <= 1000000000,
            ;
            assert(crate::hex::iabs(dx as int) <= 0x10_0000_0000_0000_0000 && crate::hex::iabs(
                dy as int,
            ) <= 0x10_0000_0000_0000_0000) by (nonlinear_arith)
                requires
                    dx == p.xn - ox * p.den,
                    dy == p.yn - oy * p.den,
                    -1000000 <= ox <= 1000000,
                    -1000000 <= oy <= 1000000,
                    0 < p.den <= 1000000000,
                    -1000000000000000 <= p.xn <= 1000000000000000,
                    -1000000000000000 <= p.yn <= 1000000000000000,
            ;
            assert(crate::hex::iabs(dx * 4680 * sy) <= 0x80_0000_0000_0000_0000_0000_0000
                && crate::hex::iabs(dx * 5404 * sy) <= 0x80_0000_0000_0000_0000_0000_0000
                && crate::hex::iabs(dx * 2702 * sy) <= 0x80_0000_0000_0000_0000_0000_0000
                && crate::hex::iabs(dy * 4680 * sx) <= 0x80_0000_0000_0000_0000_0000_0000
                && crate::hex::iabs(dy * 5404 * sx) <= 0x80_0000_0000_0000_0000_0000_0000
                && crate::hex::iabs(dy * 2702 * sx) <= 0x80_0000_0000_0000_0000_0000_0000)
                by (nonlinear_arith)
                requires
                    crate::hex::iabs(dx as int) <= 0x10_0000_0000_0000_0000,
                    crate::hex::iabs(dy as int) <= 0x10_0000_0000_0000_0000,
                    1 <= sx <= 1000,
                    1 <= sy <= 1000,
            ;
        }
        let den: i128 = 8106 * sx * sy * p.den;
        let (qn, rn): (i128, i128) = match self.orientation {
            Orientation::Pointy => (dx * 4680 * sy - dy * 2702 * sx, dy * 5404 * sx),
            Orientation::Flat => (dx * 5404 * sy, dy * 4680 * sx - dx * 2702 * sy),
        };
        let f = FracCube { qn, rn, sn: -qn - rn, den };
        f
    }
}

/// Mapping an integer coordinate into drawing space and back, in either
/// orientation, yields a fraction that is exactly the original coordinate;
/// `round` therefore returns that coordinate unchanged.
pub proof fn lemma_pixel_roundtrip(l: Layout, c: Cube, p: PixelPoint, f: FracCube)
    requires
        l.wf(),
        c.wf(),
        -1000000 <= c.q <= 1000000,
        -1000000 <= c.r <= 1000000,
        to_pixel_rel(l, c, p),
        pixel_to_cube_rel(l, p, f),
    ensures
        f.den > 0,
        f.qn == c.q * f.den,
        f.rn == c.r * f.den,
        f.sn == c.s * f.den,
{
    let sx = l.size_x as int;
    let sy = l.size_y as int;
    let dx = p.xn - l.origin_x * p.den;
    let dy = p.yn - l.origin_y * p.den;
    assert(f.den == 12645360 * sx * sy) by (nonlinear_arith)
        requires
            f.den == 8106 * sx * sy * p.den,
            p.den == 1560,
    ;
    assert(f.den > 0) by (nonlinear_arith)
        requires
            f.den == 12645360 * sx * sy,
            1 <= sx,
            1 <= sy,
    ;
    match l.orientation {
        Orientation::Pointy => {
            assert(dx == sx * 1351 * (2 * c.q + c.r)) by (nonlinear_arith)
                requires
                    p.xn == 1560 * l.origin_x + sx * 1351 * (2 * c.q + c.r),
                    dx == p.xn - l.origin_x * p.den,
                    p.den == 1560,
            ;
            assert(dy == 2340 * sy * c.r) by (nonlinear_arith)
                requires
                    p.yn == 1560 * l.origin_y + 2340 * sy * c.r,
                    dy == p.yn - l.origin_y * p.den,
                    p.den == 1560,
            ;
            assert(f.rn == c.r * (12645360 * sx * sy)) by (nonlinear_arith)
                requires
                    f.rn == dy * 5404 * sx,
                    dy == 2340 * sy * c.r,
            ;
            assert(f.qn == c.q * (12645360 * sx * sy)) by (nonlinear_arith)
                requires
                    f.qn == dx * 4680 * sy - dy * 2702 * sx,
                    dx == sx * 1351 * (2 * c.q + c.r),
                    dy == 2340 * sy * c.r,
            ;
        },
        Orientation::Flat => {
            assert(dx == 2340 * sx * c.q) by (nonlinear_arith)
                requires
                    p.xn == 1560 * l.origin_x + 2340 * sx * c.q,
                    dx == p.xn - l.origin_x * p.den,
                    p.den == 1560,
            ;
            assert(dy == sy * 1351 * (c.q + 2 * c.r)) by (nonlinear_arith)
                requires
                    p.yn == 1560 * l.origin_y + sy * 1351 * (c.q + 2 * c.r),
                    dy == p.yn - l.origin_y * p.den,
                    p.den == 1560,
            ;
            assert(f.qn == c.q * (12645360 * sx * sy)) by (nonlinear_arith)
                requires
                    f.qn == dx * 5404 * sy,
                    dx == 2340 * sx * c.q,
            ;
            assert(f.rn == c.r * (12645360 * sx * sy)) by (nonlinear_arith)
                requires
                    f.rn == dy * 4680 * sx - dx * 2702 * sy,
                    dy == sy * 1351 * (c.q + 2 * c.r),
                    dx == 2340 * sx * c.q,
            ;
        },
    }
    assert(f.sn == c.s * f.den) by (nonlinear_arith)
        requires
            f.sn == -f.qn - f.rn,
            f.qn == c.q * f.den,
            f.rn == c.r * f.den,
            c.q + c.r + c.s == 0,
    ;
}

/// The inverse transform has exactly one solution for a given layout and
/// point: every field of the fraction is forced by the equations.
pub proof fn lemma_pixel_to_cube_unique(l: Layout, p: PixelPoint, f1: FracCube, f2: FracCube)
    requires
        pixel_to_cube_rel(l, p, f1),
        pixel_to_cube_rel(l, p, f2),
    ensures
        f1 == f2,
{
}

/// Resolves an exact drawing-space point (a pointer position) to the tile
/// under it: the inverse transform followed by invariant-restoring
/// rounding. Deterministic: `Some` exactly when the fractional preimage
/// lies in the supported range, and then the rounding of that preimage;
/// `None` exactly when it lies outside.
pub fn resolve_pixel(l: &Layout, p: PixelPoint) -> (r: Option<Cube>)
    requires
        l.wf(),
        p.wf(),
    ensures
        match r {
            Some(c) => c.wf() && forall|f: FracCube|
                pixel_to_cube_rel(*l, p, f) ==> (f.wf() && f.in_range(1000000) && (
                c.q as int,
                c.r as int,
                c.s as int,
            ) == crate::frac::round_spec(f)),
            None => forall|f: FracCube| pixel_to_cube_rel(*l, p, f) ==> !f.in_range(1000000),
        },
        (exists|f: FracCube| pixel_to_cube_rel(*l, p, f) && f.in_range(1000000)) ==> r is Some,
{
    let f = l.pixel_to_cube(p);
    let bound: i128 = 1000000 * f.den;
    let aq = if f.qn < 0 { -f.qn } else { f.qn };
    let ar = if f.rn < 0 { -f.rn } else { f.rn };
    let sa = if f.sn < 0 { -f.sn } else { f.sn };
    if aq <= bound && ar <= bound && sa <= bound {
        let c = f.round();
        proof {
            assert forall|g: FracCube| pixel_to_cube_rel(*l, p, g) implies (g.wf() && g.in_range(
                1000000,
            ) && (c.q as int, c.r as int, c.s as int) == crate::frac::round_spec(g)) by {
                lemma_pixel_to_cube_unique(*l, p, g, f);
            }
        }
        Some(c)
    } else {
        proof {
            assert(!f.in_range(1000000));
            assert forall|g: FracCube| pixel_to_cube_rel(*l, p, g) implies !g.in_range(
                1000000,
            ) by {
                lemma_pixel_to_cube_unique(*l, p, g, f);
            }
        }
        None
    }
}

} // verus!
