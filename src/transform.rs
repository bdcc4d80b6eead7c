//! Exact affine arithmetic between pixel grids.
//!
//! A geo-transform maps pixel `(col, row)` of a grid to CRS coordinates
//! `(x0 + col * m11 + row * m12, y0 + col * m21 + row * m22)`. Coefficients are
//! whole CRS units. The map from one grid to another is rational; it is kept
//! as integer numerators over one positive denominator, so that every floor
//! and ceiling below is exact.
use vstd::prelude::*;

verus! {

/// The six-value geo-transform of a grid, in whole CRS units.
#[derive(Clone, Copy, Debug, PartialEq, Eq, Structural)]
pub struct GeoTransform {
    pub x0: i32,
    pub m11: i16,
    pub m12: i16,
    pub y0: i32,
    pub m21: i16,
    pub m22: i16,
}

impl GeoTransform {
    /// Builds a transform from the six values `(x0, m11, m12, y0, m21, m22)`.
    pub fn from_six_tuple(gt: (i32, i16, i16, i32, i16, i16)) -> (r: GeoTransform)
        ensures
            r.x0 == gt.0 && r.m11 == gt.1 && r.m12 == gt.2,
            r.y0 == gt.3 && r.m21 == gt.4 && r.m22 == gt.5,
    {
        GeoTransform { x0: gt.0, m11: gt.1, m12: gt.2, y0: gt.3, m21: gt.4, m22: gt.5 }
    }

    /// The determinant of the linear part; zero exactly when the transform is singular.
    pub open spec fn det(self) -> int {
        self.m11 as int * self.m22 as int - self.m12 as int * self.m21 as int
    }
}

/// A map from reference pixels `(x, y)` to pixels `(u, v)` of another grid:
/// `u = (ux * x + uy * y + uc) / den` and `v = (vx * x + vy * y + vc) / den`.
#[derive(Clone, Copy, Debug, PartialEq, Eq, Structural)]
pub struct PixelMap {
    pub ux: i128,
    pub uy: i128,
    pub uc: i128,
    pub vx: i128,
    pub vy: i128,
    pub vc: i128,
    pub den: i128,
}

/// Largest magnitude of a linear coefficient of a [`PixelMap`].
pub const LINEAR_BOUND: i128 = 0x8000_0000;

/// Largest magnitude of a constant term of a [`PixelMap`].
pub const CONSTANT_BOUND: i128 = 0x1_0000_0000_0000;

impl PixelMap {
    /// The denominator is positive and every numerator coefficient is bounded,
    /// which keeps all arithmetic on reference coordinates within `i128`.
    pub open spec fn wf(self) -> bool {
        &&& 0 < self.den <= LINEAR_BOUND
        &&& -LINEAR_BOUND <= self.ux <= LINEAR_BOUND
        &&& -LINEAR_BOUND <= self.uy <= LINEAR_BOUND
        &&& -LINEAR_BOUND <= self.vx <= LINEAR_BOUND
        &&& -LINEAR_BOUND <= self.vy <= LINEAR_BOUND
        &&& -CONSTANT_BOUND <= self.uc <= CONSTANT_BOUND
        &&& -CONSTANT_BOUND <= self.vc <= CONSTANT_BOUND
    }

    /// Numerator of `u` at reference pixel `(x, y)`.
    pub open spec fn u_num(self, x: int, y: int) -> int {
        self.ux * x + self.uy * y + self.uc
    }

    /// Numerator of `v` at reference pixel `(x, y)`.
    pub open spec fn v_num(self, x: int, y: int) -> int {
        self.vx * x + self.vy * y + self.vc
    }

    /// The map whose numerators are all equal to the denominator's multiples
    /// of `x` and `y`: it sends every pixel to itself.
    pub open spec fn is_identity(self) -> bool {
        &&& self.ux == self.den && self.uy == 0 && self.uc == 0
        &&& self.vx == 0 && self.vy == self.den && self.vc == 0
    }
}

/// `v`, negated when `neg` holds.
pub open spec fn signed(neg: bool, v: int) -> int {
    if neg {
        -v
    } else {
        v
    }
}

/// The map from pixels of `reference` to pixels of `band`, both applied to
/// CRS coordinates: `inverse(band) ∘ reference`, scaled by `band`'s determinant
/// and signed so that the denominator is positive. `None` when `band` is
/// singular.
pub open spec fn pixel_map_spec(band: GeoTransform, reference: GeoTransform) -> Option<PixelMap> {
    let d = band.det();
    if d == 0 {
        None
    } else {
        let n = d < 0;
        let dx = reference.x0 - band.x0;
        let dy = reference.y0 - band.y0;
        Some(PixelMap {
            ux: signed(n, band.m22 * reference.m11 - band.m12 * reference.m21) as i128,
            uy: signed(n, band.m22 * reference.m12 - band.m12 * reference.m22) as i128,
            uc: signed(n, band.m22 * dx - band.m12 * dy) as i128,
            vx: signed(n, band.m11 * reference.m21 - band.m21 * reference.m11) as i128,
            vy: signed(n, band.m11 * reference.m22 - band.m21 * reference.m12) as i128,
            vc: signed(n, band.m11 * dy - band.m21 * dx) as i128,
            den: signed(n, d) as i128,
        })
    }
}

proof fn lemma_product_bound(a: int, b: int, bound_a: int, bound_b: int)
    requires
        -bound_a <= a <= bound_a,
        -bound_b <= b <= bound_b,
    ensures
        -(bound_a * bound_b) <= a * b <= bound_a * bound_b,
{
    assert(-(bound_a * bound_b) <= a * b <= bound_a * bound_b) by (nonlinear_arith)
        requires
            -bound_a <= a <= bound_a,
            -bound_b <= b <= bound_b,
    ;
}

/// Computes the map from pixels of `reference` to pixels of `band`.
pub fn pixel_map(band: &GeoTransform, reference: &GeoTransform) -> (r: Option<PixelMap>)
    ensures
        r == pixel_map_spec(*band, *reference),
        r matches Some(m) ==> m.wf(),
{
    let b11 = band.m11 as i128;
    let b12 = band.m12 as i128;
    let b21 = band.m21 as i128;
    let b22 = band.m22 as i128;
    let a11 = reference.m11 as i128;
    let a12 = reference.m12 as i128;
    let a21 = reference.m21 as i128;
    let a22 = reference.m22 as i128;
    let dx = reference.x0 as i128 - band.x0 as i128;
    let dy = reference.y0 as i128 - band.y0 as i128;
    proof {
        let h: int = 0x8000;
        let w: int = 0x1_0000_0000;
        lemma_product_bound(b11 as int, b22 as int, h, h);
        lemma_product_bound(b12 as int, b21 as int, h, h);
        lemma_product_bound(b22 as int, a11 as int, h, h);
        lemma_product_bound(b12 as int, a21 as int, h, h);
        lemma_product_bound(b22 as int, a12 as int, h, h);
        lemma_product_bound(b12 as int, a22 as int, h, h);
        lemma_product_bound(b11 as int, a21 as int, h, h);
        lemma_product_bound(b21 as int, a11 as int, h, h);
        lemma_product_bound(b11 as int, a22 as int, h, h);
        lemma_product_bound(b21 as int, a12 as int, h, h);
        lemma_product_bound(b22 as int, dx as int, h, w);
        lemma_product_bound(b12 as int, dy as int, h, w);
        lemma_product_bound(b11 as int, dy as int, h, w);
        lemma_product_bound(b21 as int, dx as int, h, w);
    }
    let d = b11 * b22 - b12 * b21;
    if d == 0 {
        return None;
    }
    let m = PixelMap {
        ux: b22 * a11 - b12 * a21,
        uy: b22 * a12 - b12 * a22,
        uc: b22 * dx - b12 * dy,
        vx: b11 * a21 - b21 * a11,
        vy: b11 * a22 - b21 * a12,
        vc: b11 * dy - b21 * dx,
        den: d,
    };
    if d > 0 {
        Some(m)
    } else {
        Some(PixelMap {
            ux: -m.ux,
            uy: -m.uy,
            uc: -m.uc,
            vx: -m.vx,
            vy: -m.vy,
            vc: -m.vc,
            den: -m.den,
        })
    }
}

/// A band whose transform equals the reference transform maps every
/// reference pixel to itself.
pub proof fn lemma_pixel_map_of_self_is_identity(g: GeoTransform)
    requires
        g.det() != 0,
    ensures
        pixel_map_spec(g, g) matches Some(m) && m.is_identity(),
{
    let (b11, b12, b21, b22) = (g.m11 as int, g.m12 as int, g.m21 as int, g.m22 as int);
    assert(b22 * b11 - b12 * b21 == g.det()) by (nonlinear_arith)
        requires
            g.det() == b11 * b22 - b12 * b21,
    ;
    assert(b22 * b12 - b12 * b22 == 0) by (nonlinear_arith);
    assert(b11 * b21 - b21 * b11 == 0) by (nonlinear_arith);
}

pub open spec fn min4(a: int, b: int, c: int, d: int) -> int {
    vstd::math::min(vstd::math::min(a, b), vstd::math::min(c, d))
}

pub open spec fn max4(a: int, b: int, c: int, d: int) -> int {
    vstd::math::max(vstd::math::max(a, b), vstd::math::max(c, d))
}

/// Smallest numerator of `u` over the four corners of the window.
pub open spec fn u_low(m: PixelMap, ox: int, oy: int, w: int, h: int) -> int {
    min4(m.u_num(ox, oy), m.u_num(ox + w, oy), m.u_num(ox, oy + h), m.u_num(ox + w, oy + h))
}

/// Largest numerator of `u` over the four corners of the window.
pub open spec fn u_high(m: PixelMap, ox: int, oy: int, w: int, h: int) -> int {
    max4(m.u_num(ox, oy), m.u_num(ox + w, oy), m.u_num(ox, oy + h), m.u_num(ox + w, oy + h))
}

/// Smallest numerator of `v` over the four corners of the window.
pub open spec fn v_low(m: PixelMap, ox: int, oy: int, w: int, h: int) -> int {
    min4(m.v_num(ox, oy), m.v_num(ox + w, oy), m.v_num(ox, oy + h), m.v_num(ox + w, oy + h))
}

/// Largest numerator of `v` over the four corners of the window.
pub open spec fn v_high(m: PixelMap, ox: int, oy: int, w: int, h: int) -> int {
    max4(m.v_num(ox, oy), m.v_num(ox + w, oy), m.v_num(ox, oy + h), m.v_num(ox + w, oy + h))
}

/// `n / d` rounded up, for `d > 0`.
pub open spec fn ceil_div(n: int, d: int) -> int {
    (n + d - 1) / d
}

/// The source window that holds the image of an output window: the bounding
/// box of the images of its four corners, clipped to `[0, width] x [0, height]`,
/// with its low edges rounded down and its high edges rounded up. A box with
/// nothing left after clipping gives the empty window at the origin.
pub open spec fn transform_window_spec(
    offset: (isize, isize),
    size: (usize, usize),
    m: PixelMap,
    extent: (usize, usize),
) -> ((int, int), (int, int)) {
    let (ox, oy, w, h) = (offset.0 as int, offset.1 as int, size.0 as int, size.1 as int);
    let lu = vstd::math::max(u_low(m, ox, oy, w, h), 0);
    let den = m.den as int;
    let hu = vstd::math::min(u_high(m, ox, oy, w, h), extent.0 * den);
    let lv = vstd::math::max(v_low(m, ox, oy, w, h), 0);
    let hv = vstd::math::min(v_high(m, ox, oy, w, h), extent.1 * den);
    if lu < hu && lv < hv {
        let (cu, cv) = (lu / den, lv / den);
        ((cu, cv), (ceil_div(hu, den) - cu, ceil_div(hv, den) - cv))
    } else {
        ((0, 0), (0, 0))
    }
}

pub(crate) fn u_at(m: &PixelMap, x: i128, y: i128) -> (r: i128)
    requires
        m.wf(),
        -0x4_0000_0000_0000_0000 <= x <= 0x4_0000_0000_0000_0000,
        -0x4_0000_0000_0000_0000 <= y <= 0x4_0000_0000_0000_0000,
    ensures
        r == m.u_num(x as int, y as int),
        -0x8_0000_0000_0000_0000_0000_0000 <= r <= 0x8_0000_0000_0000_0000_0000_0000,
{
    proof {
        lemma_product_bound(m.ux as int, x as int, 0x8000_0000, 0x4_0000_0000_0000_0000);
        lemma_product_bound(m.uy as int, y as int, 0x8000_0000, 0x4_0000_0000_0000_0000);
    }
    m.ux * x + m.uy * y + m.uc
}

pub(crate) fn v_at(m: &PixelMap, x: i128, y: i128) -> (r: i128)
    requires
        m.wf(),
        -0x4_0000_0000_0000_0000 <= x <= 0x4_0000_0000_0000_0000,
        -0x4_0000_0000_0000_0000 <= y <= 0x4_0000_0000_0000_0000,
    ensures
        r == m.v_num(x as int, y as int),
        -0x8_0000_0000_0000_0000_0000_0000 <= r <= 0x8_0000_0000_0000_0000_0000_0000,
{
    proof {
        lemma_product_bound(m.vx as int, x as int, 0x8000_0000, 0x4_0000_0000_0000_0000);
        lemma_product_bound(m.vy as int, y as int, 0x8000_0000, 0x4_0000_0000_0000_0000);
    }
    m.vx * x + m.vy * y + m.vc
}

fn min_i128(a: i128, b: i128) -> (r: i128)
    ensures
        r == vstd::math::min(a as int, b as int),
{
    if a < b {
        a
    } else {
        b
    }
}

fn max_i128(a: i128, b: i128) -> (r: i128)
    ensures
        r == vstd::math::max(a as int, b as int),
{
    if a < b {
        b
    } else {
        a
    }
}

/// Maps an output window of the reference grid into the grid of a band.
pub fn transform_window(
    offset: (isize, isize),
    size: (usize, usize),
    m: &PixelMap,
    extent: (usize, usize),
) -> (r: ((isize, isize), (usize, usize)))
    requires
        m.wf(),
        extent.0 <= isize::MAX,
        extent.1 <= isize::MAX,
    ensures
        r.0.0 == transform_window_spec(offset, size, *m, extent).0.0,
        r.0.1 == transform_window_spec(offset, size, *m, extent).0.1,
        r.1.0 == transform_window_spec(offset, size, *m, extent).1.0,
        r.1.1 == transform_window_spec(offset, size, *m, extent).1.1,
        0 <= r.0.0 && r.0.0 + r.1.0 <= extent.0,
        0 <= r.0.1 && r.0.1 + r.1.1 <= extent.1,
{
    let ox = offset.0 as i128;
    let oy = offset.1 as i128;
    let ex = ox + size.0 as i128;
    let ey = oy + size.1 as i128;
    let u0 = u_at(m, ox, oy);
    let u1 = u_at(m, ex, oy);
    let u2 = u_at(m, ox, ey);
    let u3 = u_at(m, ex, ey);
    let v0 = v_at(m, ox, oy);
    let v1 = v_at(m, ex, oy);
    let v2 = v_at(m, ox, ey);
    let v3 = v_at(m, ex, ey);
    let den = m.den;
    proof {
        lemma_product_bound(extent.0 as int, den as int, 0x1_0000_0000_0000_0000, 0x8000_0000);
        lemma_product_bound(extent.1 as int, den as int, 0x1_0000_0000_0000_0000, 0x8000_0000);
    }
    let wd = extent.0 as i128 * den;
    let hd = extent.1 as i128 * den;
    let lu = max_i128(min_i128(min_i128(u0, u1), min_i128(u2, u3)), 0);
    let hu = min_i128(max_i128(max_i128(u0, u1), max_i128(u2, u3)), wd);
    let lv = max_i128(min_i128(min_i128(v0, v1), min_i128(v2, v3)), 0);
    let hv = min_i128(max_i128(max_i128(v0, v1), max_i128(v2, v3)), hd);
    if lu < hu && lv < hv {
        let cu = lu / den;
        let cv = lv / den;
        let eu = (hu + den - 1) / den;
        let ev = (hv + den - 1) / den;
        proof {
            assert(hu <= extent.0 * den);
            assert(hv <= extent.1 * den);
            assert(eu <= extent.0) by (nonlinear_arith)
                requires
                    0 < hu <= extent.0 * den,
                    den > 0,
                    eu as int == (hu as int + den as int - 1) / (den as int),
            ;
            assert(ev <= extent.1) by (nonlinear_arith)
                requires
                    0 < hv <= extent.1 * den,
                    den > 0,
                    ev as int == (hv as int + den as int - 1) / (den as int),
            ;
            assert(cu <= eu) by (nonlinear_arith)
                requires
                    0 <= lu < hu,
                    den > 0,
                    cu as int == (lu as int) / (den as int),
                    eu as int == (hu as int + den as int - 1) / (den as int),
            ;
            assert(cv <= ev) by (nonlinear_arith)
                requires
                    0 <= lv < hv,
                    den > 0,
                    cv as int == (lv as int) / (den as int),
                    ev as int == (hv as int + den as int - 1) / (den as int),
            ;
        }
        ((cu as isize, cv as isize), ((eu - cu) as usize, (ev - cv) as usize))
    } else {
        ((0, 0), (0, 0))
    }
}

/// The index of the source pixel whose cell holds the rational coordinate
/// `n / den`: truncated toward zero and saturated to `usize`, so that negative
/// coordinates give index zero.
pub open spec fn saturating_index(n: int, den: int) -> int {
    if n < 0 {
        0
    } else if n / den > usize::MAX {
        usize::MAX as int
    } else {
        n / den
    }
}

/// Computes [`saturating_index`] for a numerator of `i128` and a positive denominator.
pub fn sample_index(n: i128, den: i128) -> (r: usize)
    requires
        den > 0,
    ensures
        r == saturating_index(n as int, den as int),
{
    if n < 0 {
        0
    } else {
        let q = n / den;
        if q > usize::MAX as i128 {
            usize::MAX
        } else {
            q as usize
        }
    }
}

} // verus!
