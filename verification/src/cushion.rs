//! The cushion rasterizer: paint a background, then fill every layout
//! rectangle, parents before children, with its base color under a
//! Lambertian light whose surface normal comes from the accumulated
//! cushion coefficients.
//!
//! All lighting arithmetic is in integers: light directions and cosines
//! in millionths, light strengths in thousandths.

use vstd::prelude::*;

verus! {

use crate::layout::LayoutRect;
use crate::layout::Surface;
use crate::layout::surf_bounded;
use crate::layout::RIDGE_STEP;
use crate::layout::DEPTH_LIMIT;
use crate::colors::AppColor;
use crate::colors::ColorSettings;
use crate::colors::color_wf;
use crate::tree::FileTree;
use crate::geom::COORD_LIMIT;
use crate::geom::Rect;
use vstd::string::StringSliceAdditionalSpecFns;

/// Cushion shading parameters.
#[derive(Clone, Copy, Debug)]
pub struct CushionConfig {
    /// Ambient light intensity (thousandths).
    pub ambient_milli: i64,
    /// Diffuse light intensity (thousandths).
    pub diffuse_milli: i64,
    /// Light direction, in millionths of a unit vector.
    pub light_x_micro: i64,
    pub light_y_micro: i64,
    pub light_z_micro: i64,
    /// Approximate the per-pixel normal length by a power of two instead
    /// of a full integer square root.
    pub fast_lighting: bool,
}

impl CushionConfig {
    pub open spec fn wf(self) -> bool {
        &&& 0 <= self.ambient_milli <= 1000
        &&& 0 <= self.diffuse_milli <= 1000
        &&& -2000000 <= self.light_x_micro <= 2000000
        &&& -2000000 <= self.light_y_micro <= 2000000
        &&& -2000000 <= self.light_z_micro <= 2000000
    }
}

impl Default for CushionConfig {
    /// Light from just off overhead, low ambient, strong diffuse: the
    /// direction (1, 2, 10) normalized.
    fn default() -> (c: CushionConfig)
        ensures
            c.wf(),
            c.ambient_milli == 260,
            c.diffuse_milli == 920,
            c.light_x_micro == 97590,
            c.light_y_micro == 195180,
            c.light_z_micro == 975900,
            !c.fast_lighting,
    {
        CushionConfig {
            ambient_milli: 260,
            diffuse_milli: 920,
            light_x_micro: 97590,
            light_y_micro: 195180,
            light_z_micro: 975900,
            fast_lighting: false,
        }
    }
}

/// A value clamped into an interval.
pub open spec fn spec_clamp(v: int, lo: int, hi: int) -> int {
    if v < lo {
        lo
    } else if v > hi {
        hi
    } else {
        v
    }
}

/// The integer square root: the largest `r` with `r * r <= x`.
pub open spec fn spec_isqrt(x: int) -> int {
    choose|r: int| 0 <= r && #[trigger] (r * r) <= x && x < (r + 1) * (r + 1)
}

/// Every non-negative integer has an integer square root.
pub proof fn lemma_isqrt_exists(x: int)
    requires
        0 <= x,
    ensures
        0 <= spec_isqrt(x),
        spec_isqrt(x) * spec_isqrt(x) <= x,
        x < (spec_isqrt(x) + 1) * (spec_isqrt(x) + 1),
    decreases x,
{
    if x == 0 {
        assert(0 <= 0 && #[trigger] (0int * 0int) <= x && x < (0 + 1) * (0 + 1))
            by (nonlinear_arith)
            requires
                x == 0,
        ;
    } else {
        lemma_isqrt_exists(x - 1);
        let r0 = spec_isqrt(x - 1);
        if x < (r0 + 1) * (r0 + 1) {
            assert(0 <= r0 && r0 * r0 <= x && x < (r0 + 1) * (r0 + 1));
        } else {
            // x == (r0 + 1)^2 exactly
            assert(x == (r0 + 1) * (r0 + 1));
            assert((r0 + 1) * (r0 + 1) <= x && x < (r0 + 2) * (r0 + 2)) by (nonlinear_arith)
                requires
                    x == (r0 + 1) * (r0 + 1) && 0 <= r0,
            ;
            assert(0 <= r0 + 1 && (r0 + 1) * (r0 + 1) <= x && x < ((r0 + 1) + 1) * ((r0 + 1)
                + 1));
        }
    }
}

/// Compute the integer square root by bisection.
#[verifier::loop_isolation(false)]
pub fn isqrt(x: u64) -> (r: u64)
    ensures
        r * r <= x,
        x < (r + 1) * (r + 1),
        r == spec_isqrt(x as int),
        r <= 4294967296,
{
    let mut lo: u64 = 0;
    let mut hi: u64 = 4294967296;
    proof {
        assert((4294967296int) * (4294967296int) > x as int) by (nonlinear_arith)
            requires
                x <= 0xFFFF_FFFF_FFFF_FFFF,
        ;
    }
    while lo + 1 < hi
        invariant
            lo < hi <= 4294967296,
            (lo as int) * (lo as int) <= x as int,
            (hi as int) * (hi as int) > x as int,
        decreases hi - lo,
    {
        let mid = lo + (hi - lo) / 2;
        proof {
            assert((mid as int) * (mid as int) <= 0x1_0000_0000_0000_0000) by (nonlinear_arith)
                requires
                    mid <= 4294967296,
            ;
        }
        let sq: u128 = (mid as u128) * (mid as u128);
        if sq <= x as u128 {
            lo = mid;
        } else {
            hi = mid;
        }
    }
    proof {
        lemma_isqrt_exists(x as int);
        let s = spec_isqrt(x as int);
        // both lo and s are the unique integer square root
        assert(lo as int == s) by (nonlinear_arith)
            requires
                0 <= s && s * s <= x as int && (x as int) < (s + 1) * (s + 1) && (lo as int) * (
                lo as int) <= x as int && (lo as int + 1) * (lo as int + 1) > x as int && 0 <= lo,
        ;
    }
    lo
}

/// The cheaper normal length used in fast-lighting mode: an integer
/// square root at reduced precision (4096 squared-micro-units per step).
pub open spec fn spec_fast_len(m: int) -> int {
    let c = spec_isqrt(m / 4096) * 64;
    if c < 1 {
        1
    } else {
        c
    }
}

/// Compute [`spec_fast_len`].
pub fn fast_len(m: u64) -> (r: i64)
    requires
        m <= 0x4000_0000_0000_0000,
    ensures
        r == spec_fast_len(m as int),
        1 <= r <= 3000000000,
{
    let q = isqrt(m / 4096);
    proof {
        vstd::arithmetic::div_mod::lemma_div_pos_is_pos(m as int, 4096int);
        vstd::arithmetic::div_mod::lemma_div_is_ordered(
            m as int,
            0x4000_0000_0000_0000int,
            4096int,
        );
        assert(q as int <= 33554432 && 64 * (q as int) <= 3000000000) by (nonlinear_arith)
            requires
                (q as int) * (q as int) <= (m as int) / 4096 && (m as int) / 4096
                    <= 0x4_0000_0000_0000 && 0 <= q,
        ;
    }
    let c = (q as i64) * 64;
    if c < 1 {
        1
    } else {
        c
    }
}

/// The clamped x-component of the surface normal at pixel center
/// `px + 1/2`: `-(2*sx2*(px + 1/2) + sx1)` in millionths.
pub open spec fn normal_part(s1: int, s2: int, p: int) -> int {
    spec_clamp(-(s2 * (2 * p + 1) + s1), -1000000000, 1000000000)
}

/// Lambert intensity in millionths at one pixel: ambient plus diffuse
/// times the clamped cosine between the cushion normal and the light.
pub open spec fn spec_intensity(
    ambient: int,
    diffuse: int,
    elx: int,
    ely: int,
    elz: int,
    fast: bool,
    s: Surface,
    px: int,
    py: int,
) -> int {
    let nx = normal_part(s.sx1 as int, s.sx2 as int, px);
    let ny = normal_part(s.sy1 as int, s.sy2 as int, py);
    let m = nx * nx + ny * ny + 1000000000000;
    let nlen = if fast {
        spec_fast_len(m)
    } else {
        spec_isqrt(m)
    };
    let dot = nx * elx + ny * ely + 1000000 * elz;
    let lam = if dot < 0 {
        0int
    } else {
        dot
    };
    let cos = spec_clamp(lam / nlen, 0, 1000000);
    spec_clamp(ambient * 1000 + diffuse * cos / 1000, 0, 1000000)
}

/// One shaded 8-bit channel: the base channel (thousandths) times the
/// intensity (millionths), mapped onto 0..=255.
pub open spec fn spec_shade_channel(base: int, intensity: int) -> int {
    base * intensity * 255 / 1000000000
}

/// The intensity never falls below the (clamped) ambient floor.
pub proof fn lemma_intensity_ambient_floor(
    ambient: int,
    diffuse: int,
    elx: int,
    ely: int,
    elz: int,
    fast: bool,
    s: Surface,
    px: int,
    py: int,
)
    requires
        0 <= ambient <= 1000,
        0 <= diffuse <= 1000,
    ensures
        spec_intensity(ambient, diffuse, elx, ely, elz, fast, s, px, py) >= spec_clamp(
            ambient * 1000,
            0,
            1000000,
        ),
{
    let nx = normal_part(s.sx1 as int, s.sx2 as int, px);
    let ny = normal_part(s.sy1 as int, s.sy2 as int, py);
    let m = nx * nx + ny * ny + 1000000000000;
    assert(m >= 1000000000000) by (nonlinear_arith)
        requires
            m == nx * nx + ny * ny + 1000000000000,
    ;
    let nlen = if fast {
        spec_fast_len(m)
    } else {
        spec_isqrt(m)
    };
    if fast {
        assert(nlen >= 1);
    } else {
        lemma_isqrt_exists(m);
        assert(nlen >= 1) by (nonlinear_arith)
            requires
                0 <= nlen && nlen * nlen <= m && m < (nlen + 1) * (nlen + 1) && m
                    >= 1000000000000,
        ;
    }
    let dot = nx * elx + ny * ely + 1000000 * elz;
    let lam = if dot < 0 {
        0int
    } else {
        dot
    };
    vstd::arithmetic::div_mod::lemma_div_pos_is_pos(lam, nlen);
    let cos = spec_clamp(lam / nlen, 0, 1000000);
    vstd::arithmetic::div_mod::lemma_div_pos_is_pos(diffuse * cos, 1000int);
    assert(diffuse * cos >= 0) by (nonlinear_arith)
        requires
            0 <= diffuse && 0 <= cos,
    ;
}

/// For a fixed normal length, a larger dot product never darkens the
/// pixel: the Lambert term is monotone.
pub proof fn lemma_intensity_monotone(
    ambient: int,
    diffuse: int,
    dot1: int,
    dot2: int,
    nlen: int,
)
    requires
        0 <= ambient <= 1000,
        0 <= diffuse <= 1000,
        1 <= nlen,
        dot1 <= dot2,
    ensures
        ({
            let lam1 = if dot1 < 0 {
                0int
            } else {
                dot1
            };
            let lam2 = if dot2 < 0 {
                0int
            } else {
                dot2
            };
            let cos1 = spec_clamp(lam1 / nlen, 0, 1000000);
            let cos2 = spec_clamp(lam2 / nlen, 0, 1000000);
            spec_clamp(ambient * 1000 + diffuse * cos1 / 1000, 0, 1000000) <= spec_clamp(
                ambient * 1000 + diffuse * cos2 / 1000,
                0,
                1000000,
            )
        }),
{
    let lam1 = if dot1 < 0 {
        0int
    } else {
        dot1
    };
    let lam2 = if dot2 < 0 {
        0int
    } else {
        dot2
    };
    vstd::arithmetic::div_mod::lemma_div_is_ordered(lam1, lam2, nlen);
    let cos1 = spec_clamp(lam1 / nlen, 0, 1000000);
    let cos2 = spec_clamp(lam2 / nlen, 0, 1000000);
    assert(diffuse * cos1 <= diffuse * cos2) by (nonlinear_arith)
        requires
            0 <= diffuse && cos1 <= cos2,
    ;
    vstd::arithmetic::div_mod::lemma_div_is_ordered(diffuse * cos1, diffuse * cos2, 1000int);
}

/// Compute the intensity at one pixel in executable integers, exactly
/// matching [`spec_intensity`].
fn intensity_at(
    ambient: i64,
    diffuse: i64,
    elx: i64,
    ely: i64,
    elz: i64,
    fast: bool,
    s: Surface,
    px: usize,
    py: usize,
) -> (r: i64)
    requires
        0 <= ambient <= 1000,
        0 <= diffuse <= 1000,
        -2000000 <= elx <= 2000000,
        -2000000 <= ely <= 2000000,
        -2000000 <= elz <= 2000000,
        surf_bounded(s, DEPTH_LIMIT as int + 1),
        px <= COORD_LIMIT,
        py <= COORD_LIMIT,
    ensures
        r == spec_intensity(
            ambient as int,
            diffuse as int,
            elx as int,
            ely as int,
            elz as int,
            fast,
            s,
            px as int,
            py as int,
        ),
        0 <= r <= 1000000,
{
    let nx = normal_exec(s.sx1, s.sx2, px);
    let ny = normal_exec(s.sy1, s.sy2, py);
    proof {
        assert(nx * nx <= 1000000000 * 1000000000 && ny * ny <= 1000000000 * 1000000000 && 0
            <= nx * nx && 0 <= ny * ny) by (nonlinear_arith)
            requires
                -1000000000 <= nx <= 1000000000 && -1000000000 <= ny <= 1000000000,
        ;
        assert(-2000000000000000int <= nx * elx <= 2000000000000000int
            && -2000000000000000int <= ny * ely <= 2000000000000000int
            && -2000000000000000int <= 1000000 * (elz as int) <= 2000000000000000int)
            by (nonlinear_arith)
            requires
                -1000000000 <= nx <= 1000000000 && -1000000000 <= ny <= 1000000000 && -2000000
                    <= elx <= 2000000 && -2000000 <= ely <= 2000000 && -2000000 <= elz
                    <= 2000000,
        ;
    }
    let m: i64 = nx * nx + ny * ny + 1000000000000;
    let nlen: i64 = if fast {
        fast_len(m as u64)
    } else {
        let q = isqrt(m as u64);
        proof {
            assert((q as int) * (q as int) <= m as int);
            assert(q as int <= 2000000000) by (nonlinear_arith)
                requires
                    (q as int) * (q as int) <= m as int && m <= 3000000000000000000 && 0 <= q,
        ;
        }
        q as i64
    };
    proof {
        if fast {
        } else {
            lemma_isqrt_exists(m as int);
            assert(nlen >= 1) by (nonlinear_arith)
                requires
                    0 <= nlen && (nlen as int) * (nlen as int) <= m as int && (m as int) < (
                    nlen as int + 1) * (nlen as int + 1) && m >= 1000000000000,
            ;
        }
    }
    let dot: i64 = nx * elx + ny * ely + 1000000 * elz;
    let lam: i64 = if dot < 0 {
        0
    } else {
        dot
    };
    proof {
        vstd::arithmetic::div_mod::lemma_div_pos_is_pos(lam as int, nlen as int);
    }
    let cos_raw = lam / nlen;
    let cos: i64 = if cos_raw > 1000000 {
        1000000
    } else {
        cos_raw
    };
    proof {
        assert(0 <= diffuse * cos <= 1000 * 1000000) by (nonlinear_arith)
            requires
                0 <= diffuse <= 1000 && 0 <= cos <= 1000000,
        ;
        vstd::arithmetic::div_mod::lemma_div_pos_is_pos((diffuse as int) * (cos as int),
            1000int);
        vstd::arithmetic::div_mod::lemma_div_is_ordered(
            (diffuse as int) * (cos as int),
            1000000000int,
            1000int,
        );
    }
    let raw = ambient * 1000 + diffuse * cos / 1000;
    if raw > 1000000 {
        1000000
    } else {
        raw
    }
}

/// Index of channel `c` of pixel `(px, py)` in a row-major RGBA buffer
/// of width `w`.
pub open spec fn pix_idx(w: int, px: int, py: int, c: int) -> int {
    (py * w + px) * 4 + c
}

/// Pixel `(px, py)` falls inside the rectangle once its bounds are
/// clamped to the buffer.
pub open spec fn covers(r: LayoutRect, w: int, h: int, px: int, py: int) -> bool {
    &&& spec_clamp(r.x as int, 0, w) <= px < spec_clamp(r.x + r.w, 0, w)
    &&& spec_clamp(r.y as int, 0, h) <= py < spec_clamp(r.y + r.h, 0, h)
}

/// The index of the last rectangle covering the pixel, or `-1`.
pub open spec fn last_cover(rs: Seq<LayoutRect>, w: int, h: int, px: int, py: int) -> int
    decreases rs.len(),
{
    if rs.len() == 0 {
        -1
    } else if covers(rs.last(), w, h, px, py) {
        rs.len() - 1
    } else {
        last_cover(rs.drop_last(), w, h, px, py)
    }
}

/// The last-cover index is either absent or a valid index.
proof fn lemma_last_cover_bounds(rs: Seq<LayoutRect>, w: int, h: int, px: int, py: int)
    ensures
        -1 <= last_cover(rs, w, h, px, py) < rs.len(),
    decreases rs.len(),
{
    if rs.len() > 0 && !covers(rs.last(), w, h, px, py) {
        lemma_last_cover_bounds(rs.drop_last(), w, h, px, py);
    }
}

/// The four bytes of pixel `(px, py)` in `buf` are the base color shaded
/// with the given intensity, fully opaque.
pub open spec fn pixel_shaded(
    buf: Seq<u8>,
    w: int,
    px: int,
    py: int,
    base: AppColor,
    inten: int,
) -> bool {
    &&& buf[pix_idx(w, px, py, 0)] == spec_shade_channel(base.r as int, inten)
    &&& buf[pix_idx(w, px, py, 1)] == spec_shade_channel(base.g as int, inten)
    &&& buf[pix_idx(w, px, py, 2)] == spec_shade_channel(base.b as int, inten)
    &&& buf[pix_idx(w, px, py, 3)] == 255
}

/// The four bytes of pixel `(px, py)` agree between two buffers.
pub open spec fn pixel_same(a: Seq<u8>, b: Seq<u8>, w: int, px: int, py: int) -> bool {
    &&& a[pix_idx(w, px, py, 0)] == b[pix_idx(w, px, py, 0)]
    &&& a[pix_idx(w, px, py, 1)] == b[pix_idx(w, px, py, 1)]
    &&& a[pix_idx(w, px, py, 2)] == b[pix_idx(w, px, py, 2)]
    &&& a[pix_idx(w, px, py, 3)] == b[pix_idx(w, px, py, 3)]
}

/// The four bytes of pixel `(px, py)` hold the opaque dark background.
pub open spec fn pixel_background(buf: Seq<u8>, w: int, px: int, py: int) -> bool {
    &&& buf[pix_idx(w, px, py, 0)] == 20
    &&& buf[pix_idx(w, px, py, 1)] == 22
    &&& buf[pix_idx(w, px, py, 2)] == 28
    &&& buf[pix_idx(w, px, py, 3)] == 255
}

/// The byte the background holds at channel `c` of any pixel.
pub open spec fn background_byte(c: int) -> u8 {
    if c == 0 {
        20u8
    } else if c == 1 {
        22u8
    } else if c == 2 {
        28u8
    } else {
        255u8
    }
}

/// Distinct pixels or channels land on distinct buffer bytes.
proof fn lemma_pix_idx_inj(w: int, p1: int, q1: int, c1: int, p2: int, q2: int, c2: int)
    requires
        1 <= w,
        0 <= p1 < w,
        0 <= p2 < w,
        0 <= q1,
        0 <= q2,
        0 <= c1 < 4,
        0 <= c2 < 4,
        p1 != p2 || q1 != q2 || c1 != c2,
    ensures
        pix_idx(w, p1, q1, c1) != pix_idx(w, p2, q2, c2),
{
    if p1 != p2 || q1 != q2 {
        assert(q1 * w + p1 != q2 * w + p2) by (nonlinear_arith)
            requires
                1 <= w && 0 <= p1 < w && 0 <= p2 < w && 0 <= q1 && 0 <= q2 && (p1 != p2 || q1
                    != q2),
        ;
        assert((q1 * w + p1) * 4 + c1 != (q2 * w + p2) * 4 + c2) by (nonlinear_arith)
            requires
                q1 * w + p1 != q2 * w + p2 && 0 <= c1 < 4 && 0 <= c2 < 4,
        ;
    }
}

/// A pixel index stays inside a `w * h * 4` buffer.
proof fn lemma_pix_idx_bounds(w: int, h: int, px: int, py: int, c: int)
    requires
        1 <= w,
        0 <= px < w,
        0 <= py < h,
        0 <= c < 4,
    ensures
        0 <= pix_idx(w, px, py, c) < w * h * 4,
{
    assert(0 <= (py * w + px) * 4 + c < w * h * 4) by (nonlinear_arith)
        requires
            1 <= w && 0 <= px < w && 0 <= py < h && 0 <= c < 4,
    ;
}

/// One shaded 8-bit channel.
fn shade_channel(base: i64, inten: i64) -> (r: u8)
    requires
        0 <= base <= 1000,
        0 <= inten <= 1000000,
    ensures
        r == spec_shade_channel(base as int, inten as int),
{
    proof {
        assert(0 <= base * inten <= 1000000000 && 0 <= base * inten * 255 <= 255000000000)
            by (nonlinear_arith)
            requires
                0 <= base <= 1000 && 0 <= inten <= 1000000,
        ;
        vstd::arithmetic::div_mod::lemma_div_pos_is_pos(
            (base as int) * (inten as int) * 255,
            1000000000int,
        );
        vstd::arithmetic::div_mod::lemma_div_is_ordered(
            (base as int) * (inten as int) * 255,
            255000000000int,
            1000000000int,
        );
    }
    (base * inten * 255 / 1000000000) as u8
}

/// Fill the clamped footprint of one rectangle with its shaded base
/// color; every other pixel keeps its bytes.
#[verifier::loop_isolation(false)]
#[verifier::rlimit(100)]
fn fill_rect_shaded(
    buf: &mut Vec<u8>,
    width: usize,
    height: usize,
    r: LayoutRect,
    base: AppColor,
    ambient: i64,
    diffuse: i64,
    elx: i64,
    ely: i64,
    elz: i64,
    fast: bool,
)
    requires
        1 <= width <= COORD_LIMIT,
        1 <= height <= COORD_LIMIT,
        old(buf)@.len() == width * height * 4,
        color_wf(base),
        0 <= ambient <= 1000,
        0 <= diffuse <= 1000,
        -2000000 <= elx <= 2000000,
        -2000000 <= ely <= 2000000,
        -2000000 <= elz <= 2000000,
        surf_bounded(r.surface, DEPTH_LIMIT as int + 1),
        -4 * COORD_LIMIT <= r.x <= 4 * COORD_LIMIT,
        -4 * COORD_LIMIT <= r.y <= 4 * COORD_LIMIT,
        0 <= r.w <= COORD_LIMIT,
        0 <= r.h <= COORD_LIMIT,
    ensures
        final(buf)@.len() == old(buf)@.len(),
        forall|px: int, py: int|
            0 <= px < width && 0 <= py < height && covers(
                r,
                width as int,
                height as int,
                px,
                py,
            ) ==> #[trigger] pixel_shaded(
                final(buf)@,
                width as int,
                px,
                py,
                base,
                spec_intensity(
                    ambient as int,
                    diffuse as int,
                    elx as int,
                    ely as int,
                    elz as int,
                    fast,
                    r.surface,
                    px,
                    py,
                ),
            ),
        forall|px: int, py: int|
            0 <= px < width && 0 <= py < height && !covers(
                r,
                width as int,
                height as int,
                px,
                py,
            ) ==> #[trigger] pixel_same(final(buf)@, old(buf)@, width as int, px, py),
{
    let wi = width as i64;
    let hi = height as i64;
    let px0: usize = if r.x < 0 {
        0
    } else if r.x > wi {
        width
    } else {
        r.x as usize
    };
    let px1: usize = if r.x + r.w < 0 {
        0
    } else if r.x + r.w > wi {
        width
    } else {
        (r.x + r.w) as usize
    };
    let py0: usize = if r.y < 0 {
        0
    } else if r.y > hi {
        height
    } else {
        r.y as usize
    };
    let py1: usize = if r.y + r.h < 0 {
        0
    } else if r.y + r.h > hi {
        height
    } else {
        (r.y + r.h) as usize
    };
    let ghost buf0 = buf@;
    let mut py: usize = py0;
    while py < py1
        invariant
            py0 <= py <= if py1 > py0 {
                py1
            } else {
                py0
            },
            py <= height,
            buf@.len() == buf0.len(),
            forall|p: int, q: int|
                0 <= p < width && 0 <= q < height && covers(
                    r,
                    width as int,
                    height as int,
                    p,
                    q,
                ) && q < py ==> #[trigger] pixel_shaded(
                    buf@,
                    width as int,
                    p,
                    q,
                    base,
                    spec_intensity(
                        ambient as int,
                        diffuse as int,
                        elx as int,
                        ely as int,
                        elz as int,
                        fast,
                        r.surface,
                        p,
                        q,
                    ),
                ),
            forall|p: int, q: int|
                0 <= p < width && 0 <= q < height && !(covers(
                    r,
                    width as int,
                    height as int,
                    p,
                    q,
                ) && q < py) ==> #[trigger] pixel_same(buf@, buf0, width as int, p, q),
        decreases py1 - py,
    {
        let mut px: usize = px0;
        while px < px1
            invariant
                px0 <= px <= if px1 > px0 {
                    px1
                } else {
                    px0
                },
                px <= width,
                py < py1,
                py < height,
                buf@.len() == buf0.len(),
                forall|p: int, q: int|
                    0 <= p < width && 0 <= q < height && covers(
                        r,
                        width as int,
                        height as int,
                        p,
                        q,
                    ) && (q < py || (q == py && p < px)) ==> #[trigger] pixel_shaded(
                        buf@,
                        width as int,
                        p,
                        q,
                        base,
                        spec_intensity(
                            ambient as int,
                            diffuse as int,
                            elx as int,
                            ely as int,
                            elz as int,
                            fast,
                            r.surface,
                            p,
                            q,
                        ),
                    ),
                forall|p: int, q: int|
                    0 <= p < width && 0 <= q < height && !(covers(
                        r,
                        width as int,
                        height as int,
                        p,
                        q,
                    ) && (q < py || (q == py && p < px))) ==> #[trigger] pixel_same(
                        buf@,
                        buf0,
                        width as int,
                        p,
                        q,
                    ),
            decreases px1 - px,
        {
            let inten = intensity_at(ambient, diffuse, elx, ely, elz, fast, r.surface, px, py);
            let cr = shade_channel(base.r, inten);
            let cg = shade_channel(base.g, inten);
            let cb = shade_channel(base.b, inten);
            proof {
                lemma_pix_idx_bounds(width as int, height as int, px as int, py as int, 0);
                lemma_pix_idx_bounds(width as int, height as int, px as int, py as int, 3);
                assert((py as int * width as int + px as int) * 4 == pix_idx(
                    width as int,
                    px as int,
                    py as int,
                    0,
                ));
                assert(0 <= py * width <= 32768 * 32768 && (py * width + px) * 4 < 0x1_0000_0000)
                    by (nonlinear_arith)
                    requires
                        py < height <= 32768 && px < width <= 32768,
                ;
            }
            let ghost before = buf@;
            let idx = (py * width + px) * 4;
            buf[idx] = cr;
            buf[idx + 1] = cg;
            buf[idx + 2] = cb;
            buf[idx + 3] = 255;
            proof {
                let w = width as int;
                let pxi = px as int;
                let pyi = py as int;
                assert forall|p: int, q: int|
                    0 <= p < width && 0 <= q < height && !(p == pxi && q == pyi) implies (
                #[trigger] pixel_same(buf@, before, w, p, q)) by {
                    lemma_pix_idx_inj(w, p, q, 0, pxi, pyi, 0);
                    lemma_pix_idx_inj(w, p, q, 0, pxi, pyi, 1);
                    lemma_pix_idx_inj(w, p, q, 0, pxi, pyi, 2);
                    lemma_pix_idx_inj(w, p, q, 0, pxi, pyi, 3);
                    lemma_pix_idx_inj(w, p, q, 1, pxi, pyi, 0);
                    lemma_pix_idx_inj(w, p, q, 1, pxi, pyi, 1);
                    lemma_pix_idx_inj(w, p, q, 1, pxi, pyi, 2);
                    lemma_pix_idx_inj(w, p, q, 1, pxi, pyi, 3);
                    lemma_pix_idx_inj(w, p, q, 2, pxi, pyi, 0);
                    lemma_pix_idx_inj(w, p, q, 2, pxi, pyi, 1);
                    lemma_pix_idx_inj(w, p, q, 2, pxi, pyi, 2);
                    lemma_pix_idx_inj(w, p, q, 2, pxi, pyi, 3);
                    lemma_pix_idx_inj(w, p, q, 3, pxi, pyi, 0);
                    lemma_pix_idx_inj(w, p, q, 3, pxi, pyi, 1);
                    lemma_pix_idx_inj(w, p, q, 3, pxi, pyi, 2);
                    lemma_pix_idx_inj(w, p, q, 3, pxi, pyi, 3);
                    lemma_pix_idx_bounds(w, height as int, p, q, 0);
                    lemma_pix_idx_bounds(w, height as int, p, q, 1);
                    lemma_pix_idx_bounds(w, height as int, p, q, 2);
                    lemma_pix_idx_bounds(w, height as int, p, q, 3);
                }
                assert(pixel_shaded(
                    buf@,
                    w,
                    pxi,
                    pyi,
                    base,
                    spec_intensity(
                        ambient as int,
                        diffuse as int,
                        elx as int,
                        ely as int,
                        elz as int,
                        fast,
                        r.surface,
                        pxi,
                        pyi,
                    ),
                ));
                // re-establish both pixel invariants for the grown region
                assert forall|p: int, q: int|
                    0 <= p < width && 0 <= q < height && covers(r, w, height as int, p, q) && (q
                        < pyi || (q == pyi && p <= pxi)) implies #[trigger] pixel_shaded(
                    buf@,
                    w,
                    p,
                    q,
                    base,
                    spec_intensity(
                        ambient as int,
                        diffuse as int,
                        elx as int,
                        ely as int,
                        elz as int,
                        fast,
                        r.surface,
                        p,
                        q,
                    ),
                ) by {
                    if p == pxi && q == pyi {
                    } else {
                        assert(pixel_same(buf@, before, w, p, q));
                        assert(pixel_shaded(
                            before,
                            w,
                            p,
                            q,
                            base,
                            spec_intensity(
                                ambient as int,
                                diffuse as int,
                                elx as int,
                                ely as int,
                                elz as int,
                                fast,
                                r.surface,
                                p,
                                q,
                            ),
                        ));
                    }
                }
                assert forall|p: int, q: int|
                    0 <= p < width && 0 <= q < height && !(covers(r, w, height as int, p, q) && (
                    q < pyi || (q == pyi && p <= pxi))) implies #[trigger] pixel_same(
                    buf@,
                    buf0,
                    w,
                    p,
                    q,
                ) by {
                    assert(!(p == pxi && q == pyi));
                    assert(pixel_same(buf@, before, w, p, q));
                    assert(pixel_same(before, buf0, w, p, q));
                }
            }
            px = px + 1;
        }
        py = py + 1;
    }
}

/// One clamped normal component, computed in 128-bit then clamped.
fn normal_exec(s1: i64, s2: i64, p: usize) -> (r: i64)
    requires
        -(DEPTH_LIMIT + 1) * RIDGE_STEP <= s1 <= (DEPTH_LIMIT + 1) * RIDGE_STEP,
        -(DEPTH_LIMIT + 1) * RIDGE_STEP <= s2 <= (DEPTH_LIMIT + 1) * RIDGE_STEP,
        p <= COORD_LIMIT,
    ensures
        r == normal_part(s1 as int, s2 as int, p as int),
        -1000000000 <= r <= 1000000000,
{
    proof {
        assert(-200000000000000000000000int <= (s2 as int) * (2 * (p as int) + 1)
            <= 200000000000000000000000int) by (nonlinear_arith)
            requires
                -112750000000000000int <= s2 as int <= 112750000000000000int && 1 <= 2 * (
                p as int) + 1 <= 65537,
        ;
    }
    let prod: i128 = (s2 as i128) * ((2 * (p as i128)) + 1);
    let raw: i128 = -(prod + (s1 as i128));
    if raw < -1000000000 {
        -1000000000
    } else if raw > 1000000000 {
        1000000000
    } else {
        raw as i64
    }
}

/// The effective, normalized light direction (millionths): the
/// configured vector scaled to unit length, or a fixed default when it
/// is zero. Components are clamped to stay small.
pub open spec fn spec_norm_light(c: CushionConfig) -> (int, int, int) {
    let m = c.light_x_micro * c.light_x_micro + c.light_y_micro * c.light_y_micro
        + c.light_z_micro * c.light_z_micro;
    if m == 0 {
        (97590int, 195180int, 975900int)
    } else {
        let len = spec_isqrt(m);
        (
            spec_clamp(crate::layout::div_trunc(c.light_x_micro * 1000000, len), -2000000, 2000000),
            spec_clamp(crate::layout::div_trunc(c.light_y_micro * 1000000, len), -2000000, 2000000),
            spec_clamp(crate::layout::div_trunc(c.light_z_micro * 1000000, len), -2000000, 2000000),
        )
    }
}

/// Normalize the configured light once per rasterization pass.
fn norm_light(c: &CushionConfig) -> (r: (i64, i64, i64))
    requires
        c.wf(),
    ensures
        (r.0 as int, r.1 as int, r.2 as int) == spec_norm_light(*c),
        -2000000 <= r.0 <= 2000000,
        -2000000 <= r.1 <= 2000000,
        -2000000 <= r.2 <= 2000000,
{
    proof {
        assert(0 <= c.light_x_micro * c.light_x_micro <= 4000000000000
            && 0 <= c.light_y_micro * c.light_y_micro <= 4000000000000
            && 0 <= c.light_z_micro * c.light_z_micro <= 4000000000000) by (nonlinear_arith)
            requires
                -2000000 <= c.light_x_micro <= 2000000 && -2000000 <= c.light_y_micro <= 2000000
                    && -2000000 <= c.light_z_micro <= 2000000,
        ;
    }
    let m: i64 = c.light_x_micro * c.light_x_micro + c.light_y_micro * c.light_y_micro
        + c.light_z_micro * c.light_z_micro;
    if m == 0 {
        return (97590, 195180, 975900);
    }
    proof {
        assert(m >= 0);
        assert((m as u64) as int == m as int);
    }
    let len = isqrt(m as u64) as i64;
    proof {
        lemma_isqrt_exists(m as int);
        assert(len as int == spec_isqrt(m as int));
        assert(len >= 1) by (nonlinear_arith)
            requires
                0 <= len && (len as int) * (len as int) <= m as int && (m as int) < (len as int
                    + 1) * (len as int + 1) && m >= 1,
        ;
    }
    let ex = scaled_component(c.light_x_micro, len);
    let ey = scaled_component(c.light_y_micro, len);
    let ez = scaled_component(c.light_z_micro, len);
    (ex, ey, ez)
}

/// One light component scaled by a million and divided by the length,
/// clamped.
fn scaled_component(v: i64, len: i64) -> (r: i64)
    requires
        -2000000 <= v <= 2000000,
        1 <= len,
    ensures
        r == spec_clamp(crate::layout::div_trunc(v * 1000000, len as int), -2000000, 2000000),
        -2000000 <= r <= 2000000,
{
    proof {
        assert(0 <= (if v >= 0 { v as int } else { -(v as int) }) * 1000000 <= 2000000000000)
            by (nonlinear_arith)
            requires
                -2000000 <= v <= 2000000,
        ;
        vstd::arithmetic::div_mod::lemma_div_pos_is_pos(
            (if v >= 0 { v as int } else { -(v as int) }) * 1000000,
            len as int,
        );
        assert((-(v as int)) * 1000000 == -((v as int) * 1000000)) by (nonlinear_arith);
    }
    let raw: i64 = if v >= 0 {
        (v * 1000000) / len
    } else {
        -(((-v) * 1000000) / len)
    };
    if raw < -2000000 {
        -2000000
    } else if raw > 2000000 {
        2000000
    } else {
        raw
    }
}

/// Geometry bounds under which a rectangle list can be rasterized.
pub open spec fn raster_rects_ok(rs: Seq<LayoutRect>) -> bool {
    forall|j: int|
        0 <= j < rs.len() ==> {
            &&& -4 * COORD_LIMIT <= (#[trigger] rs[j]).x <= 4 * COORD_LIMIT
            &&& -4 * COORD_LIMIT <= rs[j].y <= 4 * COORD_LIMIT
            &&& 0 <= rs[j].w <= COORD_LIMIT
            &&& 0 <= rs[j].h <= COORD_LIMIT
            &&& surf_bounded(rs[j].surface, DEPTH_LIMIT as int + 1)
        }
}

/// The base color a rectangle's node resolves to: the directory palette
/// over the name hash for directories, the extension color (by the
/// interned extension, or none) for files.
#[verifier::opaque]
pub open spec fn spec_base_color(
    nodes: Seq<crate::tree::FileNode>,
    exts: Seq<compact_str::CompactString>,
    settings: ColorSettings,
    r: LayoutRect,
) -> (int, int, int) {
    let node = nodes[r.node.0 as int];
    if node.is_dir {
        crate::colors::spec_directory_color(
            crate::tree::cs_bytes(node.name),
            r.depth as int,
            settings.vibrancy_milli as int,
        )
    } else {
        let eid = node.extension_id as int;
        if 0 < eid < exts.len() {
            crate::colors::spec_extension_color(
                crate::tree::cs_chars(exts[eid]),
                crate::tree::cs_bytes(exts[eid]),
                settings.mode,
                settings.vibrancy_milli as int,
            )
        } else {
            crate::colors::spec_extension_color(
                ""@,
                "".spec_bytes(),
                settings.mode,
                settings.vibrancy_milli as int,
            )
        }
    }
}

/// The finished buffer at one pixel: the background where no rectangle
/// reaches, otherwise the last covering rectangle's node color shaded
/// with the exact Lambert intensity at that pixel.
#[verifier::opaque]
pub open spec fn pixel_done(
    buf: Seq<u8>,
    rs: Seq<LayoutRect>,
    nodes: Seq<crate::tree::FileNode>,
    exts: Seq<compact_str::CompactString>,
    settings: ColorSettings,
    w: int,
    h: int,
    ambient: int,
    diffuse: int,
    elx: int,
    ely: int,
    elz: int,
    fast: bool,
    px: int,
    py: int,
) -> bool {
    let lc = last_cover(rs, w, h, px, py);
    if lc == -1 {
        pixel_background(buf, w, px, py)
    } else {
        let bc = spec_base_color(nodes, exts, settings, rs[lc]);
        pixel_shaded(
            buf,
            w,
            px,
            py,
            AppColor { r: bc.0 as i64, g: bc.1 as i64, b: bc.2 as i64, a: 1000i64 },
            spec_intensity(ambient, diffuse, elx, ely, elz, fast, rs[lc].surface, px, py),
        )
    }
}

/// Rasterize the cushion treemap into a row-major RGBA byte buffer of
/// exactly `width * height * 4` bytes: an opaque dark background, then
/// every rectangle in order (parents before children, so children
/// overwrite their parents' pixels), each filled with its Lambert-shaded
/// base color.
#[verifier::loop_isolation(false)]
#[verifier::rlimit(100)]
pub fn rasterize_cushions(
    width: usize,
    height: usize,
    layout_rects: &Vec<LayoutRect>,
    tree: &FileTree,
    config: &CushionConfig,
    color_settings: &ColorSettings,
) -> (buf: Vec<u8>)
    requires
        width <= COORD_LIMIT,
        height <= COORD_LIMIT,
        tree.wf(),
        config.wf(),
        color_settings.wf(),
        crate::layout::nodes_in(layout_rects@, tree.nodes@.len() as int),
        raster_rects_ok(layout_rects@),
    ensures
        buf@.len() == width * height * 4,
        ({
            let el = spec_norm_light(*config);
            forall|px: int, py: int|
                0 <= px < width && 0 <= py < height ==> #[trigger] pixel_done(
                    buf@,
                    layout_rects@,
                    tree.nodes@,
                    tree.extensions@,
                    *color_settings,
                    width as int,
                    height as int,
                    config.ambient_milli as int,
                    config.diffuse_milli as int,
                    el.0,
                    el.1,
                    el.2,
                    config.fast_lighting,
                    px,
                    py,
                )
        }),
{
    proof {
        assert(width * height <= 0x4000_0000 && width * height * 4 <= 0x1_0000_0000)
            by (nonlinear_arith)
            requires
                width <= 32768 && height <= 32768,
        ;
    }
    let mut buf: Vec<u8> = Vec::new();
    let total = width * height;
    let mut k: usize = 0;
    while k < total
        invariant
            k <= total,
            total == width * height,
            buf@.len() == k * 4,
            forall|q: int| 0 <= q < buf@.len() ==> #[trigger] buf@[q] == background_byte(q % 4),
        decreases total - k,
    {
        let ghost prev = buf@;
        buf.push(20);
        buf.push(22);
        buf.push(28);
        buf.push(255);
        k = k + 1;
        proof {
            assert forall|q: int| 0 <= q < buf@.len() implies #[trigger] buf@[q]
                == background_byte(q % 4) by {
                if q < prev.len() {
                    assert(buf@[q] == prev[q]);
                } else {
                    let base = prev.len() as int;
                    assert(base % 4 == 0) by {
                        vstd::arithmetic::div_mod::lemma_mod_multiples_basic(
                            (k - 1) as int,
                            4int,
                        );
                        assert(base == ((k - 1) as int) * 4);
                    }
                    vstd::arithmetic::div_mod::lemma_mod_adds(base, q - base, 4int);
                    vstd::arithmetic::div_mod::lemma_small_mod((q - base) as nat, 4nat);
                }
            }
        }
    }
    if width == 0 || height == 0 {
        return buf;
    }
    let (elx, ely, elz) = norm_light(config);
    proof {
        // the fresh background satisfies the pixel model for no rectangles
        assert forall|px: int, py: int|
            0 <= px < width && 0 <= py < height implies #[trigger] pixel_done(
            buf@,
            layout_rects@.subrange(0, 0),
            tree.nodes@,
            tree.extensions@,
            *color_settings,
            width as int,
            height as int,
            config.ambient_milli as int,
            config.diffuse_milli as int,
            elx as int,
            ely as int,
            elz as int,
            config.fast_lighting,
            px,
            py,
        ) by {
            reveal(pixel_done);
            let w = width as int;
            lemma_pix_idx_bounds(w, height as int, px, py, 0);
            assert(py * w + px < width * height && 0 <= py * w + px) by (nonlinear_arith)
                requires
                    0 <= px < width && 0 <= py < height && w == width,
            ;
            let j = py * w + px;
            assert(pix_idx(w, px, py, 0) == 4 * j && pix_idx(w, px, py, 1) == 4 * j + 1
                && pix_idx(w, px, py, 2) == 4 * j + 2 && pix_idx(w, px, py, 3) == 4 * j + 3)
                by (nonlinear_arith)
                requires
                    j == py * w + px,
            ;
            assert((4 * j) % 4 == 0 && (4 * j + 1) % 4 == 1 && (4 * j + 2) % 4 == 2 && (4 * j
                + 3) % 4 == 3) by {
                vstd::arithmetic::div_mod::lemma_mod_multiples_basic(j, 4int);
                assert(4 * j == j * 4);
                vstd::arithmetic::div_mod::lemma_mod_adds(4 * j, 1, 4int);
                vstd::arithmetic::div_mod::lemma_mod_adds(4 * j, 2, 4int);
                vstd::arithmetic::div_mod::lemma_mod_adds(4 * j, 3, 4int);
                vstd::arithmetic::div_mod::lemma_small_mod(1nat, 4nat);
                vstd::arithmetic::div_mod::lemma_small_mod(2nat, 4nat);
                vstd::arithmetic::div_mod::lemma_small_mod(3nat, 4nat);
            }
            assert(buf@[4 * j] == 20 && buf@[4 * j + 1] == 22 && buf@[4 * j + 2] == 28 && buf@[4
                * j + 3] == 255);
            assert(layout_rects@.subrange(0, 0) =~= Seq::<LayoutRect>::empty());
        }
    }
    let mut i: usize = 0;
    while i < layout_rects.len()
        invariant
            i <= layout_rects@.len(),
            buf@.len() == width * height * 4,
            width >= 1,
            height >= 1,
            forall|px: int, py: int|
                0 <= px < width && 0 <= py < height ==> #[trigger] pixel_done(
                    buf@,
                    layout_rects@.subrange(0, i as int),
                    tree.nodes@,
                    tree.extensions@,
                    *color_settings,
                    width as int,
                    height as int,
                    config.ambient_milli as int,
                    config.diffuse_milli as int,
                    elx as int,
                    ely as int,
                    elz as int,
                    config.fast_lighting,
                    px,
                    py,
                ),
        decreases layout_rects@.len() - i,
    {
        let rect = layout_rects[i];
        let node = &tree.nodes[rect.node.0 as usize];
        let base: AppColor = if node.is_dir {
            crate::colors::directory_color(crate::tree::cs_str(&node.name), rect.depth,
                color_settings)
        } else {
            let eid = node.extension_id as usize;
            if eid > 0 && eid < tree.extensions.len() {
                crate::colors::extension_color(crate::tree::cs_str(&tree.extensions[eid]),
                    color_settings)
            } else {
                crate::colors::extension_color("", color_settings)
            }
        };
        let ghost before = buf@;
        fill_rect_shaded(&mut buf, width, height, rect, base, config.ambient_milli,
            config.diffuse_milli, elx, ely, elz, config.fast_lighting);
        proof {
            let w = width as int;
            let h = height as int;
            let prefix = layout_rects@.subrange(0, i as int);
            let prefix2 = layout_rects@.subrange(0, i as int + 1);
            assert(prefix2.drop_last() =~= prefix);
            assert(prefix2.last() == rect);
            // the resolved base is exactly the node's spec color
            assert((base.r as int, base.g as int, base.b as int) == spec_base_color(
                tree.nodes@,
                tree.extensions@,
                *color_settings,
                rect,
            )) by {
                reveal(spec_base_color);
            }
            assert forall|px: int, py: int|
                0 <= px < width && 0 <= py < height implies #[trigger] pixel_done(
                buf@,
                prefix2,
                tree.nodes@,
                tree.extensions@,
                *color_settings,
                w,
                h,
                config.ambient_milli as int,
                config.diffuse_milli as int,
                elx as int,
                ely as int,
                elz as int,
                config.fast_lighting,
                px,
                py,
            ) by {
                reveal(pixel_done);
                if covers(rect, w, h, px, py) {
                    assert(last_cover(prefix2, w, h, px, py) == i as int);
                    assert(pixel_shaded(
                        buf@,
                        w,
                        px,
                        py,
                        base,
                        spec_intensity(
                            config.ambient_milli as int,
                            config.diffuse_milli as int,
                            elx as int,
                            ely as int,
                            elz as int,
                            config.fast_lighting,
                            rect.surface,
                            px,
                            py,
                        ),
                    ));
                    let bc = spec_base_color(tree.nodes@, tree.extensions@, *color_settings,
                        rect);
                    assert(base == (AppColor {
                        r: bc.0 as i64,
                        g: bc.1 as i64,
                        b: bc.2 as i64,
                        a: 1000i64,
                    }));
                } else {
                    assert(last_cover(prefix2, w, h, px, py) == last_cover(prefix, w, h, px,
                        py));
                    assert(pixel_same(buf@, before, w, px, py));
                    assert(pixel_done(
                        before,
                        prefix,
                        tree.nodes@,
                        tree.extensions@,
                        *color_settings,
                        w,
                        h,
                        config.ambient_milli as int,
                        config.diffuse_milli as int,
                        elx as int,
                        ely as int,
                        elz as int,
                        config.fast_lighting,
                        px,
                        py,
                    ));
                    let lc = last_cover(prefix, w, h, px, py);
                    lemma_last_cover_bounds(prefix, w, h, px, py);
                    if lc != -1 {
                        assert(prefix2[lc] == prefix[lc]);
                    }
                }
            }
        }
        i = i + 1;
    }
    proof {
        assert(layout_rects@.subrange(0, layout_rects@.len() as int) =~= layout_rects@);
    }
    buf
}

/// The bounding rectangle of a layout rectangle, as plain geometry.
pub fn layout_to_rect(rect: &LayoutRect) -> (r: Rect)
    ensures
        r.x == rect.x,
        r.y == rect.y,
        r.w == rect.w,
        r.h == rect.h,
{
    Rect { x: rect.x, y: rect.y, w: rect.w, h: rect.h }
}

} // verus!
