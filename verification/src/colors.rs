//! Color selection: category palette, extension and directory colors,
//! with an integer HSV pipeline. Channels and saturations are carried in
//! thousandths (0..=1000).

use vstd::prelude::*;

verus! {

use crate::extensions::FileCategory;
use crate::extensions::categorize_extension;
use crate::layout::div_trunc;
use vstd::string::StringSliceAdditionalSpecFns;

/// How nodes are colored.
#[derive(Debug, Clone, Copy, PartialEq, Eq, Structural)]
pub enum ColorMode {
    Category,
    CategoryExtension,
    ExtensionHash,
}

/// User-facing color settings.
#[derive(Debug, Clone, Copy)]
pub struct ColorSettings {
    pub mode: ColorMode,
    /// Saturation boost in thousandths.
    pub vibrancy_milli: i64,
}

impl ColorSettings {
    pub open spec fn wf(self) -> bool {
        0 <= self.vibrancy_milli <= 3000
    }
}

impl Default for ColorSettings {
    fn default() -> (c: ColorSettings)
        ensures
            c.wf(),
            c.mode == ColorMode::CategoryExtension,
            c.vibrancy_milli == 1200,
    {
        ColorSettings { mode: ColorMode::CategoryExtension, vibrancy_milli: 1200 }
    }
}

/// A color with channels in thousandths (0 = black, 1000 = full).
#[derive(Debug, Clone, Copy, PartialEq, Eq, Structural)]
pub struct AppColor {
    pub r: i64,
    pub g: i64,
    pub b: i64,
    pub a: i64,
}

/// All channels in range.
pub open spec fn color_wf(c: AppColor) -> bool {
    &&& 0 <= c.r <= 1000
    &&& 0 <= c.g <= 1000
    &&& 0 <= c.b <= 1000
    &&& 0 <= c.a <= 1000
}

impl AppColor {
    /// An opaque color from three channels in thousandths.
    pub fn new(r: i64, g: i64, b: i64) -> (c: AppColor)
        requires
            0 <= r <= 1000,
            0 <= g <= 1000,
            0 <= b <= 1000,
        ensures
            c == (AppColor { r, g, b, a: 1000i64 }),
    {
        AppColor { r, g, b, a: 1000 }
    }

    /// A lighter version, for highlights.
    pub fn lighten(self, amount: i64) -> (c: AppColor)
        requires
            color_wf(self),
            0 <= amount <= 1000,
        ensures
            color_wf(c),
            c.r == (if self.r + amount > 1000 {
                1000int
            } else {
                self.r + amount
            }),
            c.g == (if self.g + amount > 1000 {
                1000int
            } else {
                self.g + amount
            }),
            c.b == (if self.b + amount > 1000 {
                1000int
            } else {
                self.b + amount
            }),
            c.a == self.a,
    {
        AppColor {
            r: if self.r + amount > 1000 {
                1000
            } else {
                self.r + amount
            },
            g: if self.g + amount > 1000 {
                1000
            } else {
                self.g + amount
            },
            b: if self.b + amount > 1000 {
                1000
            } else {
                self.b + amount
            },
            a: self.a,
        }
    }

    /// A darker version, for shadows.
    pub fn darken(self, amount: i64) -> (c: AppColor)
        requires
            color_wf(self),
            0 <= amount <= 1000,
        ensures
            color_wf(c),
            c.r == (if self.r - amount < 0 {
                0int
            } else {
                self.r - amount
            }),
            c.g == (if self.g - amount < 0 {
                0int
            } else {
                self.g - amount
            }),
            c.b == (if self.b - amount < 0 {
                0int
            } else {
                self.b - amount
            }),
            c.a == self.a,
    {
        AppColor {
            r: if self.r - amount < 0 {
                0
            } else {
                self.r - amount
            },
            g: if self.g - amount < 0 {
                0
            } else {
                self.g - amount
            },
            b: if self.b - amount < 0 {
                0
            } else {
                self.b - amount
            },
            a: self.a,
        }
    }
}

/// Product of two thousandth-fractions, as a thousandth-fraction.
pub open spec fn spec_milli_mul(a: int, b: int) -> int {
    a * b / 1000
}

/// Multiply two values in thousandths, e.g. a channel by a fraction.
pub fn milli_mul(a: i64, b: i64) -> (r: i64)
    requires
        0 <= a <= 1000,
        0 <= b <= 2000,
    ensures
        r == spec_milli_mul(a as int, b as int),
        0 <= r <= 2 * a,
        r <= 2000,
        b <= 1000 ==> r <= a,
{
    proof {
        assert(0 <= a * b <= a * 2000 && a * 2000 == 2000 * a && (b <= 1000 ==> a * b <= a * 1000
            && a * 1000 == 1000 * a)) by (nonlinear_arith)
            requires
                0 <= a && 0 <= b <= 2000,
        ;
        vstd::arithmetic::div_mod::lemma_div_pos_is_pos((a as int) * (b as int), 1000int);
        vstd::arithmetic::div_mod::lemma_div_is_ordered((a as int) * (b as int), 2000 * a,
            1000int);
        if b <= 1000 {
            vstd::arithmetic::div_mod::lemma_div_is_ordered((a as int) * (b as int), 1000 * a,
                1000int);
            vstd::arithmetic::div_mod::lemma_div_multiples_vanish(a as int, 1000int);
        }
        assert((2000 * a) / 1000 == 2 * a) by {
            vstd::arithmetic::div_mod::lemma_div_multiples_vanish(2 * a, 1000int);
            assert(1000 * (2 * a) == 2000 * a) by (nonlinear_arith);
        }
    }
    a * b / 1000
}

/// HSV to RGB with all components in thousandths; mirrors the classic
/// sextant construction.
pub open spec fn spec_hsv_to_rgb(h: int, s: int, v: int) -> (int, int, int) {
    let h6 = (h * 6) % 6000;
    let i = h6 / 1000;
    let f = h6 % 1000;
    let p = spec_milli_mul(v, 1000 - s);
    let q = spec_milli_mul(v, 1000 - spec_milli_mul(f, s));
    let t = spec_milli_mul(v, 1000 - spec_milli_mul(1000 - f, s));
    if i == 0 {
        (v, t, p)
    } else if i == 1 {
        (q, v, p)
    } else if i == 2 {
        (p, v, t)
    } else if i == 3 {
        (p, q, v)
    } else if i == 4 {
        (t, p, v)
    } else {
        (v, p, q)
    }
}

/// Convert a hue/saturation/value triple (thousandths) to a color.
pub fn hsv_to_rgb(h: i64, s: i64, v: i64) -> (c: AppColor)
    requires
        0 <= h <= 1000,
        0 <= s <= 1000,
        0 <= v <= 1000,
    ensures
        color_wf(c),
        (c.r as int, c.g as int, c.b as int) == spec_hsv_to_rgb(h as int, s as int, v as int),
        c.a == 1000,
{
    let h6 = (h * 6) % 6000;
    let i = h6 / 1000;
    let f = h6 % 1000;
    proof {
        vstd::arithmetic::div_mod::lemma_mod_division_less_than_divisor((h * 6) as int, 6000int);
        vstd::arithmetic::div_mod::lemma_mod_division_less_than_divisor(h6 as int, 1000int);
        vstd::arithmetic::div_mod::lemma_div_pos_is_pos(h6 as int, 1000int);
    }
    let p = milli_mul(v, 1000 - s);
    let q = milli_mul(v, 1000 - milli_mul(f, s));
    let t = milli_mul(v, 1000 - milli_mul(1000 - f, s));
    let (r, g, b) = if i == 0 {
        (v, t, p)
    } else if i == 1 {
        (q, v, p)
    } else if i == 2 {
        (p, v, t)
    } else if i == 3 {
        (p, q, v)
    } else if i == 4 {
        (t, p, v)
    } else {
        (v, p, q)
    };
    AppColor { r, g, b, a: 1000 }
}

/// RGB to HSV with all components in thousandths.
pub open spec fn spec_rgb_to_hsv(c: AppColor) -> (int, int, int) {
    let mx = if c.r >= c.g && c.r >= c.b {
        c.r as int
    } else if c.g >= c.b {
        c.g as int
    } else {
        c.b as int
    };
    let mn = if c.r <= c.g && c.r <= c.b {
        c.r as int
    } else if c.g <= c.b {
        c.g as int
    } else {
        c.b as int
    };
    let d = mx - mn;
    let h = if d == 0 {
        0int
    } else if mx == c.r {
        (((div_trunc((c.g - c.b) * 1000, d) % 6000) + 6000) % 6000) / 6
    } else if mx == c.g {
        (div_trunc((c.b - c.r) * 1000, d) + 2000) / 6
    } else {
        (div_trunc((c.r - c.g) * 1000, d) + 4000) / 6
    };
    let s = if mx == 0 {
        0int
    } else {
        d * 1000 / mx
    };
    (h, s, mx)
}

/// Convert a color to hue/saturation/value, all in thousandths.
pub fn rgb_to_hsv(c: AppColor) -> (hsv: (i64, i64, i64))
    requires
        color_wf(c),
    ensures
        (hsv.0 as int, hsv.1 as int, hsv.2 as int) == spec_rgb_to_hsv(c),
        0 <= hsv.0 <= 1000,
        0 <= hsv.1 <= 1000,
        0 <= hsv.2 <= 1000,
{
    let mx = if c.r >= c.g && c.r >= c.b {
        c.r
    } else if c.g >= c.b {
        c.g
    } else {
        c.b
    };
    let mn = if c.r <= c.g && c.r <= c.b {
        c.r
    } else if c.g <= c.b {
        c.g
    } else {
        c.b
    };
    let d = mx - mn;
    let h: i64 = if d == 0 {
        0
    } else if mx == c.r {
        let gb = c.g - c.b;
        let sext = if gb >= 0 {
            (gb * 1000) / d
        } else {
            -((-gb * 1000) / d)
        };
        proof {
            lemma_sextant_range(gb as int, d as int);
            vstd::arithmetic::div_mod::lemma_mod_division_less_than_divisor(
                (sext as int) % 6000 + 6000,
                6000int,
            );
            vstd::arithmetic::div_mod::lemma_mod_division_less_than_divisor(
                sext as int,
                6000int,
            );
            vstd::arithmetic::div_mod::lemma_mod_neg_neg(sext as int, 6000int);
            vstd::arithmetic::div_mod::lemma_div_pos_is_pos(
                ((sext as int) % 6000 + 6000) % 6000,
                6int,
            );
            vstd::arithmetic::div_mod::lemma_div_is_ordered(
                ((sext as int) % 6000 + 6000) % 6000,
                5999int,
                6int,
            );
        }
        (((sext % 6000) + 6000) % 6000) / 6
    } else if mx == c.g {
        let br = c.b - c.r;
        let sext = if br >= 0 {
            (br * 1000) / d
        } else {
            -((-br * 1000) / d)
        };
        proof {
            lemma_sextant_range(br as int, d as int);
        }
        (sext + 2000) / 6
    } else {
        let rg = c.r - c.g;
        let sext = if rg >= 0 {
            (rg * 1000) / d
        } else {
            -((-rg * 1000) / d)
        };
        proof {
            lemma_sextant_range(rg as int, d as int);
        }
        (sext + 4000) / 6
    };
    let s: i64 = if mx == 0 {
        0
    } else {
        proof {
            vstd::arithmetic::div_mod::lemma_div_pos_is_pos((d as int) * 1000, mx as int);
            assert(d * 1000 <= mx * 1000) by (nonlinear_arith)
                requires
                    0 <= d <= mx,
            ;
            vstd::arithmetic::div_mod::lemma_div_is_ordered(
                (d as int) * 1000,
                (mx as int) * 1000,
                mx as int,
            );
            vstd::arithmetic::div_mod::lemma_div_multiples_vanish(1000int, mx as int);
        }
        d * 1000 / mx
    };
    (h, s, mx)
}

/// A channel difference over the spread stays within one unit, so the
/// sextant offset stays within a thousand.
proof fn lemma_sextant_range(diff: int, d: int)
    requires
        1 <= d <= 1000,
        -d <= diff <= d,
    ensures
        -1000 <= div_trunc(diff * 1000, d) <= 1000,
        div_trunc(diff * 1000, d) == (if diff >= 0 {
            (diff * 1000) / d
        } else {
            -((-diff * 1000) / d)
        }),
        diff >= 0 ==> 0 <= (diff * 1000) / d <= 1000,
        diff < 0 ==> 0 <= (-diff * 1000) / d <= 1000,
        diff * 1000 <= 1000000,
        -diff * 1000 <= 1000000,
{
    assert(-(d * 1000) <= diff * 1000 <= d * 1000 && -diff * 1000 == -(diff * 1000) && d * 1000
        <= 1000000) by (nonlinear_arith)
        requires
            1 <= d <= 1000 && -d <= diff <= d,
    ;
    if diff >= 0 {
        vstd::arithmetic::div_mod::lemma_div_pos_is_pos(diff * 1000, d);
        vstd::arithmetic::div_mod::lemma_div_is_ordered(diff * 1000, d * 1000, d);
        vstd::arithmetic::div_mod::lemma_div_multiples_vanish(1000int, d);
    } else {
        vstd::arithmetic::div_mod::lemma_div_pos_is_pos(-(diff * 1000), d);
        vstd::arithmetic::div_mod::lemma_div_is_ordered(-(diff * 1000), d * 1000, d);
        vstd::arithmetic::div_mod::lemma_div_multiples_vanish(1000int, d);
    }
}

/// The 32-bit FNV-1a step: fold one byte into the running hash.
pub open spec fn fnv_step(h: u32, b: u8) -> u32 {
    ((((h ^ (b as u32)) as u64) * 16777619) % 0x1_0000_0000) as u32
}

/// The 32-bit FNV-1a hash of a byte sequence.
pub open spec fn spec_fnv(bs: Seq<u8>) -> u32
    decreases bs.len(),
{
    if bs.len() == 0 {
        2166136261u32
    } else {
        fnv_step(spec_fnv(bs.drop_last()), bs.last())
    }
}

/// Hash the bytes of a string with 32-bit FNV-1a.
#[verifier::loop_isolation(false)]
pub fn fnv_hash(s: &str) -> (h: u32)
    ensures
        h == spec_fnv(s.spec_bytes()),
{
    let bytes = s.as_bytes();
    let mut h: u32 = 2166136261;
    let mut i: usize = 0;
    while i < bytes.len()
        invariant
            i <= bytes@.len(),
            bytes@ == s.spec_bytes(),
            h == spec_fnv(bytes@.subrange(0, i as int)),
        decreases bytes@.len() - i,
    {
        let b = bytes[i];
        let x: u64 = ((h ^ (b as u32)) as u64) * 16777619;
        h = (x % 0x1_0000_0000) as u32;
        i = i + 1;
        proof {
            assert(bytes@.subrange(0, i as int).drop_last() =~= bytes@.subrange(0, i - 1));
        }
    }
    proof {
        assert(bytes@.subrange(0, bytes@.len() as int) =~= bytes@);
    }
    h
}

/// Hash a byte vector with 32-bit FNV-1a.
#[verifier::loop_isolation(false)]
pub fn fnv_bytes(bytes: &Vec<u8>) -> (h: u32)
    ensures
        h == spec_fnv(bytes@),
{
    let mut h: u32 = 2166136261;
    let mut i: usize = 0;
    while i < bytes.len()
        invariant
            i <= bytes@.len(),
            h == spec_fnv(bytes@.subrange(0, i as int)),
        decreases bytes@.len() - i,
    {
        let b = bytes[i];
        let x: u64 = ((h ^ (b as u32)) as u64) * 16777619;
        h = (x % 0x1_0000_0000) as u32;
        i = i + 1;
        proof {
            assert(bytes@.subrange(0, i as int).drop_last() =~= bytes@.subrange(0, i - 1));
        }
    }
    proof {
        assert(bytes@.subrange(0, bytes@.len() as int) =~= bytes@);
    }
    h
}

/// A hash folded into the range 0..=1000, used as a hue or jitter basis.
pub open spec fn spec_hash_milli(h: u32) -> int {
    ((h >> 8) as int) * 1000 / 16777215
}

/// Fold a hash into 0..=1000.
pub fn hash_milli(h: u32) -> (r: i64)
    ensures
        r == spec_hash_milli(h),
        0 <= r <= 1000,
{
    proof {
        assert((h >> 8) < 0x1000000) by (bit_vector);
        assert(((h >> 8) as int) * 1000 <= 16777215 * 1000) by (nonlinear_arith)
            requires
                (h >> 8) as int <= 16777215,
        ;
        vstd::arithmetic::div_mod::lemma_div_pos_is_pos(((h >> 8) as int) * 1000, 16777215int);
        vstd::arithmetic::div_mod::lemma_div_is_ordered(
            ((h >> 8) as int) * 1000,
            16777215000int,
            16777215int,
        );
        vstd::arithmetic::div_mod::lemma_div_multiples_vanish(1000int, 16777215int);
    }
    (((h >> 8) as i64) * 1000) / 16777215
}

/// The palette: one hue/saturation/value triple per category.
pub open spec fn spec_category_color(category: FileCategory) -> (int, int, int) {
    match category {
        FileCategory::Image => spec_hsv_to_rgb(527, 680, 920),
        FileCategory::Video => spec_hsv_to_rgb(41, 750, 900),
        FileCategory::Audio => spec_hsv_to_rgb(777, 700, 880),
        FileCategory::Document => spec_hsv_to_rgb(611, 620, 900),
        FileCategory::Ebook => spec_hsv_to_rgb(458, 580, 820),
        FileCategory::Archive => spec_hsv_to_rgb(111, 780, 920),
        FileCategory::Code => spec_hsv_to_rgb(361, 660, 870),
        FileCategory::Executable => spec_hsv_to_rgb(0, 800, 820),
        FileCategory::Config => spec_hsv_to_rgb(152, 760, 920),
        FileCategory::Font => spec_hsv_to_rgb(916, 550, 920),
        FileCategory::Installer => spec_hsv_to_rgb(83, 820, 900),
        FileCategory::Asset3D => spec_hsv_to_rgb(263, 720, 860),
        FileCategory::Backup => spec_hsv_to_rgb(69, 400, 700),
        FileCategory::Database => spec_hsv_to_rgb(680, 450, 820),
        FileCategory::DiskImage => spec_hsv_to_rgb(569, 640, 820),
        FileCategory::Other => (500int, 500int, 550int),
    }
}

/// The palette color of a category: vibrant hues on a dark background.
pub fn category_color(category: FileCategory) -> (c: AppColor)
    ensures
        color_wf(c),
        (c.r as int, c.g as int, c.b as int) == spec_category_color(category),
{
    match category {
        FileCategory::Image => hsv_to_rgb(527, 680, 920),
        FileCategory::Video => hsv_to_rgb(41, 750, 900),
        FileCategory::Audio => hsv_to_rgb(777, 700, 880),
        FileCategory::Document => hsv_to_rgb(611, 620, 900),
        FileCategory::Ebook => hsv_to_rgb(458, 580, 820),
        FileCategory::Archive => hsv_to_rgb(111, 780, 920),
        FileCategory::Code => hsv_to_rgb(361, 660, 870),
        FileCategory::Executable => hsv_to_rgb(0, 800, 820),
        FileCategory::Config => hsv_to_rgb(152, 760, 920),
        FileCategory::Font => hsv_to_rgb(916, 550, 920),
        FileCategory::Installer => hsv_to_rgb(83, 820, 900),
        FileCategory::Asset3D => hsv_to_rgb(263, 720, 860),
        FileCategory::Backup => hsv_to_rgb(69, 400, 700),
        FileCategory::Database => hsv_to_rgb(680, 450, 820),
        FileCategory::DiskImage => hsv_to_rgb(569, 640, 820),
        FileCategory::Other => AppColor::new(500, 500, 550),
    }
}

/// What boosting saturation does, channel for channel.
pub open spec fn spec_apply_vibrancy(color: AppColor, vib: int) -> (int, int, int) {
    let hsv = spec_rgb_to_hsv(color);
    let vibc = if vib < 600 {
        600int
    } else if vib > 2000 {
        2000int
    } else {
        vib
    };
    let s2 = spec_milli_mul(hsv.1, vibc);
    let s3 = if s2 > 1000 {
        1000int
    } else {
        s2
    };
    spec_hsv_to_rgb(hsv.0, s3, hsv.2)
}

/// Boost or damp saturation by the vibrancy setting.
pub fn apply_vibrancy(color: AppColor, vibrancy_milli: i64) -> (c: AppColor)
    requires
        color_wf(color),
        0 <= vibrancy_milli <= 3000,
    ensures
        color_wf(c),
        (c.r as int, c.g as int, c.b as int) == spec_apply_vibrancy(
            color,
            vibrancy_milli as int,
        ),
        c.a == 1000,
{
    let (h, s, v) = rgb_to_hsv(color);
    let vib = if vibrancy_milli < 600 {
        600
    } else if vibrancy_milli > 2000 {
        2000
    } else {
        vibrancy_milli
    };
    let s2 = milli_mul(s, vib);
    let s3 = if s2 > 1000 {
        1000
    } else {
        s2
    };
    hsv_to_rgb(h, s3, v)
}

/// What rotating the hue and scaling the saturation does.
pub open spec fn spec_shift_hsv(color: AppColor, hue_delta: int, sat_mul: int) -> (int, int, int) {
    let hsv = spec_rgb_to_hsv(color);
    let h2 = ((hsv.0 + hue_delta) % 1000 + 1000) % 1000;
    let s2 = spec_milli_mul(hsv.1, sat_mul);
    spec_hsv_to_rgb(h2, s2, hsv.2)
}

/// Rotate the hue and scale the saturation.
pub fn shift_hsv(color: AppColor, hue_delta: i64, sat_mul_milli: i64) -> (c: AppColor)
    requires
        color_wf(color),
        -1000 <= hue_delta <= 1000,
        0 <= sat_mul_milli <= 1000,
    ensures
        color_wf(c),
        (c.r as int, c.g as int, c.b as int) == spec_shift_hsv(
            color,
            hue_delta as int,
            sat_mul_milli as int,
        ),
{
    let (h, s, v) = rgb_to_hsv(color);
    let h2 = ((h + hue_delta) % 1000 + 1000) % 1000;
    proof {
        vstd::arithmetic::div_mod::lemma_mod_division_less_than_divisor(
            (h + hue_delta) as int,
            1000int,
        );
        vstd::arithmetic::div_mod::lemma_mod_division_less_than_divisor(
            (h + hue_delta) as int % 1000 + 1000,
            1000int,
        );
        vstd::arithmetic::div_mod::lemma_mod_neg_neg((h + hue_delta) as int, 1000int);
    }
    let s2 = milli_mul(s, sat_mul_milli);
    hsv_to_rgb(h2, s2, v)
}

/// The color of a file extension, exactly: the palette entry of its
/// category, jittered or replaced by the hash of its normalized bytes
/// depending on the mode, then passed through the vibrancy adjustment.
pub open spec fn spec_extension_color(
    chars: Seq<char>,
    bs: Seq<u8>,
    mode: ColorMode,
    vib: int,
) -> (int, int, int) {
    let cat = crate::extensions::spec_categorize(crate::strutil::lower_chars(chars));
    let base = spec_category_color(cat);
    let base_color = AppColor { r: base.0 as i64, g: base.1 as i64, b: base.2 as i64, a: 1000i64 };
    let hm = spec_hash_milli(
        spec_fnv(crate::strutil::lower_bytes(crate::strutil::drop_dot_bytes(bs))),
    );
    let adjusted = match mode {
        ColorMode::Category => (base_color.r as int, base_color.g as int, base_color.b as int),
        ColorMode::CategoryExtension => spec_shift_hsv(base_color, hm * 80 / 1000 - 40, 1000),
        ColorMode::ExtensionHash => spec_hsv_to_rgb(hm, 720, 840),
    };
    spec_apply_vibrancy(
        AppColor { r: adjusted.0 as i64, g: adjusted.1 as i64, b: adjusted.2 as i64, a: 1000i64 },
        vib,
    )
}

/// Color for a file with the given (already interned) extension.
pub fn extension_color(ext: &str, settings: &ColorSettings) -> (c: AppColor)
    requires
        settings.wf(),
    ensures
        color_wf(c),
        (c.r as int, c.g as int, c.b as int) == spec_extension_color(
            ext@,
            ext.spec_bytes(),
            settings.mode,
            settings.vibrancy_milli as int,
        ),
        c.a == 1000,
{
    let category = categorize_extension(ext);
    let base = category_color(category);
    let norm = crate::strutil::ext_norm_bytes(ext);
    let adjusted = match settings.mode {
        ColorMode::Category => base,
        ColorMode::CategoryExtension => {
            let hm = hash_milli(fnv_bytes(&norm));
            proof {
                vstd::arithmetic::div_mod::lemma_div_pos_is_pos(hm as int * 80, 1000int);
                vstd::arithmetic::div_mod::lemma_div_is_ordered(hm as int * 80, 80000int,
                    1000int);
                assert(hm * 80 <= 80000) by (nonlinear_arith)
                    requires
                        0 <= hm <= 1000,
                ;
            }
            let jitter = hm * 80 / 1000 - 40;
            shift_hsv(base, jitter, 1000)
        },
        ColorMode::ExtensionHash => {
            let hm = hash_milli(fnv_bytes(&norm));
            hsv_to_rgb(hm, 720, 840)
        },
    };
    apply_vibrancy(adjusted, settings.vibrancy_milli)
}

/// An extension with its leading dots removed.
pub open spec fn drop_dots(s: Seq<char>) -> Seq<char>
    decreases s.len(),
{
    if s.len() > 0 && s[0] == '.' {
        drop_dots(s.subrange(1, s.len() as int))
    } else {
        s
    }
}

/// Drop leading dots from an extension string.
#[verifier::loop_isolation(false)]
pub fn trim_leading_dots(s: &str) -> (r: &str)
    ensures
        r@ == drop_dots(s@),
{
    let n = s.unicode_len();
    proof {
        assert(s@.subrange(0, n as int) =~= s@);
    }
    let mut i: usize = 0;
    while i < n && s.get_char(i) == '.'
        invariant
            i <= n,
            n == s@.len(),
            drop_dots(s@) == drop_dots(s@.subrange(i as int, n as int)),
        decreases n - i,
    {
        proof {
            assert(s@.subrange(i as int, n as int).subrange(1, (n - i) as int) =~= s@.subrange(
                i as int + 1,
                n as int,
            ));
        }
        i = i + 1;
    }
    proof {
        assert(s@.subrange(0, n as int) =~= s@);
        if i < n {
            assert(s@.subrange(i as int, n as int)[0] == s@[i as int]);
        }
    }
    s.substring_char(i, n)
}

/// The directory palette entry for a name hash: three muted channels
/// with a depth fade, then the vibrancy pass at reduced strength.
pub open spec fn spec_directory_color(bs: Seq<u8>, depth: int, vib: int) -> (int, int, int) {
    let h = spec_fnv(bs);
    let b0 = (h & 0xFF) as int;
    let b1 = ((h >> 8) & 0xFF) as int;
    let b2 = ((h >> 16) & 0xFF) as int;
    let r = 360 + b0 * 260 / 255;
    let g = 340 + b1 * 240 / 255;
    let b = 380 + b2 * 220 / 255;
    let fade = if depth * 10 > 100 {
        100int
    } else {
        depth * 10
    };
    let rf = if r - fade < 200 {
        200int
    } else {
        r - fade
    };
    let gf = if g - fade < 200 {
        200int
    } else {
        g - fade
    };
    let bf = if b - fade < 220 {
        220int
    } else {
        b - fade
    };
    let vib1 = spec_milli_mul(850, vib / 2) * 2;
    let vib2 = if vib1 > 3000 {
        3000int
    } else {
        vib1
    };
    spec_apply_vibrancy(
        AppColor { r: rf as i64, g: gf as i64, b: bf as i64, a: 1000i64 },
        vib2,
    )
}

/// Directory colors: muted but varied by a hash of the name, fading
/// slightly with depth so nesting reads clearly.
pub fn directory_color(name: &str, depth: u16, settings: &ColorSettings) -> (c: AppColor)
    requires
        settings.wf(),
    ensures
        color_wf(c),
        (c.r as int, c.g as int, c.b as int) == spec_directory_color(
            name.spec_bytes(),
            depth as int,
            settings.vibrancy_milli as int,
        ),
        c.a == 1000,
{
    let h = fnv_hash(name);
    let b0 = (h & 0xFF) as i64;
    let b1 = ((h >> 8) & 0xFF) as i64;
    let b2 = ((h >> 16) & 0xFF) as i64;
    proof {
        assert(h & 0xFF < 256 && (h >> 8) & 0xFF < 256 && (h >> 16) & 0xFF < 256)
            by (bit_vector);
        channel_scale_bounds(b0 as int, 260);
        channel_scale_bounds(b1 as int, 240);
        channel_scale_bounds(b2 as int, 220);
    }
    let r = 360 + b0 * 260 / 255;
    let g = 340 + b1 * 240 / 255;
    let b = 380 + b2 * 220 / 255;
    let fade: i64 = if depth as i64 * 10 > 100 {
        100
    } else {
        depth as i64 * 10
    };
    let rf = if r - fade < 200 {
        200
    } else {
        r - fade
    };
    let gf = if g - fade < 200 {
        200
    } else {
        g - fade
    };
    let bf = if b - fade < 220 {
        220
    } else {
        b - fade
    };
    let vib = milli_mul(850, settings.vibrancy_milli / 2) * 2;
    let vib2 = if vib > 3000 {
        3000
    } else {
        vib
    };
    apply_vibrancy(AppColor { r: rf, g: gf, b: bf, a: 1000 }, vib2)
}

/// A byte scaled into a sub-thousand channel offset stays in range.
proof fn channel_scale_bounds(b: int, span: int)
    requires
        0 <= b <= 255,
        0 <= span <= 1000,
    ensures
        0 <= b * span / 255 <= span,
        b * span <= 255000,
{
    assert(0 <= b * span <= 255 * span && 255 * span <= 255000) by (nonlinear_arith)
        requires
            0 <= b <= 255 && 0 <= span <= 1000,
    ;
    vstd::arithmetic::div_mod::lemma_div_pos_is_pos(b * span, 255int);
    vstd::arithmetic::div_mod::lemma_div_is_ordered(b * span, 255 * span, 255int);
    vstd::arithmetic::div_mod::lemma_div_multiples_vanish(span, 255int);
}

/// Short label for a color mode.
pub fn mode_name(mode: ColorMode) -> (r: &'static str)
    ensures
        mode == ColorMode::Category ==> r@ == "Category"@,
        mode == ColorMode::CategoryExtension ==> r@ == "Cat+Ext"@,
        mode == ColorMode::ExtensionHash ==> r@ == "Ext Hash"@,
{
    match mode {
        ColorMode::Category => "Category",
        ColorMode::CategoryExtension => "Cat+Ext",
        ColorMode::ExtensionHash => "Ext Hash",
    }
}

} // verus!
