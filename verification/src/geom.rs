//! Integer rectangle geometry and the squarified row packer.
//!
//! All coordinates are whole pixel units. Working in integers makes the
//! tiling claims exact: a packed row consumes exactly the area it emits,
//! and rounding slack is carried forward instead of being lost.

use vstd::prelude::*;

verus! {

use vstd::arithmetic::div_mod::lemma_div_is_ordered;
use vstd::arithmetic::div_mod::lemma_div_multiples_vanish;
use vstd::arithmetic::div_mod::lemma_fundamental_div_mod;
use vstd::arithmetic::div_mod::lemma_mod_division_less_than_divisor;
use vstd::arithmetic::div_mod::lemma_mod_multiples_basic;
use vstd::arithmetic::div_mod::lemma_div_pos_is_pos;
use vstd::arithmetic::mul::lemma_mul_inequality;
use vstd::arithmetic::mul::lemma_mul_upper_bound;

/// Largest coordinate magnitude (in pixels) the packer accepts. Keeping
/// coordinates below this bound lets every aspect-ratio comparison be done
/// exactly in 128-bit products.
pub const COORD_LIMIT: i64 = 32768;

/// Largest total area a packed rectangle can have: `COORD_LIMIT` squared.
pub const AREA_LIMIT: i64 = COORD_LIMIT * COORD_LIMIT;

/// An axis-aligned rectangle: origin plus non-negative extent.
#[derive(Clone, Copy, Debug, PartialEq, Eq, Structural)]
pub struct Rect {
    pub x: i64,
    pub y: i64,
    pub w: i64,
    pub h: i64,
}

/// Area of a rectangle, as an unbounded integer.
pub open spec fn rect_area(r: Rect) -> int {
    r.w * r.h
}

/// Sum of the areas of a sequence of rectangles.
pub open spec fn area_total(rs: Seq<Rect>) -> int
    decreases rs.len(),
{
    if rs.len() == 0 {
        0
    } else {
        area_total(rs.drop_last()) + rect_area(rs.last())
    }
}

/// Sum of a sequence of machine integers, as an unbounded integer.
pub open spec fn total_of(s: Seq<i64>) -> int
    decreases s.len(),
{
    if s.len() == 0 {
        0
    } else {
        total_of(s.drop_last()) + s.last()
    }
}

/// The sequence is sorted in non-increasing order.
pub open spec fn sorted_desc(s: Seq<i64>) -> bool {
    forall|i: int, j: int| 0 <= i <= j < s.len() ==> s[i] >= s[j]
}

/// Every element of the sequence is non-negative.
pub open spec fn all_nonneg(s: Seq<i64>) -> bool {
    forall|i: int| 0 <= i < s.len() ==> s[i] >= 0
}

/// `r` lies inside the rectangle with origin `(x, y)` and extent `(w, h)`,
/// and has non-negative extent itself.
pub open spec fn rect_within(r: Rect, x: int, y: int, w: int, h: int) -> bool {
    &&& r.w >= 0
    &&& r.h >= 0
    &&& x <= r.x
    &&& r.x + r.w <= x + w
    &&& y <= r.y
    &&& r.y + r.h <= y + h
}

pub proof fn lemma_total_of_push(s: Seq<i64>, v: i64)
    ensures
        total_of(s.push(v)) == total_of(s) + v,
{
    assert(s.push(v).drop_last() =~= s);
}

pub proof fn lemma_area_total_push(rs: Seq<Rect>, r: Rect)
    ensures
        area_total(rs.push(r)) == area_total(rs) + rect_area(r),
{
    assert(rs.push(r).drop_last() =~= rs);
}

pub proof fn lemma_total_of_nonneg(s: Seq<i64>)
    requires
        all_nonneg(s),
    ensures
        total_of(s) >= 0,
    decreases s.len(),
{
    if s.len() > 0 {
        assert(all_nonneg(s.drop_last()));
        lemma_total_of_nonneg(s.drop_last());
    }
}

/// Splitting a sum at the front: the head plus the sum of the tail.
pub proof fn lemma_total_of_first(s: Seq<i64>)
    requires
        s.len() >= 1,
    ensures
        total_of(s) == s[0] + total_of(s.subrange(1, s.len() as int)),
    decreases s.len(),
{
    if s.len() == 1 {
        assert(s.subrange(1, 1) =~= Seq::<i64>::empty());
        assert(s.drop_last() =~= Seq::<i64>::empty());
        assert(total_of(s) == total_of(s.drop_last()) + s.last());
        assert(s.last() == s[0]);
    } else {
        let head = s.drop_last();
        let tail = s.subrange(1, s.len() as int);
        lemma_total_of_first(head);
        assert(head.subrange(1, head.len() as int) =~= tail.drop_last());
        assert(head[0] == s[0]);
        assert(tail.last() == s.last());
        assert(total_of(s) == total_of(head) + s.last());
        assert(total_of(tail) == total_of(tail.drop_last()) + tail.last());
    }
}

/// The Bruls-style row-extension test: extending the current row (min `m0`,
/// max `mx0`, sum `s0`) with one more item (giving `m1`, `mx1`, `s1`) does
/// not worsen the row's worst aspect ratio against the short side `side`.
///
/// The worst ratio of a row is `max(side²·max/sum², sum²/(side²·min))`; the
/// comparison is encoded with cross-multiplied products so it is exact in
/// integers.
pub open spec fn spec_row_extension_ok(
    side: int,
    m0: int,
    mx0: int,
    s0: int,
    m1: int,
    mx1: int,
    s1: int,
) -> bool {
    let s4 = (side * side) * (side * side);
    let a_new_le_a_cur = mx1 * (s0 * s0) <= mx0 * (s1 * s1);
    let a_new_le_b_cur = s4 * (mx1 * m0) <= (s1 * s1) * (s0 * s0);
    let b_new_le_a_cur = (s1 * s1) * (s0 * s0) <= s4 * (mx0 * m1);
    let b_new_le_b_cur = (s1 * s1) * m0 <= (s0 * s0) * m1;
    (a_new_le_a_cur || a_new_le_b_cur) && (b_new_le_a_cur || b_new_le_b_cur)
}

/// Executable form of [`spec_row_extension_ok`], computed in 128-bit
/// products so nothing overflows.
fn row_extension_ok(side: i64, m0: i64, mx0: i64, s0: i64, m1: i64, mx1: i64, s1: i64) -> (r:
    bool)
    requires
        0 <= side <= COORD_LIMIT,
        0 <= m0 <= AREA_LIMIT,
        0 <= mx0 <= AREA_LIMIT,
        0 <= s0 <= AREA_LIMIT,
        0 <= m1 <= AREA_LIMIT,
        0 <= mx1 <= AREA_LIMIT,
        0 <= s1 <= AREA_LIMIT,
    ensures
        r == spec_row_extension_ok(
            side as int,
            m0 as int,
            mx0 as int,
            s0 as int,
            m1 as int,
            mx1 as int,
            s1 as int,
        ),
{
    proof {
        broadcast use lemma_mul_upper_bound;

        let l: int = 0x8000;
        let a: int = 0x4000_0000;
        assert(side * side <= l * l);
        assert((side * side) * (side * side) <= (l * l) * (l * l));
        assert(s0 * s0 <= a * a);
        assert(s1 * s1 <= a * a);
        assert(mx1 * (s0 * s0) <= a * (a * a));
        assert(mx0 * (s1 * s1) <= a * (a * a));
        assert(mx1 * m0 <= a * a);
        assert(mx0 * m1 <= a * a);
        assert(((l * l) * (l * l)) * (a * a) < 0x1_0000_0000_0000_0000_0000_0000_0000_0000);
        assert((s1 * s1) * (s0 * s0) <= (a * a) * (a * a));
        assert(((side * side) * (side * side)) * (mx1 * m0) <= ((l * l) * (l * l)) * (a * a));
        assert(((side * side) * (side * side)) * (mx0 * m1) <= ((l * l) * (l * l)) * (a * a));
        assert((s1 * s1) * m0 <= (a * a) * a);
        assert((s0 * s0) * m1 <= (a * a) * a);
        assert((a * a) * (a * a) < 0x1_0000_0000_0000_0000_0000_0000_0000_0000);
    }
    let sd = side as u128;
    let s2: u128 = sd * sd;
    let s4: u128 = s2 * s2;
    let s0sq: u128 = (s0 as u128) * (s0 as u128);
    let s1sq: u128 = (s1 as u128) * (s1 as u128);
    let a_new_le_a_cur = (mx1 as u128) * s0sq <= (mx0 as u128) * s1sq;
    let a_new_le_b_cur = s4 * ((mx1 as u128) * (m0 as u128)) <= s1sq * s0sq;
    let b_new_le_a_cur = s1sq * s0sq <= s4 * ((mx0 as u128) * (m1 as u128));
    let b_new_le_b_cur = s1sq * (m0 as u128) <= s0sq * (m1 as u128);
    (a_new_le_a_cur || a_new_le_b_cur) && (b_new_le_a_cur || b_new_le_b_cur)
}

/// Offset of the row cursor after items summing to `c`, in a row of total
/// `rs` laid along a strip of length `side`: the exact proportional share,
/// rounded down.
pub open spec fn row_off(c: int, side: int, rs: int) -> int {
    if rs == 0 {
        0
    } else {
        (c * side) / rs
    }
}

/// Lay one closed row of items `areas[start..end]` into the remaining
/// rectangle `(rx, ry, rw, rh)`, against its shorter side. Emits one
/// rectangle per item (possibly zero-sized), consumes the row's thickness
/// from the longer side, and returns the new remaining rectangle together
/// with the updated rounding carry: `(rx', ry', rw', rh', carry')`.
///
/// Area accounting is exact: the emitted area is `row_sum + carry - carry'`,
/// and the remaining rectangle shrinks by exactly that amount.
#[verifier::loop_isolation(false)]
fn lay_row(
    areas: &Vec<i64>,
    start: usize,
    end: usize,
    row_sum: i64,
    rx: i64,
    ry: i64,
    rw: i64,
    rh: i64,
    carry: i64,
    out: &mut Vec<Rect>,
) -> (st: (i64, i64, i64, i64, i64))
    requires
        start < end <= areas@.len(),
        forall|k: int| start <= k < end ==> 0 <= #[trigger] areas@[k],
        row_sum == total_of(areas@.subrange(start as int, end as int)),
        row_sum <= AREA_LIMIT,
        1 <= rw <= COORD_LIMIT,
        1 <= rh <= COORD_LIMIT,
        -4 * COORD_LIMIT <= rx <= 4 * COORD_LIMIT,
        -4 * COORD_LIMIT <= ry <= 4 * COORD_LIMIT,
        0 <= carry <= AREA_LIMIT,
    ensures
        final(out)@.len() == old(out)@.len() + (end - start),
        forall|j: int| 0 <= j < old(out)@.len() ==> final(out)@[j] == old(out)@[j],
        forall|j: int|
            old(out)@.len() <= j < final(out)@.len() ==> rect_within(
                #[trigger] final(out)@[j],
                rx as int,
                ry as int,
                rw as int,
                rh as int,
            ),
        area_total(final(out)@) == area_total(old(out)@) + (row_sum + carry - st.4),
        0 <= st.4 <= row_sum + carry,
        rx <= st.0,
        ry <= st.1,
        0 <= st.2 <= rw,
        0 <= st.3 <= rh,
        st.0 + st.2 == rx + rw,
        st.1 + st.3 == ry + rh,
        st.2 * st.3 == rw * rh - (row_sum + carry - st.4),
        row_sum >= 1 && row_sum + carry <= rw * rh ==> st.4 < rw && st.4 < rh,
        row_sum >= 1 && row_sum + carry == rw * rh ==> st.4 == 0,
        row_sum == 0 ==> st.4 == carry,
{
    proof {
        assert(all_nonneg(areas@.subrange(start as int, end as int)));
        lemma_total_of_nonneg(areas@.subrange(start as int, end as int));
    }
    let horizontal = rw <= rh;
    let side = if horizontal {
        rw
    } else {
        rh
    };
    let long = if horizontal {
        rh
    } else {
        rw
    };
    proof {
        assert(side * long == rw * rh) by (nonlinear_arith)
            requires
                (horizontal ==> side == rw && long == rh) && (!horizontal ==> side == rh && long
                    == rw),
        ;
        assert(rw * rh <= AREA_LIMIT) by (nonlinear_arith)
            requires
                1 <= rw <= COORD_LIMIT && 1 <= rh <= COORD_LIMIT && AREA_LIMIT == COORD_LIMIT
                    * COORD_LIMIT,
        ;
    }
    let t0 = (row_sum + carry) / side;
    let t = if row_sum == 0 {
        0
    } else if t0 > long {
        long
    } else {
        t0
    };
    proof {
        lemma_div_pos_is_pos(row_sum + carry, side as int);
        lemma_fundamental_div_mod(row_sum + carry, side as int);
        lemma_mod_division_less_than_divisor(row_sum + carry, side as int);
        assert(side * t <= side * t0) by (nonlinear_arith)
            requires
                0 <= t <= t0 && side >= 1,
        ;
        assert(side * t <= row_sum + carry);
        assert(side * t <= side * long) by (nonlinear_arith)
            requires
                0 <= t <= long && side >= 1,
        ;
        if row_sum >= 1 && row_sum + carry <= rw * rh {
            // no capping happens: t0 <= long
            lemma_div_is_ordered(row_sum + carry, side * long, side as int);
            lemma_div_multiples_vanish(long as int, side as int);
            assert(t == t0);
            assert(row_sum + carry - side * t == (row_sum + carry) % (side as int));
        }
        if row_sum >= 1 && row_sum + carry == rw * rh {
            lemma_mod_multiples_basic(long as int, side as int);
            assert((side * long) % (side as int) == 0);
        }
    }
    let ghost out0 = out@;
    proof {
        assert(areas@.subrange(start as int, start as int) =~= Seq::<i64>::empty());
        if row_sum >= 1 {
            assert(0 * side == 0);
            vstd::arithmetic::div_mod::lemma_div_of0(row_sum as int);
        }
    }
    let mut offset: i64 = 0;
    let mut cum: i64 = 0;
    let mut k = start;
    while k < end
        invariant
            start <= k <= end,
            cum == total_of(areas@.subrange(start as int, k as int)),
            0 <= cum <= row_sum,
            offset == row_off(cum as int, side as int, row_sum as int),
            0 <= offset <= side,
            out@.len() == out0.len() + (k - start),
            forall|j: int| 0 <= j < out0.len() ==> out@[j] == out0[j],
            forall|j: int|
                out0.len() <= j < out@.len() ==> rect_within(
                    #[trigger] out@[j],
                    rx as int,
                    ry as int,
                    rw as int,
                    rh as int,
                ),
            area_total(out@) == area_total(out0) + offset * t,
        decreases end - k,
    {
        let a = areas[k];
        proof {
            lemma_total_of_push(areas@.subrange(start as int, k as int), a);
            assert(areas@.subrange(start as int, (k + 1) as int) =~= areas@.subrange(
                start as int,
                k as int,
            ).push(a));
            // the rest of the row is non-negative, so cum + a stays within row_sum
            let rest = areas@.subrange((k + 1) as int, end as int);
            assert(all_nonneg(rest));
            lemma_total_of_nonneg(rest);
            lemma_total_of_split(areas@.subrange(start as int, end as int), k + 1 - start);
            assert(areas@.subrange(start as int, end as int).subrange(0, k + 1 - start)
                =~= areas@.subrange(start as int, (k + 1) as int));
            assert(areas@.subrange(start as int, end as int).subrange(
                k + 1 - start,
                (end - start) as int,
            ) =~= rest);
        }
        let cum2 = cum + a;
        proof {
            assert(cum2 * side <= AREA_LIMIT * COORD_LIMIT) by (nonlinear_arith)
                requires
                    0 <= cum2 <= AREA_LIMIT && 0 <= side <= COORD_LIMIT,
            ;
        }
        let next_off = if row_sum == 0 {
            0
        } else {
            (cum2 * side) / row_sum
        };
        proof {
            if row_sum >= 1 {
                lemma_mul_inequality(cum as int, cum2 as int, side as int);
                lemma_div_is_ordered(cum * side, cum2 * side, row_sum as int);
                lemma_mul_inequality(cum2 as int, row_sum as int, side as int);
                lemma_div_is_ordered(cum2 * side, row_sum * side, row_sum as int);
                lemma_div_multiples_vanish(side as int, row_sum as int);
                lemma_div_pos_is_pos(cum2 * side, row_sum as int);
                assert(row_sum * side == (row_sum as int) * (side as int));
                assert(offset <= next_off <= side);
            }
        }
        let len_k = next_off - offset;
        let r = if horizontal {
            Rect { x: rx + offset, y: ry, w: len_k, h: t }
        } else {
            Rect { x: rx, y: ry + offset, w: t, h: len_k }
        };
        proof {
            lemma_area_total_push(out@, r);
            assert(rect_area(r) == len_k * t) by (nonlinear_arith)
                requires
                    r.w * r.h == len_k * t || r.w * r.h == t * len_k,
            ;
            assert(offset * t + len_k * t == next_off * t) by (nonlinear_arith)
                requires
                    len_k == next_off - offset,
            ;
            assert(rect_within(r, rx as int, ry as int, rw as int, rh as int));
        }
        out.push(r);
        cum = cum2;
        offset = next_off;
        k = k + 1;
    }
    proof {
        assert(areas@.subrange(start as int, end as int) == areas@.subrange(
            start as int,
            k as int,
        ));
        if row_sum >= 1 {
            lemma_div_multiples_vanish(side as int, row_sum as int);
            assert(row_sum * side == (row_sum as int) * (side as int));
            assert(offset == side);
        }
        assert(offset * t == side * t || offset * t == 0);
    }
    let carry2 = row_sum + carry - side * t;
    proof {
        assert(side * t == row_sum + carry - carry2);
        if horizontal {
            assert(rw * (rh - t) == rw * rh - side * t) by (nonlinear_arith)
                requires
                    side == rw,
            ;
        } else {
            assert((rw - t) * rh == rw * rh - side * t) by (nonlinear_arith)
                requires
                    side == rh,
            ;
        }
    }
    if horizontal {
        (rx, ry + t, rw, rh - t, carry2)
    } else {
        (rx + t, ry, rw - t, rh, carry2)
    }
}

/// Squarified treemap packing following Bruls, Huizing and van Wijk: walk
/// the (descending-sorted) areas, grow the current row while that does not
/// worsen its worst aspect ratio, and lay each closed row along the shorter
/// side of the remaining rectangle.
///
/// One output rectangle is produced per input area, in order. Items whose
/// proportional share rounds down to nothing come out zero-sized (callers
/// filter those), and rounding slack is carried into later rows, so when
/// the areas sum exactly to `w * h` the output tiles the whole rectangle.
#[verifier::loop_isolation(false)]
#[verifier::rlimit(100)]
pub fn squarify(areas: &Vec<i64>, x: i64, y: i64, w: i64, h: i64) -> (out: Vec<Rect>)
    requires
        -2 * COORD_LIMIT <= x <= 2 * COORD_LIMIT,
        -2 * COORD_LIMIT <= y <= 2 * COORD_LIMIT,
        0 <= w <= COORD_LIMIT,
        0 <= h <= COORD_LIMIT,
        all_nonneg(areas@),
        total_of(areas@) <= AREA_LIMIT,
        sorted_desc(areas@),
    ensures
        w < 1 || h < 1 ==> out@.len() == 0,
        w >= 1 && h >= 1 ==> out@.len() == areas@.len(),
        forall|j: int|
            0 <= j < out@.len() ==> rect_within(
                #[trigger] out@[j],
                x as int,
                y as int,
                w as int,
                h as int,
            ),
        w >= 1 && h >= 1 && total_of(areas@) <= w * h ==> area_total(out@) <= total_of(areas@)
            && total_of(areas@) - area_total(out@) < (if w <= h {
            w as int
        } else {
            h as int
        }),
        w >= 1 && h >= 1 && total_of(areas@) == w * h ==> area_total(out@) == w * h,
        areas@.len() == 1 && w >= 1 && h >= 1 && areas@[0] == w * h ==> out@.len() == 1
            && out@[0] == (Rect { x, y, w, h }),
{
    let mut out: Vec<Rect> = Vec::new();
    if w < 1 || h < 1 {
        return out;
    }
    let ghost fits = total_of(areas@) <= (w as int) * (h as int);
    let ghost shorter: int = if w <= h {
        w as int
    } else {
        h as int
    };
    let mut rx: i64 = x;
    let mut ry: i64 = y;
    let mut rw: i64 = w;
    let mut rh: i64 = h;
    let mut carry: i64 = 0;
    let mut i: usize = 0;
    let mut row_start: usize = 0;
    let mut row_sum: i64 = 0;
    let mut row_min: i64 = 0;
    let mut row_max: i64 = 0;
    proof {
        assert(areas@.subrange(0, 0) =~= Seq::<i64>::empty());
        assert(areas@.subrange(0, areas@.len() as int) =~= areas@);
        assert(1 <= w * h <= AREA_LIMIT) by (nonlinear_arith)
            requires
                1 <= w <= COORD_LIMIT && 1 <= h <= COORD_LIMIT && AREA_LIMIT == COORD_LIMIT
                    * COORD_LIMIT,
        ;
    }
    while i < areas.len()
        invariant
            0 <= row_start <= i <= areas@.len(),
            i >= 1 ==> row_start < i,
            out@.len() == row_start,
            1 <= rw <= w,
            1 <= rh <= h,
            rx + rw == x + w,
            ry + rh == y + h,
            x <= rx,
            y <= ry,
            row_sum == total_of(areas@.subrange(row_start as int, i as int)),
            0 <= row_sum,
            0 <= row_min <= AREA_LIMIT,
            0 <= row_max <= AREA_LIMIT,
            row_start == i ==> row_sum == 0,
            0 <= carry,
            carry + total_of(areas@.subrange(row_start as int, areas@.len() as int))
                <= AREA_LIMIT,
            forall|j: int|
                0 <= j < out@.len() ==> rect_within(
                    #[trigger] out@[j],
                    x as int,
                    y as int,
                    w as int,
                    h as int,
                ),
            area_total(out@) + carry == total_of(areas@.subrange(0, row_start as int)),
            rw * rh == w * h - area_total(out@),
            fits ==> carry < shorter,
            fits && total_of(areas@) == w * h ==> carry < rw * rh,
        decreases areas@.len() - i,
    {
        let ghost len: int = areas@.len() as int;
        proof {
            // bounds on the element and on the open row's running totals
            lemma_total_of_first(areas@.subrange(row_start as int, len));
            assert(areas@.subrange(row_start as int, len).subrange(
                1,
                (len - row_start) as int,
            ) =~= areas@.subrange(row_start as int + 1, len));
            lemma_total_of_split(areas@.subrange(row_start as int, len), i - row_start as int);
            assert(areas@.subrange(row_start as int, len).subrange(0, i - row_start as int)
                =~= areas@.subrange(row_start as int, i as int));
            assert(areas@.subrange(row_start as int, len).subrange(
                i - row_start as int,
                (len - row_start) as int,
            ) =~= areas@.subrange(i as int, len));
            lemma_total_of_nonneg(areas@.subrange(i as int, len));
            lemma_total_of_first(areas@.subrange(i as int, len));
            assert(areas@.subrange(i as int, len).subrange(1, (len - i) as int) =~= areas@
                .subrange(i as int + 1, len));
            lemma_total_of_nonneg(areas@.subrange(i as int + 1, len));
        }
        let c: i64 = areas[i];
        if row_sum >= 1 {
            let side: i64 = if rw <= rh {
                rw
            } else {
                rh
            };
            let nmin: i64 = if c < row_min {
                c
            } else {
                row_min
            };
            let nmax: i64 = if c > row_max {
                c
            } else {
                row_max
            };
            let nsum: i64 = row_sum + c;
            if !row_extension_ok(side, row_min, row_max, row_sum, nmin, nmax, nsum) {
                // the item would worsen the row: lay the row and start afresh
                let ghost out_before = out@;
                let ghost area_before = area_total(out@);
                proof {
                    if fits {
                        // the whole remainder still fits in the remaining rectangle
                        lemma_total_of_split(areas@, row_start as int);
                        assert(areas@.subrange(0, len) =~= areas@);
                    }
                    lemma_total_of_nonneg(areas@.subrange(row_start as int, i as int));
                }
                let st = lay_row(areas, row_start, i, row_sum, rx, ry, rw, rh, carry, &mut out);
                proof {
                    // processed prefix grows by the laid row
                    lemma_total_of_split(areas@.subrange(0, i as int), row_start as int);
                    assert(areas@.subrange(0, i as int).subrange(0, row_start as int) =~= areas@
                        .subrange(0, row_start as int));
                    assert(areas@.subrange(0, i as int).subrange(row_start as int, i as int)
                        =~= areas@.subrange(row_start as int, i as int));
                    // containment in the original rectangle is transitive
                    assert(forall|j: int|
                        out_before.len() <= j < out@.len() ==> rect_within(
                            #[trigger] out@[j],
                            x as int,
                            y as int,
                            w as int,
                            h as int,
                        ));
                }
                let ghost row_sum_old: int = row_sum as int;
                let ghost carry_old: int = carry as int;
                let ghost area_old: int = rw as int * rh as int;
                rx = st.0;
                ry = st.1;
                rw = st.2;
                rh = st.3;
                carry = st.4;
                row_start = i;
                row_sum = 0;
                row_min = 0;
                row_max = 0;
                proof {
                    if fits && total_of(areas@) == (w as int) * (h as int) {
                        // remaining items plus the carried slack exactly cover
                        // what is left of the rectangle
                        lemma_total_of_split(areas@, i as int);
                        assert(areas@.subrange(0, len) =~= areas@);
                        lemma_total_of_nonneg(areas@.subrange(i as int, len));
                        assert(total_of(areas@.subrange(i as int, len)) + carry == rw * rh);
                        if total_of(areas@.subrange(i as int, len)) == 0 {
                            assert(row_sum_old + carry_old == area_old);
                            assert(carry == 0);
                        }
                    }
                }
                if rw >= 1 && rh >= 1 {
                    proof {
                        assert(rw * rh >= 1) by (nonlinear_arith)
                            requires
                                rw >= 1 && rh >= 1,
                        ;
                    }
                }
                if rw < 1 || rh < 1 {
                    // the rectangle is exhausted: remaining items occupy no area
                    proof {
                        assert(rw == 0 || rh == 0);
                        assert(rw * rh == 0) by (nonlinear_arith)
                            requires
                                rw == 0 || rh == 0,
                        ;
                    }
                    let mut j: usize = i;
                    while j < areas.len()
                        invariant
                            i <= j <= areas@.len(),
                            out@.len() == row_start + (j - i),
                            area_total(out@) == w * h,
                            forall|q: int|
                                0 <= q < out@.len() ==> rect_within(
                                    #[trigger] out@[q],
                                    x as int,
                                    y as int,
                                    w as int,
                                    h as int,
                                ),
                        decreases areas@.len() - j,
                    {
                        let z = Rect { x: rx, y: ry, w: 0, h: 0 };
                        proof {
                            lemma_area_total_push(out@, z);
                            assert(rect_area(z) == 0) by (nonlinear_arith)
                                requires
                                    z.w == 0 && z.h == 0,
                            ;
                        }
                        out.push(z);
                        j = j + 1;
                    }
                    proof {
                        if fits {
                            // everything already emitted: the prefix sum can only
                            // reach the grand total when the slack is zero
                            lemma_total_of_split(areas@, i as int);
                            assert(areas@.subrange(0, len) =~= areas@);
                            lemma_total_of_nonneg(areas@.subrange(i as int, len));
                        }
                    }
                    return out;
                }
            }
        }
        proof {
            lemma_total_of_push(areas@.subrange(row_start as int, i as int), c);
            assert(areas@.subrange(row_start as int, i as int + 1) =~= areas@.subrange(
                row_start as int,
                i as int,
            ).push(c));
        }
        row_min = if row_start == i {
            c
        } else if c < row_min {
            c
        } else {
            row_min
        };
        row_max = if row_start == i {
            c
        } else if c > row_max {
            c
        } else {
            row_max
        };
        row_sum = row_sum + c;
        i = i + 1;
    }
    if row_start < areas.len() {
        let ghost len: int = areas@.len() as int;
        let ghost out_before = out@;
        proof {
            lemma_total_of_nonneg(areas@.subrange(row_start as int, len));
            if fits {
                lemma_total_of_split(areas@, row_start as int);
                assert(areas@.subrange(0, len) =~= areas@);
            }
        }
        let st = lay_row(areas, row_start, areas.len(), row_sum, rx, ry, rw, rh, carry, &mut out);
        proof {
            lemma_total_of_split(areas@, row_start as int);
            assert(areas@.subrange(0, len) =~= areas@);
            assert(forall|j: int|
                out_before.len() <= j < out@.len() ==> rect_within(
                    #[trigger] out@[j],
                    x as int,
                    y as int,
                    w as int,
                    h as int,
                ));
            if fits && total_of(areas@) == (w as int) * (h as int) {
                // the trailing row is handed exactly the remaining area, so
                // nothing is left over afterwards
                assert(row_sum + carry == rw * rh);
            }
            if areas@.len() == 1 && areas@[0] == (w as int) * (h as int) {
                assert(total_of(areas@) == areas@[0] + total_of(areas@.subrange(1, 1))) by {
                    lemma_total_of_first(areas@);
                }
                assert(areas@.subrange(1, 1) =~= Seq::<i64>::empty());
                lemma_single_rect_fills(out@, x as int, y as int, w as int, h as int);
            }
        }
        return out;
    }
    out
}

/// A set of rectangles with non-negative sides and total area at least
/// one contains a rectangle with both sides at least one.
pub proof fn lemma_area_total_pos(rs: Seq<Rect>)
    requires
        area_total(rs) >= 1,
        forall|j: int| 0 <= j < rs.len() ==> (#[trigger] rs[j]).w >= 0 && rs[j].h >= 0,
    ensures
        exists|j: int| 0 <= j < rs.len() && (#[trigger] rs[j]).w >= 1 && rs[j].h >= 1,
    decreases rs.len(),
{
    if rs.len() > 0 {
        let r = rs.last();
        if rect_area(r) >= 1 {
            assert(r.w >= 1 && r.h >= 1) by (nonlinear_arith)
                requires
                    r.w * r.h >= 1 && r.w >= 0 && r.h >= 0,
            ;
            assert(rs[rs.len() - 1].w >= 1 && rs[rs.len() - 1].h >= 1);
        } else {
            assert(rect_area(r) <= 0) by (nonlinear_arith)
                requires
                    r.w * r.h < 1 && r.w >= 0 && r.h >= 0,
            ;
            lemma_area_total_pos(rs.drop_last());
            let j = choose|j: int|
                0 <= j < rs.drop_last().len() && (#[trigger] rs.drop_last()[j]).w >= 1
                    && rs.drop_last()[j].h >= 1;
            assert(rs[j].w >= 1 && rs[j].h >= 1);
        }
    }
}

/// A single rectangle inside a frame whose area equals the whole frame's
/// area must be the frame itself: there is no room to shift or shrink.
pub proof fn lemma_single_rect_fills(rs: Seq<Rect>, x: int, y: int, w: int, h: int)
    requires
        rs.len() == 1,
        rect_within(rs[0], x, y, w, h),
        area_total(rs) == w * h,
        w >= 1,
        h >= 1,
    ensures
        rs[0].x == x,
        rs[0].y == y,
        rs[0].w == w,
        rs[0].h == h,
{
    assert(rs.drop_last() =~= Seq::<Rect>::empty());
    assert(rs.last() == rs[0]);
    assert(area_total(rs) == area_total(rs.drop_last()) + rect_area(rs.last()));
    assert(rect_area(rs[0]) == w * h);
    let r = rs[0];
    assert(r.w <= w && r.h <= h);
    assert(r.w == w && r.h == h) by (nonlinear_arith)
        requires
            r.w * r.h == w * h && 0 <= r.w <= w && 0 <= r.h <= h && w >= 1 && h >= 1,
    ;
}

/// Splitting a sum at index `i`: the sum of the prefix plus the sum of the
/// suffix.
pub proof fn lemma_total_of_split(s: Seq<i64>, i: int)
    requires
        0 <= i <= s.len(),
    ensures
        total_of(s) == total_of(s.subrange(0, i)) + total_of(s.subrange(i, s.len() as int)),
    decreases s.len() - i,
{
    if i == s.len() {
        assert(s.subrange(0, i) =~= s);
        assert(s.subrange(i, s.len() as int) =~= Seq::<i64>::empty());
    } else {
        lemma_total_of_split(s, i + 1);
        lemma_total_of_first(s.subrange(i, s.len() as int));
        assert(s.subrange(i, s.len() as int).subrange(1, s.len() - i) =~= s.subrange(
            i + 1,
            s.len() as int,
        ));
        lemma_total_of_push(s.subrange(0, i), s[i]);
        assert(s.subrange(0, i + 1) =~= s.subrange(0, i).push(s[i]));
    }
}

} // verus!
