//! Douglas-Peucker simplification of a polyline with integer coordinates.
//!
//! The keep-mask is specified by `keep_mask`, a recursive definition over
//! mathematical integers. The executable code works through an explicit stack
//! of index ranges and is proved to compute exactly that mask, for every
//! 64-bit input: distances are evaluated without rounding or overflow.

use crate::error::InvalidArgument;
use crate::wide::U192;
use vstd::prelude::*;

verus! {

/// Squared distance from the point `(px, py)` to the chord from `(sx, sy)` to
/// `(ex, ey)`.
///
/// For a chord of zero length this is the squared Euclidean distance to its
/// one point. Otherwise it is the squared perpendicular distance to the line
/// through the chord, rounded down to an integer.
pub open spec fn chord_distance_sq(px: int, py: int, sx: int, sy: int, ex: int, ey: int) -> int {
    let dx = ex - sx;
    let dy = ey - sy;
    if dx == 0 && dy == 0 {
        (px - sx) * (px - sx) + (py - sy) * (py - sy)
    } else {
        let area = dx * (sy - py) - (sx - px) * dy;
        (area * area) / (dx * dx + dy * dy)
    }
}

/// Squared distance from sample `i` to the chord between samples `s` and `e`.
pub open spec fn sample_distance_sq(x: Seq<i64>, y: Seq<i64>, s: int, e: int, i: int) -> int {
    chord_distance_sq(x[i] as int, y[i] as int, x[s] as int, y[s] as int, x[e] as int, y[e] as int)
}

/// The lowest index in `s .. hi` whose sample lies farthest from the chord
/// between samples `s` and `e`. Sample `s` itself lies at distance zero.
pub open spec fn farthest(x: Seq<i64>, y: Seq<i64>, s: int, e: int, hi: int) -> int
    decreases hi - s,
{
    if hi <= s + 1 {
        s
    } else {
        let m = farthest(x, y, s, e, hi - 1);
        if sample_distance_sq(x, y, s, e, hi - 1) > sample_distance_sq(x, y, s, e, m) {
            hi - 1
        } else {
            m
        }
    }
}

/// Whether refining the range from `s` to `e` keeps the interior sample `i`.
///
/// The range is split at its farthest interior sample when that sample lies
/// strictly farther from the chord than `eps`; the sample is kept, and both
/// halves are refined in turn. The test `s < m < e` restates what the distance
/// test implies, so that the recursion is plainly well founded.
pub open spec fn kept_within(x: Seq<i64>, y: Seq<i64>, eps: int, s: int, e: int, i: int) -> bool
    decreases e - s,
{
    if e - s <= 1 {
        false
    } else {
        let m = farthest(x, y, s, e, e);
        if s < m < e && sample_distance_sq(x, y, s, e, m) > eps * eps {
            i == m || kept_within(x, y, eps, s, m, i) || kept_within(x, y, eps, m, e, i)
        } else {
            false
        }
    }
}

/// The keep-mask of the polyline `(x, y)` at tolerance `eps`: both end samples,
/// and every interior sample that refinement of the whole range keeps.
pub open spec fn keep_mask(x: Seq<i64>, y: Seq<i64>, eps: int) -> Seq<bool> {
    Seq::new(
        x.len(),
        |i: int| i == 0 || i == x.len() - 1 || kept_within(x, y, eps, 0, x.len() - 1, i),
    )
}

/// `mask` with every sample added that refinement of the whole range keeps.
pub open spec fn refined_mask(mask: Seq<bool>, x: Seq<i64>, y: Seq<i64>, eps: int) -> Seq<bool> {
    Seq::new(mask.len(), |i: int| mask[i] || kept_within(x, y, eps, 0, x.len() - 1, i))
}

/// A sample that coincides with the start of the chord lies at distance zero.
pub proof fn lemma_distance_at_start(px: int, py: int, ex: int, ey: int)
    ensures
        chord_distance_sq(px, py, px, py, ex, ey) == 0,
{
    let dx = ex - px;
    let dy = ey - py;
    if !(dx == 0 && dy == 0) {
        let len_sq = dx * dx + dy * dy;
        assert(len_sq > 0) by (nonlinear_arith)
            requires
                len_sq == dx * dx + dy * dy,
                dx != 0 || dy != 0,
        ;
        let area = dx * (py - py) - (px - px) * dy;
        assert(area * area == 0) by (nonlinear_arith)
            requires
                area == dx * 0 - 0 * dy,
        ;
        assert(0int / len_sq == 0) by (nonlinear_arith)
            requires
                len_sq > 0,
        ;
    }
}

/// `farthest` names the first sample of greatest distance in its range.
pub proof fn lemma_farthest_is_first_maximum(x: Seq<i64>, y: Seq<i64>, s: int, e: int, hi: int)
    requires
        s < hi,
    ensures
        s <= farthest(x, y, s, e, hi) < hi,
        forall|i: int|
            s <= i < hi ==> #[trigger] sample_distance_sq(x, y, s, e, i) <= sample_distance_sq(
                x,
                y,
                s,
                e,
                farthest(x, y, s, e, hi),
            ),
        forall|i: int|
            s <= i < farthest(x, y, s, e, hi) ==> #[trigger] sample_distance_sq(x, y, s, e, i)
                < sample_distance_sq(x, y, s, e, farthest(x, y, s, e, hi)),
    decreases hi - s,
{
    if hi > s + 1 {
        lemma_farthest_is_first_maximum(x, y, s, e, hi - 1);
    }
}

/// Conversely, the first sample of greatest distance in a range is the one
/// that `farthest` names.
pub proof fn lemma_first_maximum_is_farthest(
    x: Seq<i64>,
    y: Seq<i64>,
    s: int,
    e: int,
    hi: int,
    m: int,
)
    requires
        s <= m < hi,
        forall|i: int|
            s <= i < hi ==> #[trigger] sample_distance_sq(x, y, s, e, i) <= sample_distance_sq(
                x,
                y,
                s,
                e,
                m,
            ),
        forall|i: int|
            s <= i < m ==> #[trigger] sample_distance_sq(x, y, s, e, i) < sample_distance_sq(
                x,
                y,
                s,
                e,
                m,
            ),
    ensures
        farthest(x, y, s, e, hi) == m,
{
    lemma_farthest_is_first_maximum(x, y, s, e, hi);
    let f = farthest(x, y, s, e, hi);
    assert(sample_distance_sq(x, y, s, e, f) <= sample_distance_sq(x, y, s, e, m));
    assert(sample_distance_sq(x, y, s, e, m) <= sample_distance_sq(x, y, s, e, f));
}

/// Refinement keeps interior samples only.
pub proof fn lemma_kept_is_interior(x: Seq<i64>, y: Seq<i64>, eps: int, s: int, e: int, i: int)
    requires
        kept_within(x, y, eps, s, e, i),
    ensures
        s < i < e,
    decreases e - s,
{
    let m = farthest(x, y, s, e, e);
    if i != m {
        if kept_within(x, y, eps, s, m, i) {
            lemma_kept_is_interior(x, y, eps, s, m, i);
        } else {
            lemma_kept_is_interior(x, y, eps, m, e, i);
        }
    }
}

/// `|a - b|`, and whether `a - b` is negative.
fn span(a: i64, b: i64) -> (r: (u64, bool))
    ensures
        r.1 == (a - b < 0),
        r.0 as int == (if a - b < 0 {
            b - a
        } else {
            a - b
        }),
{
    if a >= b {
        ((a as i128 - b as i128) as u64, false)
    } else {
        ((b as i128 - a as i128) as u64, true)
    }
}

/// The product of two signed numbers from their magnitudes and signs.
proof fn lemma_signed_product(a: int, b: int, ma: int, mb: int, na: bool, nb: bool)
    requires
        ma == (if na {
            -a
        } else {
            a
        }),
        mb == (if nb {
            -b
        } else {
            b
        }),
    ensures
        a * b == (if na != nb {
            -(ma * mb)
        } else {
            ma * mb
        }),
{
    assert(a * b == (if na != nb {
        -(ma * mb)
    } else {
        ma * mb
    })) by (nonlinear_arith)
        requires
            ma == a || ma == -a,
            mb == b || mb == -b,
            na ==> ma == -a,
            !na ==> ma == a,
            nb ==> mb == -b,
            !nb ==> mb == b,
    ;
}

/// Lagrange's identity: the squared cross product never exceeds the product of
/// the squared lengths.
proof fn lemma_cross_bound(dx: int, dy: int, ux: int, uy: int)
    ensures
        (dx * uy - ux * dy) * (dx * uy - ux * dy) <= (dx * dx + dy * dy) * (ux * ux + uy * uy),
{
    let ad = dx * uy;
    let cb = ux * dy;
    let ac = dx * ux;
    let bd = dy * uy;
    let (aa, bb, cc, dd) = (dx * dx, dy * dy, ux * ux, uy * uy);
    assert((ad - cb) * (ad - cb) == ad * ad - 2 * (ad * cb) + cb * cb) by (nonlinear_arith);
    assert((ac + bd) * (ac + bd) == ac * ac + 2 * (ac * bd) + bd * bd) by (nonlinear_arith);
    assert((ac + bd) * (ac + bd) >= 0) by (nonlinear_arith);
    assert(ad * cb == ac * bd) by (nonlinear_arith)
        requires
            ad == dx * uy,
            cb == ux * dy,
            ac == dx * ux,
            bd == dy * uy,
    ;
    assert(ad * ad == aa * dd) by (nonlinear_arith)
        requires
            ad == dx * uy,
            aa == dx * dx,
            dd == uy * uy,
    ;
    assert(cb * cb == bb * cc) by (nonlinear_arith)
        requires
            cb == ux * dy,
            bb == dy * dy,
            cc == ux * ux,
    ;
    assert(ac * ac == aa * cc) by (nonlinear_arith)
        requires
            ac == dx * ux,
            aa == dx * dx,
            cc == ux * ux,
    ;
    assert(bd * bd == bb * dd) by (nonlinear_arith)
        requires
            bd == dy * uy,
            bb == dy * dy,
            dd == uy * uy,
    ;
    assert((aa + bb) * (cc + dd) == aa * cc + aa * dd + bb * cc + bb * dd) by (nonlinear_arith);
}

/// Squared distance from `(x, y)` to the chord from `(x1, y1)` to `(x2, y2)`,
/// exact for all 64-bit coordinates.
pub fn perpendicular_distance_squared(x: i64, y: i64, x1: i64, y1: i64, x2: i64, y2: i64) -> (d:
    U192)
    ensures
        d.value() == chord_distance_sq(x as int, y as int, x1 as int, y1 as int, x2 as int, y2 as int),
{
    let (dx, dx_neg) = span(x2, x1);
    let (dy, dy_neg) = span(y2, y1);
    let (ux, ux_neg) = span(x1, x);
    let (uy, uy_neg) = span(y1, y);
    let ghost sdx = x2 - x1;
    let ghost sdy = y2 - y1;
    let ghost sux = x1 - x;
    let ghost suy = y1 - y;
    proof {
        lemma_signed_product(sux, sux, ux as int, ux as int, ux_neg, ux_neg);
        lemma_signed_product(suy, suy, uy as int, uy as int, uy_neg, uy_neg);
        lemma_signed_product(sdx, sdx, dx as int, dx as int, dx_neg, dx_neg);
        lemma_signed_product(sdy, sdy, dy as int, dy as int, dy_neg, dy_neg);
        lemma_signed_product(sdx, suy, dx as int, uy as int, dx_neg, uy_neg);
        lemma_signed_product(sux, sdy, ux as int, dy as int, ux_neg, dy_neg);
        lemma_product_bound(ux as int, 0x1_0000_0000_0000_0000, ux as int, 0x1_0000_0000_0000_0000);
        lemma_product_bound(uy as int, 0x1_0000_0000_0000_0000, uy as int, 0x1_0000_0000_0000_0000);
        lemma_product_bound(dx as int, 0x1_0000_0000_0000_0000, dx as int, 0x1_0000_0000_0000_0000);
        lemma_product_bound(dy as int, 0x1_0000_0000_0000_0000, dy as int, 0x1_0000_0000_0000_0000);
        lemma_product_bound(dx as int, 0x1_0000_0000_0000_0000, uy as int, 0x1_0000_0000_0000_0000);
        lemma_product_bound(ux as int, 0x1_0000_0000_0000_0000, dy as int, 0x1_0000_0000_0000_0000);
        assert((x - x1) * (x - x1) == sux * sux) by (nonlinear_arith)
            requires
                sux == x1 - x,
        ;
        assert((y - y1) * (y - y1) == suy * suy) by (nonlinear_arith)
            requires
                suy == y1 - y,
        ;
    }
    let ux_sq: u128 = (ux as u128) * (ux as u128);
    let uy_sq: u128 = (uy as u128) * (uy as u128);
    if dx == 0 && dy == 0 {
        return U192::from_u128(ux_sq).plus(&U192::from_u128(uy_sq));
    }
    let p: u128 = (dx as u128) * (uy as u128);
    let q: u128 = (ux as u128) * (dy as u128);
    let same_sign = (dx_neg != uy_neg) == (ux_neg != dy_neg);
    let dx_sq: u128 = (dx as u128) * (dx as u128);
    let dy_sq: u128 = (dy as u128) * (dy as u128);
    let ghost area = sdx * suy - sux * sdy;
    let ghost len_sq = sdx * sdx + sdy * sdy;
    assert(len_sq > 0) by (nonlinear_arith)
        requires
            len_sq == sdx * sdx + sdy * sdy,
            sdx != 0 || sdy != 0,
    ;
    if dx < 0x8000_0000 && dy < 0x8000_0000 && ux < 0x8000_0000 && uy < 0x8000_0000 {
        proof {
            lemma_product_bound(dx as int, 0x8000_0000, uy as int, 0x8000_0000);
            lemma_product_bound(ux as int, 0x8000_0000, dy as int, 0x8000_0000);
            lemma_product_bound(dx as int, 0x8000_0000, dx as int, 0x8000_0000);
            lemma_product_bound(dy as int, 0x8000_0000, dy as int, 0x8000_0000);
        }
        let a: u128 = if same_sign {
            if p >= q {
                p - q
            } else {
                q - p
            }
        } else {
            p + q
        };
        proof {
            lemma_product_bound(a as int, 0x8000_0000_0000_0000, a as int, 0x8000_0000_0000_0000);
            assert(a * a == area * area) by (nonlinear_arith)
                requires
                    a == area || a == -area,
            ;
        }
        return U192::from_u128((a * a) / (dx_sq + dy_sq));
    }
    let magnitude = if same_sign {
        if p >= q {
            U192::from_u128(p - q)
        } else {
            U192::from_u128(q - p)
        }
    } else {
        U192::from_u128(p).plus(&U192::from_u128(q))
    };
    let length = U192::from_u128(dx_sq).plus(&U192::from_u128(dy_sq));
    let reach = U192::from_u128(ux_sq).plus(&U192::from_u128(uy_sq));
    let bound = reach.plus(&U192::from_u128(1));
    let square = magnitude.times(&magnitude);
    proof {
        let m = magnitude.value();
        assert(m * m == area * area) by (nonlinear_arith)
            requires
                m == area || m == -area,
        ;
        lemma_cross_bound(sdx, sdy, sux, suy);
        assert(bound.value() * len_sq == reach.value() * len_sq + len_sq) by (nonlinear_arith)
            requires
                bound.value() == reach.value() + 1,
        ;
        assert(reach.value() * len_sq == len_sq * (sux * sux + suy * suy)) by (nonlinear_arith)
            requires
                reach.value() == sux * sux + suy * suy,
        ;
    }
    square.quotient(&length, &bound)
}

/// Two magnitudes below their bounds have a product of at most the product
/// of the largest values allowed.
proof fn lemma_product_bound(a: int, bound_a: int, b: int, bound_b: int)
    requires
        0 <= a < bound_a,
        0 <= b < bound_b,
    ensures
        0 <= a * b <= (bound_a - 1) * (bound_b - 1),
{
    assert(0 <= a * b <= (bound_a - 1) * (bound_b - 1)) by (nonlinear_arith)
        requires
            0 <= a <= bound_a - 1,
            0 <= b <= bound_b - 1,
    ;
}

/// The first sample of greatest distance from the chord between `start` and
/// `end`, and that distance.
fn find_max_distance(x: &[i64], y: &[i64], start: usize, end: usize) -> (r: (usize, U192))
    requires
        x.len() == y.len(),
        start < end < x.len(),
    ensures
        r.0 == farthest(x@, y@, start as int, end as int, end as int),
        start <= r.0 < end,
        r.1.value() == sample_distance_sq(x@, y@, start as int, end as int, r.0 as int),
{
    let sx = x[start];
    let sy = y[start];
    let ex = x[end];
    let ey = y[end];
    let mut max_index = start;
    let mut max_distance = U192::from_u128(0);
    proof {
        lemma_distance_at_start(sx as int, sy as int, ex as int, ey as int);
    }
    let mut i = start + 1;
    while i < end
        invariant
            x.len() == y.len(),
            start < i <= end < x.len(),
            sx == x@[start as int],
            sy == y@[start as int],
            ex == x@[end as int],
            ey == y@[end as int],
            start <= max_index < i,
            max_index == farthest(x@, y@, start as int, end as int, i as int),
            max_distance.value() == sample_distance_sq(
                x@,
                y@,
                start as int,
                end as int,
                max_index as int,
            ),
        decreases end - i,
    {
        let d = perpendicular_distance_squared(x[i], y[i], sx, sy, ex, ey);
        if max_distance.less(&d) {
            max_distance = d;
            max_index = i;
        }
        i += 1;
    }
    (max_index, max_distance)
}

/// Whether refining any of the ranges on `stack` keeps sample `i`.
spec fn pending_keeps(
    x: Seq<i64>,
    y: Seq<i64>,
    eps: int,
    stack: Seq<(usize, usize)>,
    i: int,
) -> bool
    decreases stack.len(),
{
    stack.len() > 0 && (kept_within(x, y, eps, stack.last().0 as int, stack.last().1 as int, i)
        || pending_keeps(x, y, eps, stack.drop_last(), i))
}

/// An upper bound on the number of ranges that refining `s .. e` still pops.
spec fn range_work(s: int, e: int) -> int {
    if e - s <= 0 {
        1
    } else {
        2 * (e - s) - 1
    }
}

/// The sum of `range_work` over the ranges on `stack`.
spec fn stack_work(stack: Seq<(usize, usize)>) -> int
    decreases stack.len(),
{
    if stack.len() == 0 {
        0
    } else {
        range_work(stack.last().0 as int, stack.last().1 as int) + stack_work(stack.drop_last())
    }
}

/// No stack has negative work left.
proof fn lemma_stack_work_nonnegative(stack: Seq<(usize, usize)>)
    ensures
        stack_work(stack) >= 0,
    decreases stack.len(),
{
    if stack.len() > 0 {
        lemma_stack_work_nonnegative(stack.drop_last());
    }
}

/// A range on top of the stack that keeps nothing can be dropped.
proof fn lemma_unsplit_range_drops(
    x: Seq<i64>,
    y: Seq<i64>,
    eps: int,
    stack: Seq<(usize, usize)>,
    mask: Seq<bool>,
    target: Seq<bool>,
)
    requires
        stack.len() > 0,
        mask.len() == target.len(),
        forall|i: int| !kept_within(x, y, eps, stack.last().0 as int, stack.last().1 as int, i),
        forall|i: int|
            0 <= i < mask.len() ==> #[trigger] target[i] == (mask[i] || pending_keeps(
                x,
                y,
                eps,
                stack,
                i,
            )),
    ensures
        stack_work(stack.drop_last()) < stack_work(stack),
        forall|i: int|
            0 <= i < mask.len() ==> #[trigger] target[i] == (mask[i] || pending_keeps(
                x,
                y,
                eps,
                stack.drop_last(),
                i,
            )),
{
    assert forall|i: int| 0 <= i < mask.len() implies #[trigger] target[i] == (mask[i]
        || pending_keeps(x, y, eps, stack.drop_last(), i)) by {
        assert(target[i] == (mask[i] || pending_keeps(x, y, eps, stack, i)));
        assert(!kept_within(x, y, eps, stack.last().0 as int, stack.last().1 as int, i));
    }
}

/// Adds to `result` every sample that refinement of the whole polyline keeps.
///
/// The ranges still to refine wait on an explicit stack, so the depth of the
/// call stack does not grow with the input.
pub fn douglas_peucker_iterative(x: &[i64], y: &[i64], epsilon: i64, result: &mut [bool])
    requires
        x.len() == y.len(),
        x.len() == old(result).len(),
    ensures
        final(result)@ == refined_mask(old(result)@, x@, y@, epsilon as int),
{
    let n = x.len();
    let ghost eps = epsilon as int;
    let ghost target = refined_mask(old(result)@, x@, y@, eps);
    if n == 0 {
        assert(result@ =~= target);
        return ;
    }
    let (tolerance, negative) = span(epsilon, 0);
    proof {
        lemma_signed_product(eps, eps, tolerance as int, tolerance as int, negative, negative);
        lemma_product_bound(
            tolerance as int,
            0x1_0000_0000_0000_0000,
            tolerance as int,
            0x1_0000_0000_0000_0000,
        );
    }
    let epsilon_squared = U192::from_u128((tolerance as u128) * (tolerance as u128));
    let mut stack: Vec<(usize, usize)> = Vec::with_capacity(64);
    stack.push((0, n - 1));
    proof {
        assert(stack@.drop_last() =~= Seq::<(usize, usize)>::empty());
        assert(!pending_keeps(x@, y@, eps, stack@.drop_last(), 0));
        assert forall|i: int| 0 <= i < n implies target[i] == (result@[i] || pending_keeps(
            x@,
            y@,
            eps,
            stack@,
            i,
        )) by {
            assert(!pending_keeps(x@, y@, eps, stack@.drop_last(), i));
        }
    }
    while stack.len() > 0
        invariant
            n == x.len(),
            n == y.len(),
            n == result.len(),
            n == target.len(),
            eps == epsilon as int,
            epsilon_squared.value() == eps * eps,
            forall|k: int| 0 <= k < stack@.len() ==> (#[trigger] stack@[k]).0 <= stack@[k].1 < n,
            forall|i: int|
                0 <= i < n ==> #[trigger] target[i] == (result@[i] || pending_keeps(
                    x@,
                    y@,
                    eps,
                    stack@,
                    i,
                )),
        decreases stack_work(stack@),
    {
        let ghost before = stack@;
        let ghost mask_before = result@;
        let (start, end) = stack.pop().unwrap();
        let ghost rest = stack@;
        assert(rest =~= before.drop_last());
        assert(before.last() == (start, end));
        proof {
            lemma_stack_work_nonnegative(rest);
        }
        if end - start > 1 {
            let (max_index, max_distance) = find_max_distance(x, y, start, end);
            if epsilon_squared.less(&max_distance) {
                proof {
                    lemma_distance_at_start(
                        x@[start as int] as int,
                        y@[start as int] as int,
                        x@[end as int] as int,
                        y@[end as int] as int,
                    );
                    assert(eps * eps >= 0) by (nonlinear_arith);
                    assert(start < max_index);
                }
                result[max_index] = true;
                stack.push((start, max_index));
                let ghost first = stack@;
                stack.push((max_index, end));
                proof {
                    assert(first.drop_last() =~= rest);
                    assert(stack@.drop_last() =~= first);
                    assert(stack@.last() == (max_index, end));
                    assert(first.last() == (start, max_index));
                    assert(stack_work(stack@) == range_work(max_index as int, end as int)
                        + stack_work(first));
                    assert(stack_work(first) == range_work(start as int, max_index as int)
                        + stack_work(rest));
                    assert(stack_work(before) == range_work(start as int, end as int) + stack_work(
                        rest,
                    ));
                    assert forall|i: int| 0 <= i < n implies #[trigger] target[i] == (result@[i]
                        || pending_keeps(x@, y@, eps, stack@, i)) by {
                        let (s, m, e) = (start as int, max_index as int, end as int);
                        assert(target[i] == (mask_before[i] || pending_keeps(x@, y@, eps, before, i)));
                        assert(pending_keeps(x@, y@, eps, before, i) == (kept_within(
                            x@,
                            y@,
                            eps,
                            s,
                            e,
                            i,
                        ) || pending_keeps(x@, y@, eps, rest, i)));
                        assert(pending_keeps(x@, y@, eps, first, i) == (kept_within(
                            x@,
                            y@,
                            eps,
                            s,
                            m,
                            i,
                        ) || pending_keeps(x@, y@, eps, rest, i)));
                        assert(pending_keeps(x@, y@, eps, stack@, i) == (kept_within(
                            x@,
                            y@,
                            eps,
                            m,
                            e,
                            i,
                        ) || pending_keeps(x@, y@, eps, first, i)));
                        assert(kept_within(x@, y@, eps, s, e, i) == (i == m || kept_within(
                            x@,
                            y@,
                            eps,
                            s,
                            m,
                            i,
                        ) || kept_within(x@, y@, eps, m, e, i)));
                        assert(result@[i] == (mask_before[i] || i == m));
                    }
                }
            } else {
                proof {
                    lemma_unsplit_range_drops(x@, y@, eps, before, mask_before, target);
                }
            }
        } else {
            proof {
                lemma_unsplit_range_drops(x@, y@, eps, before, mask_before, target);
            }
        }
    }
    assert(result@ =~= target);
}

/// Computes the keep-mask of the polyline `(positions_x, positions_y)`.
///
/// The mask has one entry per sample. Both end samples are kept; an interior
/// sample is kept exactly when the recursive refinement of `keep_mask` selects
/// it. Polylines of at most two samples are kept whole.
///
/// Fails when the two slices differ in length, and otherwise when `epsilon` is
/// negative.
pub fn simplify(positions_x: &[i64], positions_y: &[i64], epsilon: i64) -> (r: Result<
    Vec<bool>,
    InvalidArgument,
>)
    ensures
        positions_x.len() != positions_y.len() <==> r == Err::<Vec<bool>, _>(
            InvalidArgument::LengthMismatch,
        ),
        positions_x.len() == positions_y.len() && epsilon < 0 <==> r == Err::<Vec<bool>, _>(
            InvalidArgument::NegativeTolerance,
        ),
        positions_x.len() == positions_y.len() && epsilon >= 0 <==> r is Ok,
        r matches Ok(mask) ==> mask@ == keep_mask(positions_x@, positions_y@, epsilon as int),
        r matches Ok(mask) ==> mask@.len() == positions_x@.len(),
        r matches Ok(mask) ==> (mask@.len() >= 1 ==> mask@[0] && mask@[mask@.len() - 1]),
        r matches Ok(mask) ==> (mask@.len() <= 2 ==> forall|i: int|
            0 <= i < mask@.len() ==> mask@[i]),
{
    if positions_x.len() != positions_y.len() {
        return Err(InvalidArgument::LengthMismatch);
    }
    if epsilon < 0 {
        return Err(InvalidArgument::NegativeTolerance);
    }
    let n = positions_x.len();
    if n <= 2 {
        let whole = vec![true; n];
        assert(whole@ =~= keep_mask(positions_x@, positions_y@, epsilon as int));
        return Ok(whole);
    }
    let mut result = vec![false; n];
    result[0] = true;
    result[n - 1] = true;
    douglas_peucker_iterative(positions_x, positions_y, epsilon, result.as_mut_slice());
    assert(result@ =~= keep_mask(positions_x@, positions_y@, epsilon as int));
    Ok(result)
}

} // verus!
