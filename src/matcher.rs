use vstd::prelude::*;
use crate::profile::{interp, profile_wf, total_len, Profile, MAX_DIST, MAX_ELEV, MAX_POINTS};

verus! {

/// Largest absolute difference of two curves that the integral accepts.
pub const MAX_DIFF: i128 = 0x10_0000_0000_0000;

/// Largest interval length that the integral accepts.
pub const MAX_LEN: i128 = 0x4_0000_0000_0000;

pub open spec fn abs(x: int) -> int {
    if x >= 0 {
        x
    } else {
        -x
    }
}

/// Both ends on the same side of zero (zero counts for either side).
pub open spec fn same_side(a: int, b: int) -> bool {
    (a >= 0 && b >= 0) || (a <= 0 && b <= 0)
}

/// The integral over `[0, len]` of the absolute value of the line from `a`
/// to `b`: a trapezoid when the line keeps its sign, two triangles split at
/// the zero crossing otherwise (rounded down at each division).
pub open spec fn area_under(len: int, a: int, b: int) -> int {
    if same_side(a, b) || len == 0 {
        (abs(a) + abs(b)) * len / 2
    } else {
        let t0 = abs(a) * len / (abs(a) + abs(b));
        (abs(a) * t0 + abs(b) * (len - t0)) / 2
    }
}

/// Integral of `|diff_start + x / len * (diff_end - diff_start)|` for `x`
/// over `[0, len]`.
pub fn integral_abs_diff(len: i128, diff_start: i128, diff_end: i128) -> (r: i128)
    requires
        0 <= len <= MAX_LEN,
        -MAX_DIFF <= diff_start <= MAX_DIFF,
        -MAX_DIFF <= diff_end <= MAX_DIFF,
    ensures
        r == area_under(len as int, diff_start as int, diff_end as int),
        0 <= r <= MAX_DIFF * len,
{
    let a: i128 = if diff_start >= 0 { diff_start } else { -diff_start };
    let b: i128 = if diff_end >= 0 { diff_end } else { -diff_end };
    proof {
        assert(0 <= (a + b) * len <= 2 * MAX_DIFF * len) by (nonlinear_arith)
            requires 0 <= a <= MAX_DIFF, 0 <= b <= MAX_DIFF, 0 <= len;
        assert(2 * MAX_DIFF * MAX_LEN < 0x1_0000_0000_0000_0000_0000_0000_0000);
        assert(2 * MAX_DIFF * len <= 2 * MAX_DIFF * MAX_LEN) by (nonlinear_arith)
            requires 0 <= len <= MAX_LEN;
    }
    if (diff_start >= 0 && diff_end >= 0) || (diff_start <= 0 && diff_end <= 0) || len == 0 {
        return (a + b) * len / 2;
    }
    proof {
        assert(0 <= a * len <= (a + b) * len) by (nonlinear_arith)
            requires 0 <= a, 0 <= b, 0 <= len;
        assert((a * len) / (a + b) <= len) by (nonlinear_arith)
            requires 0 <= a * len <= (a + b) * len, a + b > 0;
        assert(0 <= (a * len) / (a + b)) by (nonlinear_arith)
            requires 0 <= a * len, a + b > 0;
    }
    let t0 = a * len / (a + b);
    proof {
        assert(0 <= a * t0 + b * (len - t0) <= MAX_DIFF * len) by (nonlinear_arith)
            requires 0 <= a <= MAX_DIFF, 0 <= b <= MAX_DIFF, 0 <= t0 <= len;
        assert(MAX_DIFF * len <= MAX_DIFF * MAX_LEN) by (nonlinear_arith)
            requires 0 <= len <= MAX_LEN;
    }
    (a * t0 + b * (len - t0)) / 2
}

/// A constant difference gives a rectangle.
pub proof fn lemma_constant_difference(len: int, a: int)
    requires
        len >= 0,
    ensures
        area_under(len, a, a) == abs(a) * len,
{
    assert((abs(a) + abs(a)) * len == 2 * (abs(a) * len)) by (nonlinear_arith);
}

/// A profile scored against itself without calibration scores 0.
pub proof fn lemma_self_score_zero(p: Seq<(i64, i64)>)
    requires
        profile_wf(p),
    ensures
        area_score(p, p, false) == 0,
{
    lemma_walk_self(p, 0, 0);
}

proof fn lemma_walk_self(p: Seq<(i64, i64)>, i: int, s: int)
    requires
        profile_wf(p),
        0 <= i < p.len(),
    ensures
        walk(p, p, i, i, s, 0) == 0,
    decreases p.len() - i,
{
    if i < p.len() - 1 {
        let next = next_break(p, p, i, i);
        assert(next == p[i + 1].0);
        if next - s > 0 {
            assert(area_under(next - s, 0, 0) == 0);
        }
        lemma_walk_self(p, i + 1, next);
    }
}

/// Adding a constant `k` to the actual curve at every distance, the origin
/// included, leaves its calibrated area against the target unchanged: the
/// calibration absorbs the shift.
pub proof fn lemma_calibration_cancels_shift(a: Seq<(i64, i64)>, t: Seq<(i64, i64)>, k: int)
    requires
        profile_wf(a),
        profile_wf(t),
    ensures
        calibrated_area(a, t, k) == calibrated_area(a, t, 0),
{
    let n = t.len() as int;
    lemma_diff_sum_shift(a, t, k, n);
    let s0 = diff_sum(a, t, 0, n);
    vstd::arithmetic::div_mod::lemma_fundamental_div_mod(s0, n);
    let q = s0 / n;
    let r = s0 % n;
    assert(s0 + n * k == n * (q + k) + r) by (nonlinear_arith)
        requires s0 == n * q + r;
    vstd::arithmetic::div_mod::lemma_fundamental_div_mod_converse(s0 + n * k, n, q + k, r);
    assert(k + calibration(a, t, k) == calibration(a, t, 0));
}

proof fn lemma_diff_sum_shift(a: Seq<(i64, i64)>, t: Seq<(i64, i64)>, k: int, n: int)
    requires
        n >= 0,
    ensures
        diff_sum(a, t, k, n) == diff_sum(a, t, 0, n) + n * k,
    decreases n,
{
    if n > 0 {
        lemma_diff_sum_shift(a, t, k, n - 1);
        assert((n - 1) * k + k == n * k) by (nonlinear_arith);
    } else {
        assert(n * k == 0) by (nonlinear_arith)
            requires n == 0;
    }
}

/// The next merge point of the two breakpoint walks, at positions `ia` and
/// `it`.
pub open spec fn next_break(a: Seq<(i64, i64)>, t: Seq<(i64, i64)>, ia: int, it: int) -> int {
    let ea = ia < a.len() - 1;
    let et = it < t.len() - 1;
    if ea && et {
        if a[ia + 1].0 <= t[it + 1].0 {
            a[ia + 1].0 as int
        } else {
            t[it + 1].0 as int
        }
    } else if ea {
        a[ia + 1].0 as int
    } else {
        t[it + 1].0 as int
    }
}

pub open spec fn walk_measure(a: Seq<(i64, i64)>, t: Seq<(i64, i64)>, ia: int, it: int) -> int {
    (if ia < a.len() - 1 { a.len() - 1 - ia } else { 0 }) + (if it < t.len() - 1 {
        t.len() - 1 - it
    } else {
        0
    })
}

/// The area between `actual + z` and `target` from the merge point `s` on,
/// one linear piece at a time: the breakpoints of both curves, merged in
/// ascending order, cut `[0, end]` into pieces on which both are linear.
pub open spec fn walk(a: Seq<(i64, i64)>, t: Seq<(i64, i64)>, ia: int, it: int, s: int, z: int) -> int
    decreases walk_measure(a, t, ia, it),
{
    if ia >= a.len() - 1 && it >= t.len() - 1 {
        0
    } else {
        let next = next_break(a, t, ia, it);
        let piece = if next - s > 0 {
            area_under(
                next - s,
                interp(a, s) + z - interp(t, s),
                interp(a, next) + z - interp(t, next),
            )
        } else {
            0
        };
        let ia2 = if ia < a.len() - 1 && next == a[ia + 1].0 { ia + 1 } else { ia };
        let it2 = if it < t.len() - 1 && next == t[it + 1].0 { it + 1 } else { it };
        piece + walk(a, t, ia2, it2, next, z)
    }
}

/// Sum over the first `n` target breakpoints of `actual + k` minus the
/// target's elevation there.
pub open spec fn diff_sum(a: Seq<(i64, i64)>, t: Seq<(i64, i64)>, k: int, n: int) -> int
    decreases n,
{
    if n <= 0 {
        0
    } else {
        diff_sum(a, t, k, n - 1) + (interp(a, t[n - 1].0 as int) + k - t[n - 1].1)
    }
}

/// The shift that zeroes the mean difference of `actual + k` from the
/// target at the target's breakpoints (mean rounded down).
pub open spec fn calibration(a: Seq<(i64, i64)>, t: Seq<(i64, i64)>, k: int) -> int {
    -(diff_sum(a, t, k, t.len() as int) / (t.len() as int))
}

/// The calibrated area of the curve `actual + k` (shifted everywhere, the
/// origin included) against the target.
pub open spec fn calibrated_area(a: Seq<(i64, i64)>, t: Seq<(i64, i64)>, k: int) -> int {
    walk(a, t, 0, 0, 0, k + calibration(a, t, k))
}

/// The score of `actual` against `target`: 0 for a target of length 0, the
/// raw area between the curves, or with `use_offset` the area after the
/// calibrating shift.
pub open spec fn area_score(a: Seq<(i64, i64)>, t: Seq<(i64, i64)>, use_offset: bool) -> int {
    if total_len(t) == 0 {
        0
    } else if !use_offset {
        walk(a, t, 0, 0, 0, 0)
    } else {
        calibrated_area(a, t, 0)
    }
}

/// Compares an actual profile with a target: lower is better, 0 a perfect
/// match.
pub trait ProfileMatcher {
    spec fn score_of(&self, actual: Seq<(i64, i64)>, target: Seq<(i64, i64)>) -> int;

    fn score(&self, actual: &Profile, target: &Profile) -> (r: i128)
        requires
            actual.wf(),
            target.wf(),
            actual.points.len() + target.points.len() <= MAX_POINTS,
        ensures
            r == self.score_of(actual.points@, target.points@),
            r >= 0,
    ;
}

/// Scores by the area between the two curves, optionally after shifting the
/// actual curve to the target's mean level.
#[derive(Clone, Copy, Debug)]
pub struct AreaMatcher {
    pub use_offset: bool,
}

impl ProfileMatcher for AreaMatcher {
    open spec fn score_of(&self, actual: Seq<(i64, i64)>, target: Seq<(i64, i64)>) -> int {
        area_score(actual, target, self.use_offset)
    }

    fn score(&self, actual: &Profile, target: &Profile) -> (r: i128) {
        let l = target.total_length();
        if l == 0 {
            return 0;
        }
        if !self.use_offset {
            return area_between(actual, target, 0);
        }
        let z0 = calibration_of(actual, target);
        area_between(actual, target, z0)
    }
}

/// The calibrating shift of `actual` against `target`.
fn calibration_of(actual: &Profile, target: &Profile) -> (r: i128)
    requires
        actual.wf(),
        target.wf(),
    ensures
        r == calibration(actual.points@, target.points@, 0),
        -0x8_0000_0000_0000 <= r <= 0x8_0000_0000_0000,
{
    let n = target.points.len();
    let mut sum: i128 = 0;
    let mut i: usize = 0;
    while i < n
        invariant
            actual.wf(),
            target.wf(),
            n == target.points.len(),
            0 <= i <= n,
            sum == diff_sum(actual.points@, target.points@, 0, i as int),
            -(i as int) * 0x8_0000_0000_0000 <= sum <= (i as int) * 0x8_0000_0000_0000,
        decreases n - i,
    {
        let p = target.points[i];
        assert(crate::profile::point_ok(target.points@[i as int]));
        let v = actual.interpolate(p.0);
        proof {
            assert((i as int) * 0x8_0000_0000_0000 <= MAX_POINTS * 0x8_0000_0000_0000)
                by (nonlinear_arith) requires i <= MAX_POINTS;
        }
        sum = sum + (v as i128 - p.1 as i128);
        i = i + 1;
    }
    let nn = n as i128;
    proof {
        lemma_mean_bound(sum as int, nn as int, 0x8_0000_0000_0000);
    }
    let q = if sum >= 0 {
        sum / nn
    } else {
        proof {
            lemma_floor_neg(sum as int, nn as int);
        }
        -((-sum + nn - 1) / nn)
    };
    -q
}

/// `floor(s / n)` for negative `s`, through non-negative division.
proof fn lemma_floor_neg(s: int, n: int)
    requires
        s < 0,
        n > 0,
    ensures
        -((-s + n - 1) / n) == s / n,
{
    let q = s / n;
    let r = s % n;
    assert(s == n * q + r && 0 <= r < n) by {
        vstd::arithmetic::div_mod::lemma_fundamental_div_mod(s, n);
    }
    let m = -s + n - 1;
    assert(m == n * (-q) + (n - 1 - r)) by (nonlinear_arith)
        requires s == n * q + r, m == -s + n - 1;
    vstd::arithmetic::div_mod::lemma_fundamental_div_mod_converse(m, n, -q, n - 1 - r);
}

/// A mean of values bounded by `m` is bounded by `m`.
proof fn lemma_mean_bound(s: int, n: int, m: int)
    requires
        n > 0,
        m >= 0,
        -n * m <= s <= n * m,
    ensures
        -m <= s / n <= m,
{
    vstd::arithmetic::div_mod::lemma_fundamental_div_mod(s, n);
    let q = s / n;
    let r = s % n;
    assert(-m <= q <= m) by (nonlinear_arith)
        requires s == n * q + r, 0 <= r < n, -n * m <= s <= n * m, n > 0;
}

/// The area between `actual + z` and `target` over their merged breakpoints.
fn area_between(actual: &Profile, target: &Profile, z: i128) -> (r: i128)
    requires
        actual.wf(),
        target.wf(),
        actual.points.len() + target.points.len() <= MAX_POINTS,
        -0x8_0000_0000_0000 <= z <= 0x8_0000_0000_0000,
    ensures
        r == walk(actual.points@, target.points@, 0, 0, 0, z as int),
        r >= 0,
{
    let ghost a = actual.points@;
    let ghost t = target.points@;
    let na = actual.points.len();
    let nt = target.points.len();
    let mut ia: usize = 0;
    let mut it: usize = 0;
    let mut s: i64 = 0;
    let mut area: i128 = 0;
    while ia < na - 1 || it < nt - 1
        invariant
            actual.wf(),
            target.wf(),
            a == actual.points@,
            t == target.points@,
            na == a.len(),
            nt == t.len(),
            na + nt <= MAX_POINTS,
            -0x8_0000_0000_0000 <= z <= 0x8_0000_0000_0000,
            0 <= ia < na,
            0 <= it < nt,
            0 <= s <= MAX_DIST,
            area + walk(a, t, ia as int, it as int, s as int, z as int) == walk(
                a,
                t,
                0,
                0,
                0,
                z as int,
            ),
            0 <= area <= (ia + it) * (MAX_DIFF * MAX_LEN),
        decreases walk_measure(a, t, ia as int, it as int),
    {
        let ea = ia < na - 1;
        let et = it < nt - 1;
        let next: i64 = if ea && et {
            let xa = actual.points[ia + 1].0;
            let xt = target.points[it + 1].0;
            if xa <= xt {
                xa
            } else {
                xt
            }
        } else if ea {
            actual.points[ia + 1].0
        } else {
            target.points[it + 1].0
        };
        assert(next == next_break(a, t, ia as int, it as int));
        assert(ea ==> crate::profile::point_ok(a[ia + 1]));
        assert(et ==> crate::profile::point_ok(t[it + 1]));
        let ghost old_steps = ia + it;
        let ghost old_area = area;
        let mut piece: i128 = 0;
        if next - s > 0 {
            let a0 = actual.interpolate(s) as i128 + z - target.interpolate(s) as i128;
            let a1 = actual.interpolate(next) as i128 + z - target.interpolate(next) as i128;
            piece = integral_abs_diff((next - s) as i128, a0, a1);
            proof {
                assert(MAX_DIFF * ((next - s) as int) <= MAX_DIFF * MAX_LEN) by (nonlinear_arith)
                    requires 0 <= next - s <= MAX_LEN;
            }
        }
        if ea && next == actual.points[ia + 1].0 {
            ia = ia + 1;
        }
        if et && next == target.points[it + 1].0 {
            it = it + 1;
        }
        proof {
            assert(ia + it >= old_steps + 1);
            assert(ia + it <= MAX_POINTS);
            let c = MAX_DIFF * MAX_LEN;
            assert(old_area + piece <= (ia + it) * c) by (nonlinear_arith)
                requires old_area <= old_steps * c, piece <= c, ia + it >= old_steps + 1, c > 0;
            assert((ia + it) * c <= MAX_POINTS * c) by (nonlinear_arith)
                requires ia + it <= MAX_POINTS, c > 0;
        }
        area = area + piece;
        s = next;
    }
    area
}

} // verus!
