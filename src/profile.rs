use vstd::prelude::*;
use vstd::multiset::Multiset;

verus! {

/// Largest distance a profile may reach.
pub const MAX_DIST: i64 = 0x4_0000_0000_0000;

/// Largest absolute relative elevation a profile may hold.
pub const MAX_ELEV: i64 = 0x4_0000_0000_0000;

/// Largest number of breakpoints of a profile.
pub const MAX_POINTS: usize = 0x10_0000;

/// Truncating division, as Rust's `/` computes it on signed integers.
pub open spec fn tdiv(n: int, d: int) -> int {
    if n >= 0 {
        n / d
    } else {
        -((-n) / d)
    }
}

pub open spec fn point_ok(p: (i64, i64)) -> bool {
    0 <= p.0 <= MAX_DIST && -MAX_ELEV <= p.1 <= MAX_ELEV
}

pub open spec fn dist_sorted(pts: Seq<(i64, i64)>) -> bool {
    forall|i: int, j: int| 0 <= i <= j < pts.len() ==> #[trigger] pts[i].0 <= #[trigger] pts[j].0
}

/// A well-formed breakpoint sequence: starts at the origin, distances in
/// ascending order, every value in range.
pub open spec fn profile_wf(pts: Seq<(i64, i64)>) -> bool {
    &&& 1 <= pts.len() <= MAX_POINTS
    &&& pts[0] == (0i64, 0i64)
    &&& forall|i: int| 0 <= i < pts.len() ==> point_ok(#[trigger] pts[i])
    &&& dist_sorted(pts)
}

/// Linear interpolation on the first segment `(pts[i-1], pts[i])`, from
/// index `i` on, whose end lies at or beyond `s`; the last elevation past
/// the end.
pub open spec fn interp_from(pts: Seq<(i64, i64)>, i: int, s: int) -> int
    decreases pts.len() - i,
{
    if i >= pts.len() || i < 1 {
        pts[pts.len() - 1].1 as int
    } else if s <= pts[i].0 {
        pts[i - 1].1 + tdiv(
            (s - pts[i - 1].0) * (pts[i].1 - pts[i - 1].1),
            pts[i].0 - pts[i - 1].0,
        )
    } else {
        interp_from(pts, i + 1, s)
    }
}

/// The curve's value at distance `s`: zero at or before the origin.
pub open spec fn interp(pts: Seq<(i64, i64)>, s: int) -> int {
    if s <= 0 {
        0
    } else {
        interp_from(pts, 1, s)
    }
}

pub open spec fn total_len(pts: Seq<(i64, i64)>) -> int {
    if pts.len() == 0 {
        0
    } else {
        pts[pts.len() - 1].0 as int
    }
}

/// The input, with the origin added when it holds none.
pub open spec fn origin_added(pts: Seq<(i64, i64)>) -> Seq<(i64, i64)> {
    if pts.contains((0i64, 0i64)) {
        pts
    } else {
        pts.push((0i64, 0i64))
    }
}

/// The breakpoints of `pts` that lie at distance `d`, in their order.
pub open spec fn at_dist(pts: Seq<(i64, i64)>, d: i64) -> Seq<(i64, i64)> {
    pts.filter(is_at_dist(d))
}

pub open spec fn is_at_dist(d: i64) -> spec_fn((i64, i64)) -> bool {
    |p: (i64, i64)| p.0 == d
}

/// A piecewise-linear elevation curve: `(cumulative distance, relative
/// elevation)` breakpoints, flat beyond the last one.
#[derive(Clone, Debug)]
pub struct Profile {
    pub points: Vec<(i64, i64)>,
}

/// Relies on `slice::sort_by_key`: a stable sort, so the result is ordered by
/// distance and the points at each distance keep their order.
#[verifier::external_body]
fn sort_by_dist(v: &mut Vec<(i64, i64)>)
    ensures
        dist_sorted(final(v)@),
        final(v)@.to_multiset() == old(v)@.to_multiset(),
        forall|d: i64| at_dist(final(v)@, d) == at_dist(old(v)@, d),
{
    v.sort_by_key(|p| p.0)
}

impl Profile {
    pub open spec fn wf(&self) -> bool {
        profile_wf(self.points@)
    }

    /// Builds a profile: the origin is added unless the input holds it,
    /// the points are sorted by distance, and the origin is put first among
    /// the points at distance 0.
    pub fn new(points: Vec<(i64, i64)>) -> (r: Profile)
        requires
            points.len() < MAX_POINTS,
            forall|i: int| 0 <= i < points.len() ==> point_ok(#[trigger] points@[i]),
        ensures
            r.wf(),
            r.points@[0] == (0i64, 0i64),
            r.points@.to_multiset() == origin_added(points@).to_multiset(),
    {
        let ghost input = points@;
        let mut points = points;
        let mut found = false;
        let mut i: usize = 0;
        while i < points.len()
            invariant
                points@ == input,
                0 <= i <= points.len(),
                found ==> input.contains((0i64, 0i64)),
                !found ==> forall|j: int| 0 <= j < i ==> input[j] != (0i64, 0i64),
            decreases points.len() - i,
        {
            if points[i].0 == 0 && points[i].1 == 0 {
                found = true;
            }
            i = i + 1;
        }
        if !found {
            points.push((0i64, 0i64));
            assert(points@[points.len() - 1] == (0i64, 0i64));
        }
        let ghost before = points@;
        assert(before == origin_added(input));
        assert(before.contains((0i64, 0i64)));
        sort_by_dist(&mut points);
        let ghost sorted = points@;
        proof {
            before.to_multiset_ensures();
            sorted.to_multiset_ensures();
            assert(sorted.to_multiset().count((0i64, 0i64)) > 0);
            assert forall|j: int| 0 <= j < sorted.len() implies point_ok(#[trigger] sorted[j]) by {
                assert(sorted.contains(sorted[j]));
                assert(before.to_multiset().count(sorted[j]) > 0);
                assert(before.contains(sorted[j]));
            }
        }
        let n = points.len();
        let mut k: usize = 0;
        while points[k].0 != 0 || points[k].1 != 0
            invariant
                points@ == sorted,
                n == sorted.len(),
                sorted.contains((0i64, 0i64)),
                0 <= k < n,
                forall|j: int| 0 <= j < k ==> sorted[j] != (0i64, 0i64),
            decreases n - k,
        {
            proof {
                let w = choose|w: int| 0 <= w < sorted.len() && sorted[w] == (0i64, 0i64);
                assert(w != k);
                if w < k {
                    assert(sorted[w] != (0i64, 0i64));
                }
            }
            k = k + 1;
        }
        let o = points.remove(k);
        points.insert(0, o);
        proof {
            let rest = sorted.remove(k as int);
            assert(points@ =~= seq![o] + rest);
            vstd::seq_lib::lemma_multiset_commutative(seq![o], rest);
            assert(seq![o].to_multiset() =~= Multiset::singleton(o)) by {
                assert(seq![o] =~= Seq::<(i64, i64)>::empty().push(o));
                Seq::<(i64, i64)>::empty().to_multiset_ensures();
            }
            assert(points@.to_multiset() =~= sorted.to_multiset());
            assert forall|a: int| 0 <= a < points.len() implies point_ok(#[trigger] points@[a]) by {
                if a > 0 {
                    if a - 1 < k {
                        assert(points@[a] == sorted[a - 1]);
                    } else {
                        assert(points@[a] == sorted[a]);
                    }
                }
            }
            assert forall|a: int, b: int| 0 <= a <= b < points.len() implies #[trigger] points@[a].0
                <= #[trigger] points@[b].0 by {
                assert(point_ok(points@[b]));
                if a > 0 {
                    let sa = if a - 1 < k { a - 1 } else { a };
                    let sb = if b - 1 < k { b - 1 } else { b };
                    assert(points@[a] == sorted[sa]);
                    assert(points@[b] == sorted[sb]);
                    assert(sorted[sa].0 <= sorted[sb].0);
                }
            }
        }
        Profile { points }
    }

    /// Distance of the last breakpoint, 0 when there is none.
    pub fn total_length(&self) -> (r: i64)
        ensures
            r == total_len(self.points@),
    {
        let n = self.points.len();
        if n == 0 {
            0
        } else {
            self.points[n - 1].0
        }
    }

    /// The curve's value at `s`.
    pub fn interpolate(&self, s: i64) -> (r: i64)
        requires
            self.wf(),
        ensures
            r == interp(self.points@, s as int),
            -MAX_ELEV <= r <= MAX_ELEV,
    {
        if s <= 0 {
            return 0;
        }
        let n = self.points.len();
        let mut i: usize = 1;
        while i < n
            invariant
                self.wf(),
                n == self.points.len(),
                1 <= i <= n,
                s > self.points@[i - 1].0,
                interp_from(self.points@, 1, s as int) == interp_from(self.points@, i as int, s as int),
            decreases n - i,
        {
            let prev = self.points[i - 1];
            let curr = self.points[i];
            assert(point_ok(self.points@[i as int - 1]));
            assert(point_ok(self.points@[i as int]));
            if s <= curr.0 {
                let a = (s - prev.0) as i128;
                let b = (curr.1 - prev.1) as i128;
                let den = (curr.0 - prev.0) as i128;
                proof {
                    lemma_scaled_step(a as int, b as int, den as int);
                    assert(-0x40_0000_0000_0000_0000_0000_0000 <= (a as int) * (b as int)
                        <= 0x40_0000_0000_0000_0000_0000_0000) by (nonlinear_arith)
                        requires 0 < a <= 0x4_0000_0000_0000, -0x8_0000_0000_0000 <= b <= 0x8_0000_0000_0000;
                }
                let q = tdiv_exec(a * b, den);
                return (prev.1 as i128 + q) as i64;
            }
            i = i + 1;
        }
        assert(point_ok(self.points@[n - 1]));
        self.points[n - 1].1
    }
}

/// Rust's truncating division of `n` by a positive `d`.
pub fn tdiv_exec(n: i128, d: i128) -> (r: i128)
    requires
        d > 0,
        n > i128::MIN,
    ensures
        r == tdiv(n as int, d as int),
{
    if n >= 0 {
        n / d
    } else {
        proof {
            assert(-(n as int) > 0);
            assert((-(n as int)) / (d as int) <= -(n as int)) by (nonlinear_arith)
                requires -(n as int) > 0, d > 0;
        }
        -((-n) / d)
    }
}

/// The curve is 0 at the origin and holds the last elevation from the
/// total length on, provided the first breakpoint that reaches the total
/// length carries that last elevation (true whenever the last distance is not
/// repeated).
pub proof fn lemma_interpolate_ends(pts: Seq<(i64, i64)>, s: int)
    requires
        profile_wf(pts),
        forall|i: int|
            0 <= i < pts.len() && #[trigger] pts[i].0 == total_len(pts) && (forall|j: int|
                0 <= j < i ==> pts[j].0 < total_len(pts)) ==> pts[i].1 == pts[pts.len() - 1].1,
    ensures
        interp(pts, 0) == 0,
        s >= total_len(pts) ==> interp(pts, s) == pts[pts.len() - 1].1,
{
    if s >= total_len(pts) && s > 0 {
        lemma_interp_past_end(pts, 1, s);
    } else if s >= total_len(pts) {
        assert(pts[0].0 == total_len(pts));
    }
}

proof fn lemma_interp_past_end(pts: Seq<(i64, i64)>, i: int, s: int)
    requires
        profile_wf(pts),
        1 <= i <= pts.len(),
        s > 0,
        s >= total_len(pts),
        forall|j: int| 1 <= j < i ==> pts[j].0 < s,
        forall|k: int|
            0 <= k < pts.len() && #[trigger] pts[k].0 == total_len(pts) && (forall|j: int|
                0 <= j < k ==> pts[j].0 < total_len(pts)) ==> pts[k].1 == pts[pts.len() - 1].1,
    ensures
        interp_from(pts, i, s) == pts[pts.len() - 1].1,
    decreases pts.len() - i,
{
    if i < pts.len() {
        assert(pts[i].0 <= pts[pts.len() - 1].0);
        if s <= pts[i].0 {
            assert(pts[i].0 == total_len(pts));
            assert(pts[i - 1].0 < s) by {
                if i == 1 {
                    assert(pts[0] == (0i64, 0i64));
                }
            }
            let a = s - pts[i - 1].0;
            let b = pts[i].1 - pts[i - 1].1;
            lemma_tdiv_cancel(a, b);
            assert(forall|j: int| 0 <= j < i ==> pts[j].0 < total_len(pts));
        } else {
            lemma_interp_past_end(pts, i + 1, s);
        }
    }
}

proof fn lemma_tdiv_cancel(a: int, b: int)
    requires
        a > 0,
    ensures
        tdiv(a * b, a) == b,
{
    if b >= 0 {
        assert(a * b >= 0) by (nonlinear_arith)
            requires a > 0, b >= 0;
        assert((a * b) / a == b) by (nonlinear_arith)
            requires a > 0;
    } else {
        assert(a * b < 0) by (nonlinear_arith)
            requires a > 0, b < 0;
        assert(-(a * b) == a * (-b)) by (nonlinear_arith);
        assert((a * (-b)) / a == -b) by (nonlinear_arith)
            requires a > 0;
    }
}

/// Scaling a step `b` by `a / d`, with `0 < a <= d`, lands between 0 and `b`.
pub proof fn lemma_scaled_step(a: int, b: int, d: int)
    requires
        0 < a <= d,
    ensures
        b >= 0 ==> 0 <= tdiv(a * b, d) <= b,
        b < 0 ==> b <= tdiv(a * b, d) <= 0,
{
    if b >= 0 {
        assert(0 <= a * b <= d * b) by (nonlinear_arith)
            requires 0 < a <= d, b >= 0;
        assert((a * b) / d <= b) by (nonlinear_arith)
            requires 0 <= a * b <= d * b, d > 0;
        assert(0 <= (a * b) / d) by (nonlinear_arith)
            requires 0 <= a * b, d > 0;
    } else {
        let c = -b;
        assert(0 < a * c <= d * c) by (nonlinear_arith)
            requires 0 < a <= d, c > 0;
        assert((a * c) / d <= c) by (nonlinear_arith)
            requires 0 < a * c <= d * c, d > 0;
        assert(0 <= (a * c) / d) by (nonlinear_arith)
            requires 0 <= a * c, d > 0;
        assert(-(a * b) == a * c) by (nonlinear_arith)
            requires c == -b;
    }
}

} // verus!
