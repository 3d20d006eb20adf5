//! Path smoothing: jitter reduction by a symmetric moving average, or
//! corner rounding that pulls each interior point toward its neighbours.
//!
//! Smoothness is given in thousandths (0 ..= 1000).  All divisions round
//! toward negative infinity (floor), stated as such in the contracts.

use vstd::prelude::*;
use crate::coord_ok;
use crate::model::{StrokePoint, pt_ok, pts_ok};

verus! {

/// Which smoothing algorithm to run.
#[derive(Clone, Copy, Debug, PartialEq, Eq, Structural)]
pub enum SmoothAlgorithm {
    MovingAverage,
    CornerRounding,
}

/// Sum of one selected coordinate over a point sequence.
pub open spec fn sum_pts(s: Seq<StrokePoint>, f: spec_fn(StrokePoint) -> int) -> int
    decreases s.len(),
{
    if s.len() == 0 {
        0
    } else {
        sum_pts(s.drop_last(), f) + f(s.last())
    }
}

proof fn lemma_sum_push(s: Seq<StrokePoint>, f: spec_fn(StrokePoint) -> int, x: StrokePoint)
    ensures
        sum_pts(s.push(x), f) == sum_pts(s, f) + f(x),
{
    assert(s.push(x).drop_last() =~= s);
    assert(s.push(x).last() == x);
}

/// The selected coordinate's floor-averaged value over the window
/// [start, end] of `s`.
pub open spec fn window_mean(
    s: Seq<StrokePoint>,
    start: int,
    end: int,
    f: spec_fn(StrokePoint) -> int,
) -> int {
    sum_pts(s.subrange(start, end + 1), f) / (end + 1 - start)
}

/// The moving-average window around index i: a symmetric window of
/// `half` points on each side, shrunk at the sequence boundaries.
pub open spec fn window_start(i: int, half: int) -> int {
    if i - half >= 0 {
        i - half
    } else {
        0
    }
}

/// The inclusive window end around index i in a sequence of length n.
pub open spec fn window_end(i: int, half: int, n: int) -> int {
    if i + half <= n - 1 {
        i + half
    } else {
        n - 1
    }
}

/// `a` pulled toward `b` by `s` two-thousandths of the gap, the moved
/// fraction truncated toward `a`.
pub open spec fn lerp_toward(a: int, b: int, s: int) -> int {
    if b >= a {
        a + ((b - a) * s) / 2000
    } else {
        a - ((a - b) * s) / 2000
    }
}

/// The moving-average window size for a smoothness in thousandths:
/// round(3 + smoothness * 7).
pub open spec fn window_size_spec(smoothness: int) -> int {
    (3000 + 7 * smoothness + 500) / 1000
}

/// One interior point of the corner-rounding pass: the start corner pulled
/// toward the previous point's end corner, the end corner pulled toward the
/// next point's start corner.
pub open spec fn rounded_corner(
    prev: StrokePoint,
    curr: StrokePoint,
    next: StrokePoint,
    s: int,
) -> StrokePoint {
    StrokePoint {
        from_x: lerp_toward(curr.from_x as int, prev.to_x as int, s) as i32,
        from_y: lerp_toward(curr.from_y as int, prev.to_y as int, s) as i32,
        to_x: lerp_toward(curr.to_x as int, next.from_x as int, s) as i32,
        to_y: lerp_toward(curr.to_y as int, next.from_y as int, s) as i32,
    }
}

/// The moved fraction of a lerp: non-negative and never more than the
/// whole gap.
proof fn lemma_lerp_moved(di: int, si: int)
    requires
        0 <= di <= 0x8000_0000,
        0 <= si <= 1000,
    ensures
        0 <= (di * si) / 2000 <= di,
        0 <= di * si <= 0x8000_0000int * 1000,
        0x8000_0000int * 1000 < 0x1_0000_0000_0000int,
{
    assert(di * si <= 0x8000_0000int * 1000 && di * si >= 0 && di * si <= di * 2000)
        by (nonlinear_arith)
        requires
            0 <= di <= 0x8000_0000,
            0 <= si <= 1000,
    ;
    assert(0x8000_0000int * 1000 < 0x1_0000_0000_0000int) by (nonlinear_arith);
    vstd::arithmetic::div_mod::lemma_fundamental_div_mod(di * si, 2000);
    assert(0 <= (di * si) / 2000 <= di) by (nonlinear_arith)
        requires
            0 <= di * si <= di * 2000,
            (di * si) / 2000 * 2000 + (di * si) % 2000 == di * si,
            0 <= (di * si) % 2000 < 2000,
    ;
}

/// Exact lerp of bounded coordinates; the result stays between the two.
fn lerp_exec(a: i32, b: i32, s: u32) -> (r: i32)
    requires
        coord_ok(a as int),
        coord_ok(b as int),
        s <= 1000,
    ensures
        r as int == lerp_toward(a as int, b as int, s as int),
        coord_ok(r as int),
        a <= b ==> a <= r <= b,
        b <= a ==> b <= r <= a,
{
    if b >= a {
        let d: u64 = ((b as i64) - (a as i64)) as u64;
        proof {
            lemma_lerp_moved(d as int, s as int);
        }
        let moved: u64 = (d * (s as u64)) / 2000;
        let r64: i64 = (a as i64) + (moved as i64);
        r64 as i32
    } else {
        let d: u64 = ((a as i64) - (b as i64)) as u64;
        proof {
            lemma_lerp_moved(d as int, s as int);
        }
        let moved: u64 = (d * (s as u64)) / 2000;
        let r64: i64 = (a as i64) - (moved as i64);
        r64 as i32
    }
}

/// Smooth a path.
///
/// With fewer than two points the input is returned unchanged.  The
/// moving average replaces every coordinate by the floor-mean of a
/// symmetric window (shrunk at the boundaries); corner rounding passes the
/// first and last point through unchanged and pulls each interior point's
/// corners toward its neighbours.  The output always has the input's
/// length.
pub fn smooth_path(points: &Vec<StrokePoint>, smoothness: u32, algorithm: &SmoothAlgorithm) -> (r:
    Vec<StrokePoint>)
    requires
        pts_ok(points@),
        smoothness <= 1000,
    ensures
        r@.len() == points@.len(),
        pts_ok(r@),
        points@.len() < 2 ==> r@ == points@,
        (points@.len() >= 2 && algorithm is CornerRounding) ==> {
            &&& r@[0] == points@[0]
            &&& r@[r@.len() - 1] == points@[points@.len() - 1]
            &&& forall|i: int|
                1 <= i < points@.len() - 1 ==> #[trigger] r@[i] == rounded_corner(
                    points@[i - 1],
                    points@[i],
                    points@[i + 1],
                    smoothness as int,
                )
        },
        (points@.len() >= 2 && algorithm is MovingAverage) ==> forall|i: int|
            0 <= i < points@.len() ==> {
                let st = window_start(i, window_size_spec(smoothness as int) / 2);
                let en = window_end(i, window_size_spec(smoothness as int) / 2, points@.len() as int);
                &&& (#[trigger] r@[i]).from_x as int == window_mean(points@, st, en,
                    |p: StrokePoint| p.from_x as int)
                &&& r@[i].from_y as int == window_mean(points@, st, en,
                    |p: StrokePoint| p.from_y as int)
                &&& r@[i].to_x as int == window_mean(points@, st, en,
                    |p: StrokePoint| p.to_x as int)
                &&& r@[i].to_y as int == window_mean(points@, st, en,
                    |p: StrokePoint| p.to_y as int)
            },
{
    let n = points.len();
    if n < 2 {
        let mut out: Vec<StrokePoint> = Vec::new();
        let mut i: usize = 0;
        while i < n
            invariant
                i <= n,
                n == points@.len(),
                out@ =~= points@.take(i as int),
            decreases n - i,
        {
            out.push(points[i]);
            assert(out@ =~= points@.take(i as int + 1));
            i += 1;
        }
        assert(out@ =~= points@);
        return out;
    }
    match algorithm {
        SmoothAlgorithm::MovingAverage => moving_average(points, smoothness),
        SmoothAlgorithm::CornerRounding => {
            let mut out: Vec<StrokePoint> = Vec::new();
            out.push(points[0]);
            let mut i: usize = 1;
            while i < n - 1
                invariant
                    1 <= i <= n - 1,
                    2 <= n == points@.len(),
                    pts_ok(points@),
                    smoothness <= 1000,
                    out@.len() == i,
                    out@[0] == points@[0],
                    forall|k: int|
                        1 <= k < i ==> #[trigger] out@[k] == rounded_corner(
                            points@[k - 1],
                            points@[k],
                            points@[k + 1],
                            smoothness as int,
                        ),
                    pts_ok(out@),
                decreases n - 1 - i,
            {
                let prev = points[i - 1];
                let curr = points[i];
                let next = points[i + 1];
                let p = StrokePoint {
                    from_x: lerp_exec(curr.from_x, prev.to_x, smoothness),
                    from_y: lerp_exec(curr.from_y, prev.to_y, smoothness),
                    to_x: lerp_exec(curr.to_x, next.from_x, smoothness),
                    to_y: lerp_exec(curr.to_y, next.from_y, smoothness),
                };
                out.push(p);
                i += 1;
            }
            out.push(points[n - 1]);
            out
        },
    }
}

/// One shifted prefix-sum table: `table[j]` is the sum over the first `j`
/// points of the selected coordinate plus the shift K, so entries never go
/// negative and unsigned division can take exact floor-means.
fn prefix_table(points: &Vec<StrokePoint>, sel: u8) -> (t: Vec<u128>)
    requires
        pts_ok(points@),
        sel < 4,
    ensures
        t@.len() == points@.len() + 1,
        forall|j: int|
            0 <= j <= points@.len() ==> #[trigger] t@[j] as int == sum_pts(
                points@.take(j),
                sel_fn(sel),
            ) + j * (crate::COORD_LIMIT as int),
{
    let ghost f = sel_fn(sel);
    let mut t: Vec<u128> = Vec::new();
    t.push(0);
    proof {
        assert(points@.take(0) =~= Seq::<StrokePoint>::empty());
    }
    let mut j: usize = 0;
    while j < points.len()
        invariant
            j <= points@.len(),
            pts_ok(points@),
            sel < 4,
            f == sel_fn(sel),
            t@.len() == j + 1,
            forall|k: int|
                0 <= k <= j ==> #[trigger] t@[k] as int == sum_pts(points@.take(k), f) + k * (
                crate::COORD_LIMIT as int),
            t@[j as int] as int <= j * (2 * (crate::COORD_LIMIT as int)),
        decreases points@.len() - j,
    {
        let p = points[j];
        let c: i32 = if sel == 0 {
            p.from_x
        } else if sel == 1 {
            p.from_y
        } else if sel == 2 {
            p.to_x
        } else {
            p.to_y
        };
        proof {
            assert(pt_ok(points@[j as int]));
            assert(f(points@[j as int]) == c as int);
            assert(points@.take(j as int + 1) =~= points@.take(j as int).push(points@[j as int]));
            lemma_sum_push(points@.take(j as int), f, points@[j as int]);
            assert((j + 1) * (2 * (crate::COORD_LIMIT as int)) == j * (2 * (
            crate::COORD_LIMIT as int)) + 2 * (crate::COORD_LIMIT as int)) by (nonlinear_arith);
            assert(j * (2 * (crate::COORD_LIMIT as int)) <= 0xffff_ffff_ffff_ffff * (2 * (
            crate::COORD_LIMIT as int))) by (nonlinear_arith)
                requires
                    0 <= j <= 0xffff_ffff_ffff_ffff,
            ;
            assert(0xffff_ffff_ffff_ffff * (2 * 0x4000_0000int) < 0x1_0000_0000_0000_0000_0000_0000int)
                by (nonlinear_arith);
            assert((j + 1) * (crate::COORD_LIMIT as int) == j * (crate::COORD_LIMIT as int)
                + crate::COORD_LIMIT as int) by (nonlinear_arith);
        }
        let shifted: u128 = (c as i64 + crate::COORD_LIMIT as i64) as u128;
        let prev: u128 = t[j];
        t.push(prev + shifted);
        j += 1;
    }
    t
}

/// The coordinate selector for a selector index.
pub open spec fn sel_fn(sel: u8) -> spec_fn(StrokePoint) -> int {
    if sel == 0 {
        |p: StrokePoint| p.from_x as int
    } else if sel == 1 {
        |p: StrokePoint| p.from_y as int
    } else if sel == 2 {
        |p: StrokePoint| p.to_x as int
    } else {
        |p: StrokePoint| p.to_y as int
    }
}

/// Floor-mean of one coordinate over the window [start, end], taken from a
/// shifted prefix-sum table.
fn window_mean_exec(
    t: &Vec<u128>,
    points: &Ghost<Seq<StrokePoint>>,
    sel: Ghost<u8>,
    start: usize,
    end: usize,
) -> (m: i32)
    requires
        pts_ok(points@),
        t@.len() == points@.len() + 1,
        forall|j: int|
            0 <= j <= points@.len() ==> #[trigger] t@[j] as int == sum_pts(
                points@.take(j),
                sel_fn(sel@),
            ) + j * (crate::COORD_LIMIT as int),
        start <= end < points@.len(),
    ensures
        m as int == window_mean(points@, start as int, end as int, sel_fn(sel@)),
        coord_ok(m as int),
{
    let tl = t.len();
    let count: u128 = (end as u128) - (start as u128) + 1;
    let hi: u128 = t[end + 1];
    let lo: u128 = t[start];
    let ghost f = sel_fn(sel@);
    let ghost win = points@.subrange(start as int, end as int + 1);
    let ghost wsum = sum_pts(win, f);
    let ghost k = crate::COORD_LIMIT as int;
    let ghost cnt = end as int + 1 - start as int;
    proof {
        lemma_sum_split(points@, start as int, end as int + 1, f);
        // hi - lo == wsum + cnt * k
        assert((end as int + 1) * k - (start as int) * k == cnt * k) by (nonlinear_arith)
            requires
                cnt == end as int + 1 - start as int,
        ;
        // window sum bounds: each term within +-k
        lemma_sum_bounds(win, f, k);
        assert(wsum + cnt * k >= 0) by (nonlinear_arith)
            requires
                wsum >= cnt * (-k),
                cnt >= 0,
                k >= 0,
        ;
    }
    let sum_shifted: u128 = hi - lo;
    let mean_shifted: u128 = sum_shifted / count;
    proof {
        // (wsum + cnt * k) / cnt == wsum / cnt + k
        vstd::arithmetic::div_mod::lemma_hoist_over_denominator(wsum, k, cnt as nat);
        assert(k * cnt == cnt * k) by (nonlinear_arith);
        // mean bounds: -k <= wsum / cnt <= k
        vstd::arithmetic::div_mod::lemma_fundamental_div_mod(wsum, cnt);
        assert(-k <= wsum / cnt <= k) by (nonlinear_arith)
            requires
                cnt * (-k) <= wsum <= cnt * k,
                wsum == cnt * (wsum / cnt) + wsum % cnt,
                0 <= wsum % cnt < cnt,
                cnt >= 1,
                k > 0,
        ;
    }
    let m: i64 = (mean_shifted as i64) - (crate::COORD_LIMIT as i64);
    m as i32
}

proof fn lemma_sum_split(s: Seq<StrokePoint>, a: int, b: int, f: spec_fn(StrokePoint) -> int)
    requires
        0 <= a <= b <= s.len(),
    ensures
        sum_pts(s.subrange(a, b), f) == sum_pts(s.take(b), f) - sum_pts(s.take(a), f),
    decreases b - a,
{
    if b == a {
        assert(s.subrange(a, b) =~= Seq::<StrokePoint>::empty());
        assert(s.take(b) =~= s.take(a));
    } else {
        lemma_sum_split(s, a, b - 1, f);
        assert(s.subrange(a, b).drop_last() =~= s.subrange(a, b - 1));
        assert(s.take(b).drop_last() =~= s.take(b - 1));
        assert(s.subrange(a, b).last() == s[b - 1]);
        assert(s.take(b).last() == s[b - 1]);
    }
}

proof fn lemma_sum_bounds(s: Seq<StrokePoint>, f: spec_fn(StrokePoint) -> int, k: int)
    requires
        forall|i: int| 0 <= i < s.len() ==> -k <= #[trigger] f(s[i]) <= k,
        k >= 0,
    ensures
        s.len() * (-k) <= sum_pts(s, f) <= s.len() * k,
    decreases s.len(),
{
    if s.len() == 0 {
    } else {
        assert(forall|i: int|
            0 <= i < s.drop_last().len() ==> -k <= #[trigger] f(s.drop_last()[i]) <= k);
        lemma_sum_bounds(s.drop_last(), f, k);
        assert(-k <= f(s.last()) <= k);
        assert(s.len() * k == s.drop_last().len() * k + k) by (nonlinear_arith)
            requires
                s.len() == s.drop_last().len() + 1,
        ;
        assert(s.len() * (-k) == s.drop_last().len() * (-k) + (-k)) by (nonlinear_arith)
            requires
                s.len() == s.drop_last().len() + 1,
        ;
    }
}

/// The moving-average pass: every output coordinate is the floor-mean of a
/// symmetric window of input coordinates, computed from prefix sums.
fn moving_average(points: &Vec<StrokePoint>, smoothness: u32) -> (r: Vec<StrokePoint>)
    requires
        pts_ok(points@),
        smoothness <= 1000,
        points@.len() >= 2,
    ensures
        r@.len() == points@.len(),
        pts_ok(r@),
        forall|i: int|
            0 <= i < points@.len() ==> {
                let st = window_start(i, window_size_spec(smoothness as int) / 2);
                let en = window_end(i, window_size_spec(smoothness as int) / 2, points@.len() as int);
                &&& (#[trigger] r@[i]).from_x as int == window_mean(points@, st, en,
                    |p: StrokePoint| p.from_x as int)
                &&& r@[i].from_y as int == window_mean(points@, st, en,
                    |p: StrokePoint| p.from_y as int)
                &&& r@[i].to_x as int == window_mean(points@, st, en,
                    |p: StrokePoint| p.to_x as int)
                &&& r@[i].to_y as int == window_mean(points@, st, en,
                    |p: StrokePoint| p.to_y as int)
            },
{
    let n = points.len();
    let window_size: u32 = (3000 + 7 * smoothness + 500) / 1000;
    let half: usize = (window_size / 2) as usize;
    let t0 = prefix_table(points, 0);
    let t1 = prefix_table(points, 1);
    let t2 = prefix_table(points, 2);
    let t3 = prefix_table(points, 3);
    let mut out: Vec<StrokePoint> = Vec::new();
    let mut i: usize = 0;
    while i < n
        invariant
            i <= n,
            2 <= n == points@.len(),
            pts_ok(points@),
            smoothness <= 1000,
            half == window_size_spec(smoothness as int) / 2,
            t0@.len() == n + 1,
            t1@.len() == n + 1,
            t2@.len() == n + 1,
            t3@.len() == n + 1,
            forall|j: int|
                0 <= j <= points@.len() ==> #[trigger] t0@[j] as int == sum_pts(
                    points@.take(j),
                    sel_fn(0),
                ) + j * (crate::COORD_LIMIT as int),
            forall|j: int|
                0 <= j <= points@.len() ==> #[trigger] t1@[j] as int == sum_pts(
                    points@.take(j),
                    sel_fn(1),
                ) + j * (crate::COORD_LIMIT as int),
            forall|j: int|
                0 <= j <= points@.len() ==> #[trigger] t2@[j] as int == sum_pts(
                    points@.take(j),
                    sel_fn(2),
                ) + j * (crate::COORD_LIMIT as int),
            forall|j: int|
                0 <= j <= points@.len() ==> #[trigger] t3@[j] as int == sum_pts(
                    points@.take(j),
                    sel_fn(3),
                ) + j * (crate::COORD_LIMIT as int),
            out@.len() == i,
            pts_ok(out@),
            forall|ii: int|
                0 <= ii < i ==> {
                    let st = window_start(ii, window_size_spec(smoothness as int) / 2);
                    let en = window_end(ii, window_size_spec(smoothness as int) / 2,
                        points@.len() as int);
                    &&& (#[trigger] out@[ii]).from_x as int == window_mean(points@, st, en,
                        |p: StrokePoint| p.from_x as int)
                    &&& out@[ii].from_y as int == window_mean(points@, st, en,
                        |p: StrokePoint| p.from_y as int)
                    &&& out@[ii].to_x as int == window_mean(points@, st, en,
                        |p: StrokePoint| p.to_x as int)
                    &&& out@[ii].to_y as int == window_mean(points@, st, en,
                        |p: StrokePoint| p.to_y as int)
                },
        decreases n - i,
    {
        let start: usize = if i > half {
            i - half
        } else {
            0
        };
        let end: usize = if n - 1 - i <= half {
            n - 1
        } else {
            i + half
        };
        proof {
            assert(start as int == window_start(i as int, half as int));
            assert(end as int == window_end(i as int, half as int, n as int));
            assert(sel_fn(0) == (|p: StrokePoint| p.from_x as int));
            assert(sel_fn(1) == (|p: StrokePoint| p.from_y as int));
            assert(sel_fn(2) == (|p: StrokePoint| p.to_x as int));
            assert(sel_fn(3) == (|p: StrokePoint| p.to_y as int));
        }
        let p = StrokePoint {
            from_x: window_mean_exec(&t0, &Ghost(points@), Ghost(0), start, end),
            from_y: window_mean_exec(&t1, &Ghost(points@), Ghost(1), start, end),
            to_x: window_mean_exec(&t2, &Ghost(points@), Ghost(2), start, end),
            to_y: window_mean_exec(&t3, &Ghost(points@), Ghost(3), start, end),
        };
        out.push(p);
        i += 1;
    }
    out
}

} // verus!
