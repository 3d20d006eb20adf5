//! Iterative path simplification.
//!
//! A classic curve-reduction pass that always keeps the first and last
//! point of a range.  An explicit stack of (start, end) index ranges is
//! processed non-recursively: for each range the interior point of maximum
//! perpendicular deviation from the chord is found (scanning with a stride
//! on long ranges, then refining around the coarse maximum); if the maximum
//! deviation exceeds epsilon the range is split there, otherwise the range
//! collapses to its chord and both endpoints are emitted.  A post-pass
//! collapses consecutive identical points (the integer-grid analogue of
//! collapsing points that coincide within a hair's breadth).

use vstd::prelude::*;
use crate::geom::{seg_dev_den, seg_dev_measure, seg_dev_parts, seg_den_x, lemma_abs_mul, sq};
use crate::model::{StrokePoint, pt_ok, pts_ok};

verus! {

/// Sum over a stack of index ranges of each range's length.
pub open spec fn ranges_span(st: Seq<(usize, usize)>) -> int
    decreases st.len(),
{
    if st.len() == 0 {
        0
    } else {
        ranges_span(st.drop_last()) + (st.last().1 as int - st.last().0 as int)
    }
}

/// Sum over a stack of index ranges of 2 * length - 1: a measure that
/// strictly shrinks both when a range is split and when one is emitted.
pub open spec fn ranges_weight(st: Seq<(usize, usize)>) -> int
    decreases st.len(),
{
    if st.len() == 0 {
        0
    } else {
        ranges_weight(st.drop_last()) + 2 * (st.last().1 as int - st.last().0 as int) - 1
    }
}

proof fn lemma_ranges_push(st: Seq<(usize, usize)>, x: (usize, usize))
    ensures
        ranges_span(st.push(x)) == ranges_span(st) + (x.1 as int - x.0 as int),
        ranges_weight(st.push(x)) == ranges_weight(st) + 2 * (x.1 as int - x.0 as int) - 1,
{
    assert(st.push(x).drop_last() =~= st);
    assert(st.push(x).last() == x);
}

proof fn lemma_ranges_nonneg(st: Seq<(usize, usize)>)
    requires
        forall|k: int| 0 <= k < st.len() ==> (#[trigger] st[k]).0 < st[k].1,
    ensures
        ranges_span(st) >= st.len(),
        ranges_weight(st) >= st.len(),
    decreases st.len(),
{
    if st.len() > 0 {
        assert(forall|k: int|
            0 <= k < st.drop_last().len() ==> (#[trigger] st.drop_last()[k]).0
                < st.drop_last()[k].1);
        lemma_ranges_nonneg(st.drop_last());
    }
}

/// `idx` maps `r` onto elements of `s` at strictly increasing positions.
pub open spec fn subsequence_map(idx: Seq<int>, r: Seq<StrokePoint>, s: Seq<StrokePoint>) -> bool {
    &&& idx.len() == r.len()
    &&& forall|k: int| 0 <= k < idx.len() ==> 0 <= #[trigger] idx[k] < s.len() && r[k] == s[idx[k]]
    &&& forall|a: int, b: int| 0 <= a < b < idx.len() ==> idx[a] < idx[b]
}

/// `r` is an order-preserving subsequence of `s`.
pub open spec fn is_subsequence_of(r: Seq<StrokePoint>, s: Seq<StrokePoint>) -> bool {
    exists|idx: Seq<int>| #[trigger] subsequence_map(idx, r, s)
}

/// Every interior sample deviates from the chord running from the first
/// sample's start corner to the last sample's end corner by at most `eps`
/// (compared exactly over the chord's common denominator).
pub open spec fn chain_within(points: Seq<StrokePoint>, eps: int) -> bool {
    forall|i: int|
        0 < i < points.len() - 1 ==> seg_dev_measure(
            (#[trigger] points[i]).from_x as int,
            points[i].from_y as int,
            points[0].from_x as int,
            points[0].from_y as int,
            points[points.len() - 1].to_x as int,
            points[points.len() - 1].to_y as int,
        ) <= sq(eps) * seg_dev_den(
            points[0].from_x as int,
            points[0].from_y as int,
            points[points.len() - 1].to_x as int,
            points[points.len() - 1].to_y as int,
        )
}

proof fn lemma_sorted_range(s: Seq<int>, a: int, b: int)
    requires
        forall|k: int| 0 <= k < s.len() - 1 ==> #[trigger] s[k] <= s[k + 1],
        0 <= a <= b < s.len(),
    ensures
        s[a] <= s[b],
    decreases b - a,
{
    if a < b {
        lemma_sorted_range(s, a, b - 1);
        assert(s[b - 1] <= s[b]);
    }
}

/// Reduce a point sequence, always retaining its first and last point.
///
/// The result is an order-preserving subsequence no longer than the input,
/// unchanged for inputs of at most two points, with no two consecutive
/// output points identical.  A path whose every interior point stays
/// within `epsilon` of the whole chord collapses to at most its two end
/// points; in general a dropped point deviated from the emitted chords by
/// at most `epsilon` up to the stride approximation of the interior scan.
#[verifier::rlimit(100)]
pub fn simplify_points(points: &Vec<StrokePoint>, epsilon: i32) -> (r: Vec<StrokePoint>)
    requires
        pts_ok(points@),
        0 <= epsilon <= crate::COORD_LIMIT,
    ensures
        r@.len() <= points@.len(),
        points@.len() == 0 ==> r@.len() == 0,
        points@.len() <= 2 ==> r@ == points@,
        points@.len() > 0 ==> r@.len() >= 1,
        points@.len() > 0 ==> r@[0] == points@[0],
        points@.len() > 0 ==> r@[r@.len() - 1] == points@[points@.len() - 1],
        forall|j: int| 0 <= j < r@.len() ==> points@.contains(#[trigger] r@[j]),
        is_subsequence_of(r@, points@),
        points@.len() >= 3 ==> forall|k: int|
            0 <= k < r@.len() - 1 ==> #[trigger] r@[k] != r@[k + 1],
        chain_within(points@, epsilon as int) ==> r@.len() <= 2,
        pts_ok(r@),
{
    let n = points.len();
    let mut out: Vec<StrokePoint> = Vec::new();
    if n == 0 {
        assert(out@ =~= points@);
        proof {
            assert(subsequence_map(Seq::<int>::empty(), out@, points@));
        }
        return out;
    }
    if n <= 2 {
        let mut i: usize = 0;
        while i < n
            invariant
                i <= n,
                n == points@.len(),
                out@ =~= points@.take(i as int),
            decreases n - i,
        {
            out.push(points[i]);
            assert(out@ =~= points@.take(i as int + 1));
            i += 1;
        }
        assert(out@ =~= points@);
        assert(forall|j: int| 0 <= j < out@.len() ==> points@.contains(#[trigger] out@[j])) by {
            assert(forall|j: int|
                0 <= j < out@.len() ==> points@[j] == out@[j] && points@.contains(points@[j]));
        }
        proof {
            let ghost ident = Seq::new(out@.len(), |k: int| k);
            assert(subsequence_map(ident, out@, points@));
        }
        return out;
    }
    let mut result: Vec<StrokePoint> = Vec::new();
    let mut stack: Vec<(usize, usize)> = Vec::new();
    let ghost mut srcs: Seq<int> = Seq::empty();
    stack.push((0usize, n - 1));
    proof {
        lemma_ranges_push(Seq::empty(), (0usize, (n - 1) as usize));
        assert(stack@ =~= seq![(0usize, (n - 1) as usize)]);
    }
    while stack.len() > 0
        invariant
            3 <= n,
            n == points@.len(),
            pts_ok(points@),
            0 <= epsilon <= crate::COORD_LIMIT,
            forall|k: int|
                0 <= k < stack@.len() ==> (#[trigger] stack@[k]).0 < stack@[k].1 && stack@[k].1
                    <= n - 1,
            stack@.len() > 0 ==> stack@[0].1 == n - 1,
            forall|k: int| 1 <= k < stack@.len() ==> (#[trigger] stack@[k]).1 == stack@[k - 1].0,
            result@.len() % 2 == 0,
            result@.len() == 0 ==> stack@.len() > 0 && stack@[stack@.len() - 1].0 == 0,
            result@.len() > 0 ==> result@[0] == points@[0],
            (result@.len() > 0 && stack@.len() > 0) ==> result@[result@.len() - 1]
                == points@[stack@[stack@.len() - 1].0 as int],
            stack@.len() == 0 ==> result@.len() >= 2 && result@[result@.len() - 1] == points@[n
                - 1],
            forall|j: int|
                0 <= j < result@.len() - 1 && j % 2 == 1 ==> #[trigger] result@[j] == result@[j
                    + 1],
            forall|j: int| 0 <= j < result@.len() ==> points@.contains(#[trigger] result@[j]),
            result@.len() + 2 * ranges_span(stack@) <= 2 * (n - 1),
            // source indices of the emitted points
            srcs.len() == result@.len(),
            forall|k: int|
                0 <= k < srcs.len() ==> 0 <= #[trigger] srcs[k] < n && result@[k]
                    == points@[srcs[k]],
            forall|k: int| 0 <= k < srcs.len() - 1 ==> #[trigger] srcs[k] <= srcs[k + 1],
            forall|k: int| 0 <= k < srcs.len() && k % 2 == 1 ==> srcs[k - 1] < #[trigger] srcs[k],
            forall|k: int|
                0 <= k < srcs.len() - 1 && k % 2 == 1 ==> #[trigger] srcs[k] == srcs[k + 1],
            (srcs.len() > 0 && stack@.len() > 0) ==> srcs[srcs.len() - 1]
                == stack@[stack@.len() - 1].0 as int,
            // a chain within epsilon of its whole chord collapses at once
            chain_within(points@, epsilon as int) ==> ((stack@ == seq![(0usize, (n - 1) as usize)]
                && result@.len() == 0) || (stack@.len() == 0 && result@.len() == 2)),
        decreases ranges_weight(stack@),
    {
        proof {
            lemma_ranges_nonneg(stack@);
        }
        let ghost stack0 = stack@;
        let top = stack.pop().unwrap();
        let (s, e) = top;
        proof {
            assert(stack0.drop_last().push(top) =~= stack0);
            lemma_ranges_push(stack0.drop_last(), top);
        }
        let ax = points[s].from_x;
        let ay = points[s].from_y;
        let bx = points[e].to_x;
        let by = points[e].to_y;
        let den = seg_den_x(ax, ay, bx, by);
        // stride for long ranges: scan roughly a hundred interior points
        let step: usize = if e - s > 100 {
            (e - s) / 100
        } else {
            1
        };
        let mut max_m: i128 = 0;
        let mut max_index: usize = s;
        let mut i = s + 1;
        while i < e
            invariant
                s < e <= n - 1,
                n == points@.len(),
                pts_ok(points@),
                step >= 1,
                ax == points@[s as int].from_x,
                ay == points@[s as int].from_y,
                bx == points@[e as int].to_x,
                by == points@[e as int].to_y,
                max_m >= 0,
                (max_index == s && max_m == 0) || (s < max_index < e && max_m == seg_dev_measure(
                    points@[max_index as int].from_x as int,
                    points@[max_index as int].from_y as int,
                    ax as int,
                    ay as int,
                    bx as int,
                    by as int,
                )),
                s + 1 <= i,
            decreases e - i,
        {
            let (m, _d) = seg_dev_parts(points[i].from_x, points[i].from_y, ax, ay, bx, by);
            if m > max_m {
                max_m = m;
                max_index = i;
            }
            if e - i <= step {
                break ;
            }
            i += step;
        }
        // refine around the coarse maximum
        let low = if max_index > step {
            max_index - step
        } else {
            0
        };
        let fine_start = if low > s + 1 {
            low
        } else {
            s + 1
        };
        let fine_end = if e - 1 - max_index <= step {
            e - 1
        } else {
            max_index + step
        };
        if fine_start <= fine_end {
            let mut i = fine_start;
            while i <= fine_end
                invariant
                    s < e <= n - 1,
                    n == points@.len(),
                    pts_ok(points@),
                    s + 1 <= fine_start <= i,
                    fine_end <= e - 1,
                    ax == points@[s as int].from_x,
                    ay == points@[s as int].from_y,
                    bx == points@[e as int].to_x,
                    by == points@[e as int].to_y,
                    max_m >= 0,
                    (max_index == s && max_m == 0) || (s < max_index < e && max_m
                        == seg_dev_measure(
                        points@[max_index as int].from_x as int,
                        points@[max_index as int].from_y as int,
                        ax as int,
                        ay as int,
                        bx as int,
                        by as int,
                    )),
                decreases fine_end + 1 - i,
            {
                let (m, _d) = seg_dev_parts(points[i].from_x, points[i].from_y, ax, ay, bx, by);
                if m > max_m {
                    max_m = m;
                    max_index = i;
                }
                i += 1;
            }
        }
        // threshold: deviation > epsilon, compared exactly over the common
        // denominator of this chord
        proof {
            lemma_abs_mul(epsilon as int, epsilon as int, 0x4000_0000, 0x4000_0000);
            assert(0x4000_0000int * 0x4000_0000int == 0x1000_0000_0000_0000int)
                by (nonlinear_arith);
            assert(epsilon as int * epsilon as int >= 0) by (nonlinear_arith);
        }
        let t2: i128 = (epsilon as i128) * (epsilon as i128);
        proof {
            lemma_abs_mul(t2 as int, den as int, 0x1000_0000_0000_0000, 0x8000_0000_0000_0000);
            assert(0x1000_0000_0000_0000int * 0x8000_0000_0000_0000int
                == 0x800_0000_0000_0000_0000_0000_0000_0000int) by (nonlinear_arith);
        }
        let thr: i128 = t2 * den;
        proof {
            assert(thr >= 0) by (nonlinear_arith)
                requires
                    t2 >= 0,
                    den >= 1,
                    thr == t2 * den,
            ;
            // under the whole-chord hypothesis the first range collapses
            if chain_within(points@, epsilon as int) {
                assert(stack0 == seq![(0usize, (n - 1) as usize)]);
                assert(s == 0 && e == n - 1);
                if max_index != s {
                    assert(max_m <= thr);
                }
            }
        }
        let ghost stack1 = stack@;
        if max_m > thr {
            // deviation too large: split at the maximum, left range on top
            stack.push((max_index, e));
            proof {
                lemma_ranges_push(stack1, (max_index, e));
            }
            stack.push((s, max_index));
            proof {
                lemma_ranges_push(stack1.push((max_index, e)), (s, max_index));
            }
        } else {
            // the whole range collapses to its chord
            let ghost result0 = result@;
            result.push(points[s]);
            result.push(points[e]);
            proof {
                srcs = srcs.push(s as int).push(e as int);
                assert(points@.contains(points@[s as int]));
                assert(points@.contains(points@[e as int]));
                if stack@.len() > 0 {
                    assert(stack@[stack@.len() - 1].0 == e);
                }
            }
        }
        proof {
            lemma_ranges_nonneg(stack@);
        }
    }
    // post-pass: collapse consecutive identical points
    let pre_len = result.len();
    proof {
        if chain_within(points@, epsilon as int) {
            assert(pre_len == 2);
        }
    }
    let mut j: usize = 0;
    let ghost mut out_srcs: Seq<int> = Seq::empty();
    let ghost mut last_kept: int = -1;
    while j < pre_len
        invariant
            pre_len == result@.len(),
            result@.len() >= 2,
            result@.len() <= 2 * (n - 1),
            n == points@.len(),
            result@[0] == points@[0],
            result@[result@.len() - 1] == points@[n as int - 1],
            forall|j: int|
                0 <= j < result@.len() - 1 && j % 2 == 1 ==> #[trigger] result@[j] == result@[j
                    + 1],
            forall|jj: int| 0 <= jj < result@.len() ==> points@.contains(#[trigger] result@[jj]),
            j <= pre_len,
            out@.len() <= 1 + j as int / 2,
            j > 0 ==> out@.len() > 0 && out@[out@.len() - 1] == result@[j - 1],
            out@.len() > 0 ==> out@[0] == result@[0],
            forall|k: int| 0 <= k < out@.len() ==> points@.contains(#[trigger] out@[k]),
            // source indices carried through the collapse
            srcs.len() == result@.len(),
            forall|k: int|
                0 <= k < srcs.len() ==> 0 <= #[trigger] srcs[k] < n && result@[k]
                    == points@[srcs[k]],
            forall|k: int| 0 <= k < srcs.len() - 1 ==> #[trigger] srcs[k] <= srcs[k + 1],
            forall|k: int| 0 <= k < srcs.len() && k % 2 == 1 ==> srcs[k - 1] < #[trigger] srcs[k],
            out_srcs.len() == out@.len(),
            forall|k: int|
                0 <= k < out_srcs.len() ==> 0 <= #[trigger] out_srcs[k] < n && out@[k]
                    == points@[out_srcs[k]],
            forall|a: int, b: int| 0 <= a < b < out_srcs.len() ==> out_srcs[a] < out_srcs[b],
            out@.len() > 0 ==> 0 <= last_kept < j && out_srcs[out_srcs.len() - 1]
                == srcs[last_kept] && out@[out@.len() - 1] == result@[last_kept],
            forall|t: int| last_kept < t < j ==> #[trigger] result@[t] == result@[last_kept],
            out@.len() == 0 ==> j == 0,
            // no two consecutive kept points are identical
            forall|k: int| 0 <= k < out@.len() - 1 ==> #[trigger] out@[k] != out@[k + 1],
        decreases pre_len - j,
    {
        let p = result[j];
        let keep = if out.len() == 0 {
            true
        } else {
            let q = out[out.len() - 1];
            !(q == p)
        };
        proof {
            if j >= 2 && j % 2 == 0 {
                // even positions repeat the previous chord endpoint
                assert(result@[j - 1] == result@[j - 1 + 1]);
            }
        }
        if keep {
            proof {
                if out@.len() > 0 {
                    // the kept point comes from a strictly later source index
                    if j as int == last_kept + 1 {
                        if srcs[j as int] == srcs[last_kept] {
                            assert(result@[j as int] == points@[srcs[j as int]]);
                            assert(result@[last_kept] == points@[srcs[last_kept]]);
                            assert(false);
                        }
                        assert(srcs[last_kept] <= srcs[j as int]);
                    } else {
                        // two or more positions apart: a strict step lies between
                        assert(last_kept + 2 <= j as int);
                        assert(srcs[last_kept] < srcs[last_kept + 2]) by {
                            if (last_kept + 1) % 2 == 1 {
                                assert(srcs[last_kept] < srcs[last_kept + 1]);
                                assert(srcs[last_kept + 1] <= srcs[last_kept + 2]);
                            } else {
                                assert(srcs[last_kept + 1] < srcs[last_kept + 2]);
                                assert(srcs[last_kept] <= srcs[last_kept + 1]);
                            }
                        }
                        lemma_sorted_range(srcs, last_kept + 2, j as int);
                    }
                    assert(srcs[last_kept] < srcs[j as int]);
                    let lastpos = out_srcs.len() - 1;
                    assert(forall|a: int|
                        0 <= a < lastpos ==> #[trigger] out_srcs[a] < out_srcs[lastpos]);
                }
                out_srcs = out_srcs.push(srcs[j as int]);
                last_kept = j as int;
            }
            out.push(p);
        }
        j += 1;
    }
    proof {
        assert(out@.len() <= points@.len()) by {
            assert(2 * out@.len() <= 2 + pre_len);
            assert(pre_len <= 2 * (n - 1));
        }
        if chain_within(points@, epsilon as int) {
            assert(out@.len() <= 1 + pre_len as int / 2);
        }
        assert(subsequence_map(out_srcs, out@, points@));
        assert(forall|k: int| 0 <= k < out@.len() ==> pt_ok(#[trigger] out@[k])) by {
            assert(forall|k: int|
                0 <= k < out@.len() ==> points@.contains(#[trigger] out@[k]));
            assert forall|k: int| 0 <= k < out@.len() implies pt_ok(#[trigger] out@[k]) by {
                let w = choose|w: int| 0 <= w < points@.len() && points@[w] == out@[k];
                assert(pt_ok(points@[w]));
            }
        }
    }
    out
}

} // verus!
