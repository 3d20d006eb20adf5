//! Draw-command batching: commands are grouped by style so that a renderer
//! can replay all same-style draws contiguously with few state changes.
//! Group order is left unspecified; callers may only rely on all commands
//! of one style being contiguous.

use vstd::prelude::*;
use crate::coord_ok;
use crate::geom::{dist_sq, lemma_abs_mul, sq};
use crate::model::{DrawCommand, cmd_style};
use vstd::multiset::Multiset;

verus! {

broadcast use vstd::seq_lib::group_to_multiset_ensures;

/// All coordinates of a command are within the engine's bound.
pub open spec fn cmd_ok(c: DrawCommand) -> bool {
    &&& coord_ok(c.from_x as int)
    &&& coord_ok(c.from_y as int)
    &&& coord_ok(c.to_x as int)
    &&& coord_ok(c.to_y as int)
}

/// Every command of a sequence is within the engine's bound.
pub open spec fn cmds_ok(s: Seq<DrawCommand>) -> bool {
    forall|i: int| 0 <= i < s.len() ==> cmd_ok(#[trigger] s[i])
}

/// A command's stroke is at least `min_distance` long.
pub open spec fn cmd_long_enough(c: DrawCommand, min_distance: int) -> bool {
    dist_sq(c.from_x as int, c.from_y as int, c.to_x as int, c.to_y as int) >= sq(min_distance)
}

/// Same-style commands are contiguous: no other style sits between two
/// commands of one style.
pub open spec fn styles_contiguous(s: Seq<DrawCommand>) -> bool {
    forall|a: int, b: int, c: int|
        0 <= a < b < c < s.len() && cmd_style(#[trigger] s[a]) == cmd_style(#[trigger] s[c])
            ==> cmd_style(#[trigger] s[b]) == cmd_style(s[a])
}

/// Compare two commands' style keys.
fn same_style(a: &DrawCommand, b: &DrawCommand) -> (r: bool)
    ensures
        r == (cmd_style(*a) == cmd_style(*b)),
{
    a.kind == b.kind && a.color == b.color && a.line_width == b.line_width
}

/// Reorder commands so that all commands of one style are contiguous.
/// The result holds exactly the input commands (as a multiset); group
/// order is unspecified.
pub fn optimize_draw_commands(commands: Vec<DrawCommand>) -> (r: Vec<DrawCommand>)
    ensures
        r@.len() == commands@.len(),
        r@.to_multiset() == commands@.to_multiset(),
        styles_contiguous(r@),
{
    let ghost orig = commands@;
    let mut rest = commands;
    let mut out: Vec<DrawCommand> = Vec::new();
    proof {
        assert(out@.to_multiset().add(rest@.to_multiset()) =~= orig.to_multiset());
    }
    while rest.len() > 0
        invariant
            out@.len() + rest@.len() == orig.len(),
            out@.to_multiset().add(rest@.to_multiset()) == orig.to_multiset(),
            styles_contiguous(out@),
            forall|i: int, j: int|
                0 <= i < out@.len() && 0 <= j < rest@.len() ==> cmd_style(#[trigger] out@[i])
                    != cmd_style(#[trigger] rest@[j]),
        decreases rest@.len(),
    {
        let ghost out0 = out@;
        let ghost rest0 = rest@;
        let f = rest.remove(0);
        proof {
            assert(f == rest0[0]);
            assert(rest0.remove(0).to_multiset() =~= rest0.to_multiset().remove(f));
        }
        let ghost st = cmd_style(f);
        out.push(f);
        proof {
            assert(out@.to_multiset().add(rest@.to_multiset()) =~= orig.to_multiset());
        }
        let mut i: usize = 0;
        while i < rest.len()
            invariant
                out@.len() + rest@.len() == orig.len(),
                out@.to_multiset().add(rest@.to_multiset()) == orig.to_multiset(),
                i <= rest@.len(),
                out@.len() > out0.len(),
                out@.take(out0.len() as int) == out0,
                styles_contiguous(out0),
                forall|k: int|
                    out0.len() <= k < out@.len() ==> cmd_style(#[trigger] out@[k]) == st,
                forall|k: int| 0 <= k < out0.len() ==> cmd_style(#[trigger] out0[k]) != st,
                forall|k: int, j: int|
                    0 <= k < out0.len() && 0 <= j < rest@.len() ==> cmd_style(#[trigger] out0[k])
                        != cmd_style(#[trigger] rest@[j]),
                forall|j: int| 0 <= j < i ==> cmd_style(#[trigger] rest@[j]) != st,
            decreases rest@.len() - i,
        {
            let matches_style = same_style(&rest[i], &out[out.len() - 1]);
            if matches_style {
                let ghost rest1 = rest@;
                let m = rest.remove(i);
                proof {
                    assert(m == rest1[i as int]);
                    assert(rest1.remove(i as int).to_multiset() =~= rest1.to_multiset().remove(m));
                    assert(forall|j: int|
                        0 <= j < i ==> rest@[j] == rest1[j]);
                    assert(forall|j: int|
                        i <= j < rest@.len() ==> rest@[j] == rest1[j + 1]);
                }
                let ghost outp = out@;
                out.push(m);
                proof {
                    assert(out@.take(out0.len() as int) =~= outp.take(out0.len() as int));
                    assert(out@.to_multiset().add(rest@.to_multiset()) =~= orig.to_multiset());
                }
            } else {
                i += 1;
            }
        }
        proof {
            // the finished block's style no longer occurs in the remainder
            assert forall|i: int, j: int|
                0 <= i < out@.len() && 0 <= j < rest@.len() implies cmd_style(out@[i])
                != cmd_style(rest@[j]) by {
                if i < out0.len() {
                    assert(out@[i] == out0[i]);
                } else {
                    assert(cmd_style(out@[i]) == st);
                    assert(cmd_style(rest@[j]) != st);
                }
            }
            // the new block is contiguous behind a prefix free of its style
            assert forall|a: int, b: int, c: int|
                0 <= a < b < c < out@.len() && cmd_style(out@[a]) == cmd_style(out@[c]) implies cmd_style(
                out@[b]) == cmd_style(out@[a]) by {
                if c < out0.len() {
                    assert(out0[a] == out@[a] && out0[b] == out@[b] && out0[c] == out@[c]);
                } else if a >= out0.len() {
                } else {
                    assert(cmd_style(out@[c]) == st);
                    assert(out@[a] == out0[a]);
                    assert(cmd_style(out0[a]) != st);
                }
            }
        }
    }
    proof {
        assert(rest@.to_multiset() =~= Multiset::<DrawCommand>::empty());
        assert(out@.to_multiset().add(Multiset::<DrawCommand>::empty()) =~= out@.to_multiset());
        assert(out@.to_multiset().len() == orig.to_multiset().len());
    }
    out
}

/// Drop commands shorter than `min_distance`, then group the survivors by
/// style.  The result holds exactly the long-enough commands; all commands
/// of one style are contiguous.
pub fn batch_process_draw_commands(commands: Vec<DrawCommand>, min_distance: i32) -> (r: Vec<
    DrawCommand>)
    requires
        cmds_ok(commands@),
        0 <= min_distance <= crate::COORD_LIMIT,
    ensures
        r@.len() == commands@.filter(
            |c: DrawCommand| cmd_long_enough(c, min_distance as int),
        ).len(),
        r@.to_multiset() == commands@.filter(
            |c: DrawCommand| cmd_long_enough(c, min_distance as int),
        ).to_multiset(),
        styles_contiguous(r@),
{
    let ghost orig = commands@;
    let ghost pred = |c: DrawCommand| cmd_long_enough(c, min_distance as int);
    proof {
        lemma_abs_mul(min_distance as int, min_distance as int, 0x4000_0000, 0x4000_0000);
        assert(0x4000_0000int * 0x4000_0000int == 0x1000_0000_0000_0000int) by (nonlinear_arith);
        assert(orig.take(0) =~= Seq::<DrawCommand>::empty());
        assert(Seq::<DrawCommand>::empty().filter(pred) =~= Seq::<DrawCommand>::empty()) by {
            reveal(Seq::filter);
        }
    }
    let md2: i128 = (min_distance as i128) * (min_distance as i128);
    let mut input = commands;
    let mut kept: Vec<DrawCommand> = Vec::new();
    let initial_len = input.len();
    proof {
        assert(initial_len as nat == orig.len());
    }
    let mut k: usize = 0;
    while input.len() > 0
        invariant
            orig.len() <= usize::MAX,
            k + input@.len() == orig.len(),
            input@ =~= orig.skip(k as int),
            cmds_ok(orig),
            md2 == sq(min_distance as int),
            pred == (|c: DrawCommand| cmd_long_enough(c, min_distance as int)),
            kept@ == orig.take(k as int).filter(pred),
        decreases input@.len(),
    {
        let c = input.remove(0);
        proof {
            assert(c == orig[k as int]);
            assert(input@ =~= orig.skip(k as int + 1));
            assert(cmd_ok(orig[k as int]));
            assert(orig.take(k as int + 1) =~= orig.take(k as int).push(orig[k as int]));
            crate::spatial::lemma_filter_push(orig.take(k as int), pred, orig[k as int]);
        }
        let d2 = crate::geom::dist_sq_x(c.from_x as i64, c.from_y as i64, c.to_x as i64,
            c.to_y as i64);
        if d2 >= md2 {
            kept.push(c);
        }
        k += 1;
    }
    proof {
        assert(orig.take(orig.len() as int) =~= orig);
    }
    optimize_draw_commands(kept)
}

} // verus!
