//! Anti-aliased rounded corners.
//!
//! One rasterizer produces the alpha operations of a corner in local
//! coordinates, `(i, j)` with `1 <= i, j <= r` where `(1, 1)` is the pixel in
//! the very corner; each of the four corners then applies the same operations
//! through its own reflection of the buffer.

use crate::pixels::{lemma_offset_distinct, lemma_offset_in_bounds, PixelBuffer};
use vstd::prelude::*;

verus! {

/// Radii `(top_left, top_right, bottom_right, bottom_left)` in pixels.
pub type CornerRadii = (u32, u32, u32, u32);

/// An alpha operation `(i, j, a)` on local pixel `(i, j)` of a corner: its alpha
/// becomes `(a * alpha + 128) / 256`, so `a == 0` clears it and `a == 256` keeps it.
pub type CornerOp = (u32, u32, u32);

#[derive(Clone, Copy, Debug, PartialEq, Eq, Structural)]
pub enum Corner {
    TopLeft,
    TopRight,
    BottomRight,
    BottomLeft,
}

/// The buffer position of local pixel `(i, j)` of corner `c` in a `w` x `h` buffer.
pub open spec fn corner_pixel(c: Corner, w: int, h: int, i: int, j: int) -> (int, int) {
    match c {
        Corner::TopLeft => (i - 1, j - 1),
        Corner::TopRight => (w - i, j - 1),
        Corner::BottomRight => (w - i, h - j),
        Corner::BottomLeft => (i - 1, h - j),
    }
}

/// The local coordinates, seen from corner `c`, of buffer pixel `(x, y)`.
pub open spec fn corner_local(c: Corner, w: int, h: int, x: int, y: int) -> (int, int) {
    match c {
        Corner::TopLeft => (x + 1, y + 1),
        Corner::TopRight => (w - x, y + 1),
        Corner::BottomRight => (w - x, h - y),
        Corner::BottomLeft => (x + 1, h - y),
    }
}

/// Whether buffer pixel `(x, y)` lies in the `r` x `r` box of corner `c`.
pub open spec fn in_corner(c: Corner, w: int, h: int, r: int, x: int, y: int) -> bool {
    let (i, j) = corner_local(c, w, h, x, y);
    1 <= i <= r && 1 <= j <= r
}

/// Alpha `alpha` weighted by `a / 256`, rounded to nearest.
pub open spec fn weigh_alpha(alpha: int, a: int) -> int {
    (a * alpha + 128) / 256
}

/// The alpha of local pixel `(i, j)` after the operations `ops`, from `alpha`.
pub open spec fn local_alpha(ops: Seq<CornerOp>, i: int, j: int, alpha: int) -> int
    decreases ops.len(),
{
    if ops.len() == 0 {
        alpha
    } else {
        let before = local_alpha(ops.drop_last(), i, j, alpha);
        let op = ops.last();
        if op.0 == i && op.1 == j {
            weigh_alpha(before, op.2 as int)
        } else {
            before
        }
    }
}

/// Every operation stays inside the `r` x `r` corner box and weighs by at most one.
pub open spec fn valid_ops(ops: Seq<CornerOp>, r: int) -> bool {
    forall|k: int|
        0 <= k < ops.len() ==> 1 <= #[trigger] ops[k].0 <= r && 1 <= ops[k].1 <= r && ops[k].2
            <= 256
}

pub proof fn lemma_local_alpha_bounded(ops: Seq<CornerOp>, i: int, j: int, alpha: int)
    requires
        forall|k: int| 0 <= k < ops.len() ==> #[trigger] ops[k].2 <= 256,
        0 <= alpha <= 255,
    ensures
        0 <= local_alpha(ops, i, j, alpha) <= alpha,
    decreases ops.len(),
{
    if ops.len() > 0 {
        let pre = ops.drop_last();
        assert forall|k: int| 0 <= k < pre.len() implies #[trigger] pre[k].2 <= 256 by {
            assert(pre[k] == ops[k]);
        }
        lemma_local_alpha_bounded(pre, i, j, alpha);
        let before = local_alpha(pre, i, j, alpha);
        let a = ops.last().2 as int;
        assert(0 <= a * before <= 256 * before) by (nonlinear_arith)
            requires
                0 <= a <= 256,
                0 <= before,
        ;
    }
}

/// A weight kept within `0 ..= 256`.
pub open spec fn clamp_weight(a: int) -> u32 {
    if a < 0 {
        0
    } else if a > 256 {
        256
    } else {
        a as u32
    }
}

/// The operation with weight `a` on the pixel of cell `(cx, cy)` of a corner
/// of radius `r0`, at local `(r0 - cx, r0 - cy)`; none for a cell outside.
pub open spec fn op_at(r0: int, cx: int, cy: int, a: int) -> Seq<CornerOp> {
    if 0 <= cx < r0 && 0 <= cy < r0 {
        seq![((r0 - cx) as u32, (r0 - cy) as u32, clamp_weight(a))]
    } else {
        Seq::empty()
    }
}

/// Clearing of cells `(cx, j)` for `from <= j < r0`, in order.
pub open spec fn column_ops(r0: int, cx: int, from: int) -> Seq<CornerOp>
    decreases r0 - from,
{
    if from >= r0 {
        Seq::empty()
    } else {
        op_at(r0, cx, from, 0) + column_ops(r0, cx, from + 1)
    }
}

/// Clearing of cells `(i, cy)` for `from <= i < r0`, in order.
pub open spec fn row_ops(r0: int, cy: int, from: int) -> Seq<CornerOp>
    decreases r0 - from,
{
    if from >= r0 {
        Seq::empty()
    } else {
        op_at(r0, from, cy, 0) + row_ops(r0, cy, from + 1)
    }
}

/// Clearing of the square of cells `(i, j)`, `i` from `row` on and `j` from
/// `from` on, row by row.
pub open spec fn square_ops(r0: int, row: int, from: int) -> Seq<CornerOp>
    decreases r0 - row,
{
    if row >= r0 {
        Seq::empty()
    } else {
        column_ops(r0, row, from) + square_ops(r0, row + 1, from)
    }
}

proof fn lemma_op_at_valid(r0: int, cx: int, cy: int, a: int)
    requires
        r0 <= u32::MAX,
    ensures
        valid_ops(op_at(r0, cx, cy, a), r0),
{
}

proof fn lemma_valid_concat(a: Seq<CornerOp>, b: Seq<CornerOp>, r: int)
    requires
        valid_ops(a, r),
        valid_ops(b, r),
    ensures
        valid_ops(a + b, r),
{
    assert forall|k: int| 0 <= k < (a + b).len() implies 1 <= #[trigger] (a + b)[k].0 <= r && 1 <= (a
        + b)[k].1 <= r && (a + b)[k].2 <= 256 by {
        if k < a.len() {
            assert((a + b)[k] == a[k]);
        } else {
            assert((a + b)[k] == b[k - a.len()]);
        }
    }
}

/// Queues the operation of cell `(cx, cy)` with weight `a`.
fn push_op(ops: &mut Vec<CornerOp>, r0: u32, cx: u64, cy: u64, a: i64)
    ensures
        final(ops)@ == old(ops)@ + op_at(r0 as int, cx as int, cy as int, a as int),
        valid_ops(old(ops)@, r0 as int) ==> valid_ops(final(ops)@, r0 as int),
{
    proof {
        lemma_op_at_valid(r0 as int, cx as int, cy as int, a as int);
        if valid_ops(old(ops)@, r0 as int) {
            lemma_valid_concat(old(ops)@, op_at(r0 as int, cx as int, cy as int, a as int), r0 as int);
        }
    }
    if cx < r0 as u64 && cy < r0 as u64 {
        let w: u32 = if a < 0 {
            0
        } else if a > 256 {
            256
        } else {
            a as u32
        };
        ops.push(((r0 as u64 - cx) as u32, (r0 as u64 - cy) as u32, w));
    }
    assert(ops@ =~= old(ops)@ + op_at(r0 as int, cx as int, cy as int, a as int));
}

/// Clears cell column `cx` from cell row `from` on, then cell row `cx`
/// from cell column `from` on.
fn push_clear_span(ops: &mut Vec<CornerOp>, r0: u32, cx: u64, from: u64)
    ensures
        final(ops)@ == old(ops)@ + column_ops(r0 as int, cx as int, from as int) + row_ops(
            r0 as int,
            cx as int,
            from as int,
        ),
        valid_ops(old(ops)@, r0 as int) ==> valid_ops(final(ops)@, r0 as int),
{
    let ghost start = ops@;
    let mut j: u64 = from;
    while j < r0 as u64
        invariant
            from <= j || j >= r0,
            ops@ + column_ops(r0 as int, cx as int, j as int) == start + column_ops(
                r0 as int,
                cx as int,
                from as int,
            ),
            valid_ops(start, r0 as int) ==> valid_ops(ops@, r0 as int),
        decreases r0 as u64 - j,
    {
        let ghost before = ops@;
        push_op(ops, r0, cx, j, 0);
        assert(before + column_ops(r0 as int, cx as int, j as int) =~= ops@ + column_ops(
            r0 as int,
            cx as int,
            j + 1,
        ));
        j = j + 1;
    }
    assert(ops@ =~= ops@ + column_ops(r0 as int, cx as int, j as int));
    let ghost mid = ops@;
    assert(valid_ops(start, r0 as int) ==> valid_ops(mid, r0 as int));
    let mut i: u64 = from;
    while i < r0 as u64
        invariant
            ops@ + row_ops(r0 as int, cx as int, i as int) == mid + row_ops(r0 as int, cx as int, from as int),
            mid == start + column_ops(r0 as int, cx as int, from as int),
            valid_ops(start, r0 as int) ==> valid_ops(ops@, r0 as int),
        decreases r0 as u64 - i,
    {
        let ghost before = ops@;
        push_op(ops, r0, i, cx, 0);
        assert(before + row_ops(r0 as int, cx as int, i as int) =~= ops@ + row_ops(r0 as int, cx as int, i + 1));
        i = i + 1;
    }
    assert(ops@ =~= ops@ + row_ops(r0 as int, cx as int, i as int));
}

/// The tracer of the supersampled arc: position `(x, y)`, decision value
/// `p`, the coverage gathered for the current pixel, and whether the last
/// sub-step already emitted that pixel.
pub type Tracer = (int, int, int, int, bool);

/// One sub-step along the arc from a tracer with `x < y`, and the
/// operations it emits: when it moves down out of a pixel row it emits the
/// pixel and its mirror across the diagonal.
pub open spec fn sub_step(r0: int, t: Tracer) -> (Tracer, Seq<CornerOp>) {
    let (x, y, p, alpha, skip) = t;
    let a = alpha + y % 16 + 1;
    if p < 0 {
        ((x + 1, y, p + 2 * (x + 1) + 2, a, false), Seq::empty())
    } else if y % 16 == 0 {
        (
            (x + 1, y - 1, p - (2 * (y - (x + 1)) + 2), (x + 1) % 16 * 16, true),
            op_at(r0, x / 16, y / 16, a) + op_at(r0, y / 16, x / 16, a),
        )
    } else {
        ((x + 1, y - 1, p - (2 * (y - (x + 1)) + 2), a, false), Seq::empty())
    }
}

/// Sub-steps `k` to `15` of a pixel column, ending early where the arc
/// meets the diagonal: the tracer, whether the arc ended, and the
/// operations.
pub open spec fn sub_steps(r0: int, t: Tracer, k: int) -> (Tracer, bool, Seq<CornerOp>)
    decreases 16 - k,
{
    if k >= 16 {
        (t, false, Seq::empty())
    } else if t.0 >= t.1 {
        ((t.0, t.1, t.2, t.3, false), true, Seq::empty())
    } else {
        let (n, o) = sub_step(r0, t);
        let (e, d, rest) = sub_steps(r0, n, k + 1);
        (e, d, o + rest)
    }
}

/// One pixel column of the arc: clear what lies beyond the arc in that
/// column and its mirrored row, emit the pixel left pending, then trace the
/// 16 sub-steps of the column.
pub open spec fn column_step(r0: int, t: Tracer) -> (Tracer, bool, Seq<CornerOp>) {
    let (x, y, p, alpha, skip) = t;
    let cleared = column_ops(r0, x / 16, y / 16 + 1) + row_ops(r0, x / 16, y / 16 + 1);
    let drawn = if !skip {
        op_at(r0, x / 16 - 1, y / 16, alpha) + op_at(r0, y / 16, x / 16 - 1, alpha)
    } else {
        Seq::empty()
    };
    let start = if !skip {
        0
    } else {
        alpha
    };
    let (e, d, o) = sub_steps(r0, (x, y, p, start, skip), 0);
    (e, d, cleared + drawn + o)
}

/// The arc traced column by column, for at most `fuel` columns, until it
/// meets the diagonal.
pub open spec fn trace(r0: int, t: Tracer, fuel: nat) -> (Tracer, Seq<CornerOp>)
    decreases fuel,
{
    if fuel == 0 {
        (t, Seq::empty())
    } else {
        let (e, d, o) = column_step(r0, t);
        if d {
            (e, o)
        } else {
            let (f, rest) = trace(r0, e, (fuel - 1) as nat);
            (f, o + rest)
        }
    }
}

/// The pixel on the diagonal, corrected for the coverage counted twice, and
/// the clearing of the square beyond the arc.
pub open spec fn corner_finish(r0: int, t: Tracer) -> Seq<CornerOp> {
    let (x, y, p, alpha, skip) = t;
    let tip = if x / 16 == y / 16 {
        let a = if x == y {
            alpha + y % 16 + 1
        } else {
            alpha
        };
        let s = y % 16 + 1;
        op_at(r0, x / 16, y / 16, 2 * a - s * s)
    } else {
        Seq::empty()
    };
    tip + square_ops(r0, y / 16 + 1, y / 16 + 1)
}

/// The operations that round a corner of radius `r0`: a midpoint circle of
/// radius `16 * r0` traced from the top of the arc to the diagonal.
pub open spec fn corner_plan(r0: int) -> Seq<CornerOp> {
    let r = 16 * r0;
    let (t, ops) = trace(r0, (0, r - 1, 2 - r, 0, true), (r0 + 2) as nat);
    ops + corner_finish(r0, t)
}

/// The alpha operations that round a corner of radius `r0` pixels.
///
/// A midpoint circle of radius `16 * r0` is traced over one octant; every 16
/// sub-steps make up one destination pixel, whose coverage (`1 ..= 256`) is
/// emitted for it and for its mirror across the diagonal. Pixels beyond the
/// arc are cleared.
pub fn corner_ops(r0: u32) -> (ops: Vec<CornerOp>)
    requires
        r0 > 0,
    ensures
        ops@ == corner_plan(r0 as int),
        valid_ops(ops@, r0 as int),
{
    let r: u64 = 16 * (r0 as u64);
    let mut ops: Vec<CornerOp> = Vec::new();
    let mut x: u64 = 0;
    let mut y: u64 = r - 1;
    let mut p: i64 = 2 - (r as i64);
    let mut alpha: u64 = 0;
    let mut skip_draw: bool = true;
    let mut done: bool = false;
    let ghost plan = trace(r0 as int, (0, r - 1, 2 - r, 0, true), (r0 + 2) as nat);
    let ghost mut fuel: nat = (r0 + 2) as nat;
    assert(ops@ =~= Seq::<CornerOp>::empty());
    while !done
        invariant
            r == 16 * (r0 as u64),
            r0 > 0,
            y < r,
            x <= y + 1,
            -(2 * r as int + 4) <= p <= 2 * r + 4,
            !done ==> alpha <= 256 && x % 16 == 0,
            !done && skip_draw ==> alpha == 0,
            !done && !skip_draw ==> x >= 16,
            done ==> x >= y && alpha <= 256 && x % 16 < 16,
            done ==> alpha <= 16 * (x % 16),
            valid_ops(ops@, r0 as int),
            !done ==> fuel * 16 >= y + 2 - x,
            !done ==> trace(r0 as int, (x as int, y as int, p as int, alpha as int, skip_draw), fuel).0
                == plan.0,
            !done ==> ops@ + trace(r0 as int, (x as int, y as int, p as int, alpha as int, skip_draw), fuel).1
                == plan.1,
            done ==> (x as int, y as int, p as int, alpha as int, skip_draw) == plan.0,
            done ==> ops@ == plan.1,
        decreases
            (if done { 0int } else { 1int }) + y + 2 - x,
    {
        let ghost outer = (x as int, y as int, p as int, alpha as int, skip_draw);
        let ghost before = ops@;
        push_clear_span(&mut ops, r0, x / 16, y / 16 + 1);
        if !skip_draw {
            push_op(&mut ops, r0, x / 16 - 1, y / 16, alpha as i64);
            push_op(&mut ops, r0, y / 16, x / 16 - 1, alpha as i64);
            alpha = 0;
        }
        let x0: u64 = x;
        let ghost y0 = y;
        let ghost st0 = (x as int, y as int, p as int, alpha as int, skip_draw);
        let ghost inner = sub_steps(r0 as int, st0, 0);
        let ghost base = ops@;
        proof {
            let (xx, yy, pp, aa, ss) = outer;
            let cleared = column_ops(r0 as int, xx / 16, yy / 16 + 1) + row_ops(r0 as int, xx / 16, yy / 16 + 1);
            let drawn = if !ss {
                op_at(r0 as int, xx / 16 - 1, yy / 16, aa) + op_at(r0 as int, yy / 16, xx / 16 - 1, aa)
            } else {
                Seq::empty()
            };
            assert(base =~= before + cleared + drawn);
            assert(column_step(r0 as int, outer) == (inner.0, inner.1, cleared + drawn + inner.2));
        }
        let mut t: u64 = 0;
        while t < 16 && !done
            invariant
                r == 16 * (r0 as u64),
                y < r,
                y <= y0,
                x0 % 16 == 0,
                x == x0 + t,
                t <= 16,
                x <= y + 1,
                y - x + t <= y0 - x0,
                -(2 * r as int + 4) <= p <= 2 * r + 4,
                alpha <= 16 * t,
                done ==> x >= y && t < 16,
                skip_draw ==> alpha == (x % 16) * 16,
                t > 0 ==> x >= 16 || skip_draw || x == x0 + t,
                valid_ops(ops@, r0 as int),
                (if done {
                    ((x as int, y as int, p as int, alpha as int, skip_draw), true, Seq::<CornerOp>::empty())
                } else {
                    sub_steps(r0 as int, (x as int, y as int, p as int, alpha as int, skip_draw), t as int)
                }).0 == inner.0,
                (if done {
                    ((x as int, y as int, p as int, alpha as int, skip_draw), true, Seq::<CornerOp>::empty())
                } else {
                    sub_steps(r0 as int, (x as int, y as int, p as int, alpha as int, skip_draw), t as int)
                }).1 == inner.1,
                ops@ + (if done {
                    ((x as int, y as int, p as int, alpha as int, skip_draw), true, Seq::<CornerOp>::empty())
                } else {
                    sub_steps(r0 as int, (x as int, y as int, p as int, alpha as int, skip_draw), t as int)
                }).2 == base + inner.2,
            decreases 16 - t + (if done { 0int } else { 1int }),
        {
            let ghost cur = (x as int, y as int, p as int, alpha as int, skip_draw);
            let ghost cur_ops = ops@;
            skip_draw = false;
            if x >= y {
                done = true;
                assert(ops@ =~= ops@ + Seq::<CornerOp>::empty());
            } else {
                let ghost step = sub_step(r0 as int, cur);
                alpha = alpha + y % 16 + 1;
                if p < 0 {
                    x = x + 1;
                    p = p + (2 * x + 2) as i64;
                    assert(ops@ + Seq::<CornerOp>::empty() =~= ops@);
                } else {
                    if y % 16 == 0 {
                        push_op(&mut ops, r0, x / 16, y / 16, alpha as i64);
                        push_op(&mut ops, r0, y / 16, x / 16, alpha as i64);
                        skip_draw = true;
                        assert((x + 1) % 16 == (t + 1) % 16);
                        alpha = (x + 1) % 16 * 16;
                    } else {
                        assert(ops@ + Seq::<CornerOp>::empty() =~= ops@);
                    }
                    x = x + 1;
                    p = p - (2 * (y - x) + 2) as i64;
                    y = y - 1;
                }
                t = t + 1;
                proof {
                    assert(step.0 == (x as int, y as int, p as int, alpha as int, skip_draw));
                    assert(ops@ == cur_ops + step.1);
                    let rest = sub_steps(r0 as int, step.0, t as int);
                    assert(sub_steps(r0 as int, cur, t - 1) == (rest.0, rest.1, step.1 + rest.2));
                    assert(cur_ops + (step.1 + rest.2) =~= ops@ + rest.2);
                }
            }
        }
        if !done {
            assert(x == x0 + 16);
            assert(ops@ + Seq::<CornerOp>::empty() =~= ops@);
            proof {
                let o = column_step(r0 as int, outer).2;
                let nxt = (x as int, y as int, p as int, alpha as int, skip_draw);
                assert(inner.0 == nxt && !inner.1 && ops@ == base + inner.2);
                assert(fuel > 0);
                let tail = trace(r0 as int, nxt, (fuel - 1) as nat);
                assert(trace(r0 as int, outer, fuel) == (tail.0, o + tail.1));
                assert(ops@ =~= before + o);
                assert(before + (o + tail.1) =~= ops@ + tail.1);
                fuel = (fuel - 1) as nat;
            }
        } else {
            assert(x % 16 == t);
            proof {
                assert(inner.1);
                assert(ops@ + Seq::<CornerOp>::empty() =~= ops@);
                assert(fuel > 0);
                assert(trace(r0 as int, outer, fuel) == (inner.0, column_step(r0 as int, outer).2));
                assert(ops@ =~= before + column_step(r0 as int, outer).2);
            }
        }
    }
    let ghost traced = ops@;
    let ghost fin = (x as int, y as int, p as int, alpha as int, skip_draw);
    if x / 16 == y / 16 {
        if x == y {
            alpha = alpha + y % 16 + 1;
        }
        let s: i64 = (y % 16 + 1) as i64;
        assert(1 <= s * s <= 256) by (nonlinear_arith)
            requires
                1 <= s <= 16,
        ;
        let twice: i64 = 2 * (alpha as i64);
        push_op(&mut ops, r0, x / 16, y / 16, twice - s * s);
    } else {
        assert(ops@ =~= ops@ + Seq::<CornerOp>::empty());
    }
    let ghost tipped = ops@;
    let mut i: u64 = y / 16 + 1;
    while i < r0 as u64
        invariant
            valid_ops(ops@, r0 as int),
            ops@ + square_ops(r0 as int, i as int, y / 16 + 1) == tipped + square_ops(
                r0 as int,
                y / 16 + 1,
                y / 16 + 1,
            ),
        decreases r0 as u64 - i,
    {
        let ghost row_start = ops@;
        let mut j: u64 = y / 16 + 1;
        while j < r0 as u64
            invariant
                valid_ops(ops@, r0 as int),
                i < r0,
                ops@ + column_ops(r0 as int, i as int, j as int) == row_start + column_ops(
                    r0 as int,
                    i as int,
                    y / 16 + 1,
                ),
            decreases r0 as u64 - j,
        {
            let ghost b = ops@;
            push_op(&mut ops, r0, i, j, 0);
            assert(b + column_ops(r0 as int, i as int, j as int) =~= ops@ + column_ops(r0 as int, i as int, j + 1));
            j = j + 1;
        }
        assert(ops@ =~= ops@ + column_ops(r0 as int, i as int, j as int));
        assert(row_start + square_ops(r0 as int, i as int, y / 16 + 1) =~= ops@ + square_ops(
            r0 as int,
            i + 1,
            y / 16 + 1,
        ));
        i = i + 1;
    }
    assert(ops@ =~= ops@ + square_ops(r0 as int, i as int, y / 16 + 1));
    assert(ops@ =~= traced + corner_finish(r0 as int, fin));
    ops
}

/// Channel `ch` of pixel `(x, y)` of `img` once the operations `ops` of a
/// radius-`r` corner `c` have been applied.
pub open spec fn after_corner(
    img: PixelBuffer,
    ops: Seq<CornerOp>,
    r: int,
    c: Corner,
    x: int,
    y: int,
    ch: int,
) -> int {
    if ch == 3 && in_corner(c, img.width as int, img.height as int, r, x, y) {
        let (i, j) = corner_local(c, img.width as int, img.height as int, x, y);
        local_alpha(ops, i, j, img.at(x, y, 3) as int)
    } else {
        img.at(x, y, ch) as int
    }
}

/// The buffer position of local pixel `(i, j)` of corner `c`.
fn corner_position(c: Corner, w: u32, h: u32, i: u32, j: u32) -> (p: (u32, u32))
    requires
        1 <= i <= w,
        1 <= j <= h,
    ensures
        p.0 == corner_pixel(c, w as int, h as int, i as int, j as int).0,
        p.1 == corner_pixel(c, w as int, h as int, i as int, j as int).1,
{
    match c {
        Corner::TopLeft => (i - 1, j - 1),
        Corner::TopRight => (w - i, j - 1),
        Corner::BottomRight => (w - i, h - j),
        Corner::BottomLeft => (i - 1, h - j),
    }
}

/// Applies the operations of a radius-`r` corner to corner `c` of `img`.
pub fn apply_corner_ops(img: &mut PixelBuffer, ops: &Vec<CornerOp>, r: u32, c: Corner)
    requires
        old(img).wf(),
        valid_ops(ops@, r as int),
        r <= old(img).width,
        r <= old(img).height,
    ensures
        final(img).wf(),
        final(img).width == old(img).width,
        final(img).height == old(img).height,
        forall|x: int, y: int, ch: int|
            old(img).contains(x, y) && 0 <= ch < 4 ==> #[trigger] final(img).at(x, y, ch) as int
                == after_corner(*old(img), ops@, r as int, c, x, y, ch),
{
    let ghost orig = *img;
    let w = img.width;
    let h = img.height;
    let mut k: usize = 0;
    while k < ops.len()
        invariant
            orig.wf(),
            img.wf(),
            img.width == w == orig.width,
            img.height == h == orig.height,
            valid_ops(ops@, r as int),
            r <= w,
            r <= h,
            k <= ops@.len(),
            forall|x: int, y: int, ch: int|
                orig.contains(x, y) && 0 <= ch < 4 ==> #[trigger] img.at(x, y, ch) as int
                    == after_corner(orig, ops@.take(k as int), r as int, c, x, y, ch),
        decreases ops@.len() - k,
    {
        let op = ops[k];
        let (i, j, a) = op;
        assert(1 <= ops@[k as int].0 <= r && 1 <= ops@[k as int].1 <= r && ops@[k as int].2 <= 256);
        let (px, py) = corner_position(c, w, h, i, j);
        let cur = img.get(px, py, 3);
        proof {
            let pre = ops@.take(k as int);
            assert forall|m: int| 0 <= m < pre.len() implies #[trigger] pre[m].2 <= 256 by {
                assert(pre[m] == ops@[m]);
                assert(1 <= ops@[m].0);
            }
            lemma_local_alpha_bounded(ops@.take(k as int), i as int, j as int, orig.at(px as int, py as int, 3) as int);
            assert(cur as int == after_corner(orig, ops@.take(k as int), r as int, c, px as int, py as int, 3));
            assert(corner_local(c, w as int, h as int, px as int, py as int) == (i as int, j as int));
            assert(0 <= (a as int) * (cur as int) <= 256 * 255) by (nonlinear_arith)
                requires
                    0 <= a <= 256,
                    0 <= cur <= 255,
            ;
        }
        let v: u32 = (a * (cur as u32) + 128) / 256;
        let ghost before = *img;
        img.set(px, py, 3, v as u8);
        proof {
            let pre = ops@.take(k as int);
            let post = ops@.take(k as int + 1);
            assert(post.drop_last() =~= pre);
            assert(post.last() == op);
            assert forall|x: int, y: int, ch: int|
                orig.contains(x, y) && 0 <= ch < 4 implies #[trigger] img.at(x, y, ch) as int
                    == after_corner(orig, post, r as int, c, x, y, ch) by {
                if x == px as int && y == py as int && ch == 3 {
                    lemma_offset_in_bounds(w as int, h as int, x, y, ch);
                } else {
                    lemma_offset_distinct(w as int, h as int, x, y, ch, px as int, py as int, 3);
                    lemma_offset_in_bounds(w as int, h as int, x, y, ch);
                    lemma_offset_in_bounds(w as int, h as int, px as int, py as int, 3);
                    assert(img.at(x, y, ch) == before.at(x, y, ch));
                    if ch == 3 && in_corner(c, w as int, h as int, r as int, x, y) {
                        assert(corner_local(c, w as int, h as int, x, y) != (i as int, j as int));
                    }
                }
            }
        }
        k = k + 1;
    }
    assert(ops@.take(ops@.len() as int) =~= ops@);
}

/// The alpha `alpha` of pixel `(x, y)` of a `w` x `h` buffer once corner `c`
/// of radius `r` has applied `ops`.
pub open spec fn corner_step(
    ops: Seq<CornerOp>,
    r: int,
    c: Corner,
    w: int,
    h: int,
    x: int,
    y: int,
    alpha: int,
) -> int {
    if in_corner(c, w, h, r, x, y) {
        let (i, j) = corner_local(c, w, h, x, y);
        local_alpha(ops, i, j, alpha)
    } else {
        alpha
    }
}

/// Channel `ch` of pixel `(x, y)` after the corners top left, top right,
/// bottom right and bottom left, in that order, applied `ops[k]` with radius
/// `radii[k]`. Only alpha changes.
pub open spec fn rounded_channel(
    img: PixelBuffer,
    ops: Seq<Seq<CornerOp>>,
    radii: Seq<int>,
    x: int,
    y: int,
    ch: int,
) -> int {
    let w = img.width as int;
    let h = img.height as int;
    if ch == 3 {
        let a0 = img.at(x, y, 3) as int;
        let a1 = corner_step(ops[0], radii[0], Corner::TopLeft, w, h, x, y, a0);
        let a2 = corner_step(ops[1], radii[1], Corner::TopRight, w, h, x, y, a1);
        let a3 = corner_step(ops[2], radii[2], Corner::BottomRight, w, h, x, y, a2);
        corner_step(ops[3], radii[3], Corner::BottomLeft, w, h, x, y, a3)
    } else {
        img.at(x, y, ch) as int
    }
}

/// The radii fit the buffer: the corners on each side do not overlap.
pub open spec fn radii_fit(radii: CornerRadii, w: int, h: int) -> bool {
    radii.0 + radii.1 <= w && radii.3 + radii.2 <= w && radii.0 + radii.3 <= h && radii.1
        + radii.2 <= h
}

pub open spec fn radii_seq(radii: CornerRadii) -> Seq<int> {
    seq![radii.0 as int, radii.1 as int, radii.2 as int, radii.3 as int]
}

/// Applies the given operations to the four corners.
fn round_with(
    img: &mut PixelBuffer,
    radii: CornerRadii,
    tl: &Vec<CornerOp>,
    tr: &Vec<CornerOp>,
    br: &Vec<CornerOp>,
    bl: &Vec<CornerOp>,
)
    requires
        old(img).wf(),
        radii_fit(radii, old(img).width as int, old(img).height as int),
        valid_ops(tl@, radii.0 as int),
        valid_ops(tr@, radii.1 as int),
        valid_ops(br@, radii.2 as int),
        valid_ops(bl@, radii.3 as int),
    ensures
        final(img).wf(),
        final(img).width == old(img).width,
        final(img).height == old(img).height,
        forall|x: int, y: int, ch: int|
            old(img).contains(x, y) && 0 <= ch < 4 ==> #[trigger] final(img).at(x, y, ch) as int
                == rounded_channel(*old(img), seq![tl@, tr@, br@, bl@], radii_seq(radii), x, y, ch),
{
    let ghost i0 = *img;
    apply_corner_ops(img, tl, radii.0, Corner::TopLeft);
    let ghost i1 = *img;
    apply_corner_ops(img, tr, radii.1, Corner::TopRight);
    let ghost i2 = *img;
    apply_corner_ops(img, br, radii.2, Corner::BottomRight);
    let ghost i3 = *img;
    apply_corner_ops(img, bl, radii.3, Corner::BottomLeft);
    proof {
        let ops = seq![tl@, tr@, br@, bl@];
        let rs = radii_seq(radii);
        assert(rs[0] == radii.0 && rs[1] == radii.1 && rs[2] == radii.2 && rs[3] == radii.3);
        assert(ops[0] == tl@ && ops[1] == tr@ && ops[2] == br@ && ops[3] == bl@);
        assert forall|x: int, y: int, ch: int|
            i0.contains(x, y) && 0 <= ch < 4 implies #[trigger] img.at(x, y, ch) as int
                == rounded_channel(i0, ops, rs, x, y, ch) by {
            assert(img.at(x, y, ch) as int == after_corner(i3, bl@, radii.3 as int, Corner::BottomLeft, x, y, ch));
            assert(i3.at(x, y, ch) as int == after_corner(i2, br@, radii.2 as int, Corner::BottomRight, x, y, ch));
            assert(i2.at(x, y, ch) as int == after_corner(i1, tr@, radii.1 as int, Corner::TopRight, x, y, ch));
            assert(i1.at(x, y, ch) as int == after_corner(i0, tl@, radii.0 as int, Corner::TopLeft, x, y, ch));
            assert(i3.at(x, y, 3) as int == after_corner(i2, br@, radii.2 as int, Corner::BottomRight, x, y, 3));
            assert(i2.at(x, y, 3) as int == after_corner(i1, tr@, radii.1 as int, Corner::TopRight, x, y, 3));
            assert(i1.at(x, y, 3) as int == after_corner(i0, tl@, radii.0 as int, Corner::TopLeft, x, y, 3));
        }
    }
}

/// Rounds the four corners of `img` with the given radii.
pub fn round(img: &mut PixelBuffer, radii: CornerRadii)
    requires
        old(img).wf(),
        radii_fit(radii, old(img).width as int, old(img).height as int),
    ensures
        final(img).wf(),
        final(img).width == old(img).width,
        final(img).height == old(img).height,
        forall|x: int, y: int, ch: int|
            old(img).contains(x, y) && 0 <= ch < 4 ==> #[trigger] final(img).at(x, y, ch) as int
                == rounded_channel(
                *old(img),
                seq![plan_for(radii.0 as int), plan_for(radii.1 as int), plan_for(radii.2 as int), plan_for(radii.3 as int)],
                radii_seq(radii),
                x,
                y,
                ch,
            ),
{
    let tl = if radii.0 > 0 { corner_ops(radii.0) } else { Vec::new() };
    let tr = if radii.1 > 0 { corner_ops(radii.1) } else { Vec::new() };
    let br = if radii.2 > 0 { corner_ops(radii.2) } else { Vec::new() };
    let bl = if radii.3 > 0 { corner_ops(radii.3) } else { Vec::new() };
    round_with(img, radii, &tl, &tr, &br, &bl);
}

/// The corner radius in pixels for a roundness of `percent` hundredths of a
/// percent of the shorter side, capped at half the shorter side.
pub open spec fn corner_radius(w: int, h: int, percent: int) -> int {
    let m = if w < h { w } else { h };
    let r = m * percent / 10000;
    if r > m / 2 {
        m / 2
    } else {
        r
    }
}

/// The four radii equal to `r`, as a sequence.
pub open spec fn uniform(r: int) -> Seq<int> {
    seq![r, r, r, r]
}

/// `out` is `src` with its four corners rounded by one operation list, at
/// the radius for `percent` hundredths of a percent; with a radius of zero
/// it is `src` byte for byte.
pub open spec fn is_rounding(src: PixelBuffer, out: PixelBuffer, percent: int) -> bool {
    let rad = corner_radius(src.width as int, src.height as int, percent);
    let ops = plan_for(rad);
    &&& out.wf()
    &&& out.width == src.width
    &&& out.height == src.height
    &&& rad == 0 ==> out.data@ == src.data@
    &&& forall|x: int, y: int, ch: int|
        src.contains(x, y) && 0 <= ch < 4 ==> #[trigger] out.at(x, y, ch) as int == rounded_channel(
            src,
            seq![ops, ops, ops, ops],
            uniform(rad),
            x,
            y,
            ch,
        )
}

/// The operations of a corner of radius `r`; none for radius zero.
pub open spec fn plan_for(r: int) -> Seq<CornerOp> {
    if r > 0 {
        corner_plan(r)
    } else {
        Seq::empty()
    }
}

/// Rounds all four corners of a copy of `image` with one radius:
/// `radius_percentage` hundredths of a percent of the shorter side, capped at
/// half of it. Every corner applies the same operations through its own
/// reflection; with a radius of zero the copy is returned unchanged.
pub fn round_corners(image: &PixelBuffer, radius_percentage: u32) -> (r: PixelBuffer)
    requires
        image.wf(),
    ensures
        is_rounding(*image, r, radius_percentage as int),
{
    let (width, height) = (image.width, image.height);
    let m: u64 = if width < height { width as u64 } else { height as u64 };
    assert(m * radius_percentage <= u32::MAX * u32::MAX) by (nonlinear_arith)
        requires
            m <= u32::MAX,
            radius_percentage <= u32::MAX,
    ;
    let scaled: u64 = m * (radius_percentage as u64) / 10000;
    let radius: u32 = if scaled > m / 2 { (m / 2) as u32 } else { scaled as u32 };
    let ghost rad = corner_radius(width as int, height as int, radius_percentage as int);
    assert(radius == rad);
    let mut result = image.duplicate();
    if radius == 0 {
        proof {
            let ops = Seq::<CornerOp>::empty();
            assert(plan_for(rad) == ops);
            assert forall|x: int, y: int, ch: int|
                image.contains(x, y) && 0 <= ch < 4 implies #[trigger] result.at(x, y, ch) as int
                    == rounded_channel(*image, seq![ops, ops, ops, ops], uniform(rad), x, y, ch) by {
                assert(seq![ops, ops, ops, ops][0] == ops);
                assert(seq![ops, ops, ops, ops][1] == ops);
                assert(seq![ops, ops, ops, ops][2] == ops);
                assert(seq![ops, ops, ops, ops][3] == ops);
            }
        }
        return result;
    }
    let ops = corner_ops(radius);
    round_with(&mut result, (radius, radius, radius, radius), &ops, &ops, &ops, &ops);
    proof {
        assert(radii_seq((radius, radius, radius, radius)) =~= uniform(rad));
    }
    result
}

/// The four corners are mirror images of one another: when every corner
/// applies the same operations with the same radius, the pixel at `(x, y)` of
/// the top-left box and its reflections in the top-right, bottom-right and
/// bottom-left boxes each get the same function of their own old alpha; so
/// equal old alphas give equal new ones.
pub proof fn lemma_corners_mirror(img: PixelBuffer, ops: Seq<CornerOp>, r: int, x: int, y: int)
    requires
        img.wf(),
        0 <= 2 * r <= img.width,
        2 * r <= img.height,
        0 <= x < r,
        0 <= y < r,
    ensures
        ({
            let w = img.width as int;
            let h = img.height as int;
            let all = seq![ops, ops, ops, ops];
            &&& rounded_channel(img, all, uniform(r), x, y, 3) == local_alpha(
                ops,
                x + 1,
                y + 1,
                img.at(x, y, 3) as int,
            )
            &&& rounded_channel(img, all, uniform(r), w - 1 - x, y, 3) == local_alpha(
                ops,
                x + 1,
                y + 1,
                img.at(w - 1 - x, y, 3) as int,
            )
            &&& rounded_channel(img, all, uniform(r), w - 1 - x, h - 1 - y, 3) == local_alpha(
                ops,
                x + 1,
                y + 1,
                img.at(w - 1 - x, h - 1 - y, 3) as int,
            )
            &&& rounded_channel(img, all, uniform(r), x, h - 1 - y, 3) == local_alpha(
                ops,
                x + 1,
                y + 1,
                img.at(x, h - 1 - y, 3) as int,
            )
            &&& (img.at(x, y, 3) == img.at(w - 1 - x, y, 3) == img.at(w - 1 - x, h - 1 - y, 3)
                == img.at(x, h - 1 - y, 3)) ==> rounded_channel(img, all, uniform(r), x, y, 3)
                == rounded_channel(img, all, uniform(r), w - 1 - x, y, 3) == rounded_channel(
                img,
                all,
                uniform(r),
                w - 1 - x,
                h - 1 - y,
                3,
            ) == rounded_channel(img, all, uniform(r), x, h - 1 - y, 3)
        }),
{
    let all = seq![ops, ops, ops, ops];
    assert(all[0] == ops && all[1] == ops && all[2] == ops && all[3] == ops);
    assert(uniform(r)[0] == r && uniform(r)[1] == r && uniform(r)[2] == r && uniform(r)[3] == r);
}

/// `ops` with every operation moved to the mirror of its pixel across the
/// corner's diagonal.
pub open spec fn swap_ops(ops: Seq<CornerOp>) -> Seq<CornerOp> {
    ops.map_values(|o: CornerOp| (o.1, o.0, o.2))
}

/// Some operation of `ops` is on local pixel `(i, j)`.
pub open spec fn hits(ops: Seq<CornerOp>, i: int, j: int) -> bool {
    exists|k: int| 0 <= k < ops.len() && #[trigger] ops[k].0 == i && ops[k].1 == j
}

/// Every operation of `ops` clears its pixel.
pub open spec fn all_clear(ops: Seq<CornerOp>) -> bool {
    forall|k: int| 0 <= k < ops.len() ==> #[trigger] ops[k].2 == 0
}

/// Two operation lists leave every pixel with the same alpha.
pub open spec fn same_effect(a: Seq<CornerOp>, b: Seq<CornerOp>) -> bool {
    forall|i: int, j: int, alpha: int| #[trigger] local_alpha(a, i, j, alpha) == local_alpha(b, i, j, alpha)
}

/// `ops` has the same effect as its mirror across the diagonal.
pub open spec fn mirrored(ops: Seq<CornerOp>) -> bool {
    same_effect(ops, swap_ops(ops))
}

proof fn lemma_local_alpha_concat(a: Seq<CornerOp>, b: Seq<CornerOp>, i: int, j: int, alpha: int)
    ensures
        local_alpha(a + b, i, j, alpha) == local_alpha(b, i, j, local_alpha(a, i, j, alpha)),
    decreases b.len(),
{
    if b.len() == 0 {
        assert(a + b =~= a);
    } else {
        assert((a + b).drop_last() =~= a + b.drop_last());
        assert((a + b).last() == b.last());
        lemma_local_alpha_concat(a, b.drop_last(), i, j, alpha);
    }
}

proof fn lemma_local_alpha_swap(ops: Seq<CornerOp>, i: int, j: int, alpha: int)
    ensures
        local_alpha(swap_ops(ops), i, j, alpha) == local_alpha(ops, j, i, alpha),
    decreases ops.len(),
{
    if ops.len() > 0 {
        assert(swap_ops(ops).drop_last() =~= swap_ops(ops.drop_last()));
        lemma_local_alpha_swap(ops.drop_last(), i, j, alpha);
    }
}

proof fn lemma_swap_concat(a: Seq<CornerOp>, b: Seq<CornerOp>)
    ensures
        swap_ops(a + b) == swap_ops(a) + swap_ops(b),
{
    assert(swap_ops(a + b) =~= swap_ops(a) + swap_ops(b));
}

proof fn lemma_same_effect_concat(a1: Seq<CornerOp>, a2: Seq<CornerOp>, b1: Seq<CornerOp>, b2: Seq<CornerOp>)
    requires
        same_effect(a1, a2),
        same_effect(b1, b2),
    ensures
        same_effect(a1 + b1, a2 + b2),
{
    assert forall|i: int, j: int, alpha: int| #[trigger] local_alpha(a1 + b1, i, j, alpha) == local_alpha(
        a2 + b2,
        i,
        j,
        alpha,
    ) by {
        lemma_local_alpha_concat(a1, b1, i, j, alpha);
        lemma_local_alpha_concat(a2, b2, i, j, alpha);
        assert(local_alpha(a1, i, j, alpha) == local_alpha(a2, i, j, alpha));
        assert(local_alpha(b1, i, j, local_alpha(a1, i, j, alpha)) == local_alpha(
            b2,
            i,
            j,
            local_alpha(a1, i, j, alpha),
        ));
    }
}

proof fn lemma_mirrored_concat(a: Seq<CornerOp>, b: Seq<CornerOp>)
    requires
        mirrored(a),
        mirrored(b),
    ensures
        mirrored(a + b),
{
    lemma_swap_concat(a, b);
    lemma_same_effect_concat(a, swap_ops(a), b, swap_ops(b));
}

proof fn lemma_mirrored_empty()
    ensures
        mirrored(Seq::<CornerOp>::empty()),
{
    assert(swap_ops(Seq::<CornerOp>::empty()) =~= Seq::<CornerOp>::empty());
}

/// A list of clearing operations clears exactly the pixels it reaches.
proof fn lemma_clear_effect(ops: Seq<CornerOp>, i: int, j: int, alpha: int)
    requires
        all_clear(ops),
    ensures
        local_alpha(ops, i, j, alpha) == if hits(ops, i, j) {
            0
        } else {
            alpha
        },
    decreases ops.len(),
{
    if ops.len() > 0 {
        let pre = ops.drop_last();
        assert(all_clear(pre)) by {
            assert forall|k: int| 0 <= k < pre.len() implies #[trigger] pre[k].2 == 0 by {
                assert(pre[k] == ops[k]);
            }
        }
        lemma_clear_effect(pre, i, j, alpha);
        let o = ops.last();
        assert(o.2 == ops[ops.len() - 1].2);
        if hits(pre, i, j) {
            let k = choose|k: int| 0 <= k < pre.len() && #[trigger] pre[k].0 == i && pre[k].1 == j;
            assert(ops[k] == pre[k]);
        }
        if hits(ops, i, j) && !(o.0 == i && o.1 == j) {
            let k = choose|k: int| 0 <= k < ops.len() && #[trigger] ops[k].0 == i && ops[k].1 == j;
            assert(k < pre.len());
            assert(pre[k] == ops[k]);
        }
        if o.0 == i && o.1 == j {
            assert(ops[ops.len() - 1].0 == i);
        }
    }
}

proof fn lemma_hits_swap(ops: Seq<CornerOp>, i: int, j: int)
    ensures
        hits(swap_ops(ops), i, j) == hits(ops, j, i),
{
    if hits(ops, j, i) {
        let k = choose|k: int| 0 <= k < ops.len() && #[trigger] ops[k].0 == j && ops[k].1 == i;
        assert(swap_ops(ops)[k].0 == i);
    }
    if hits(swap_ops(ops), i, j) {
        let k = choose|k: int| 0 <= k < swap_ops(ops).len() && #[trigger] swap_ops(ops)[k].0 == i && swap_ops(ops)[k].1 == j;
        assert(ops[k].0 == j);
    }
}

proof fn lemma_all_clear_swap(ops: Seq<CornerOp>)
    requires
        all_clear(ops),
    ensures
        all_clear(swap_ops(ops)),
{
    assert forall|k: int| 0 <= k < swap_ops(ops).len() implies #[trigger] swap_ops(ops)[k].2 == 0 by {
        assert(ops[k].2 == 0);
    }
}

/// Clearing operations that reach a pixel exactly when they reach its mirror
/// have the effect of their mirror.
proof fn lemma_clear_mirrored(ops: Seq<CornerOp>)
    requires
        all_clear(ops),
        forall|i: int, j: int| #[trigger] hits(ops, i, j) ==> hits(ops, j, i),
    ensures
        mirrored(ops),
{
    lemma_all_clear_swap(ops);
    assert forall|i: int, j: int, alpha: int| #[trigger] local_alpha(ops, i, j, alpha) == local_alpha(
        swap_ops(ops),
        i,
        j,
        alpha,
    ) by {
        lemma_clear_effect(ops, i, j, alpha);
        lemma_clear_effect(swap_ops(ops), i, j, alpha);
        lemma_hits_swap(ops, i, j);
        if hits(ops, j, i) {
            assert(hits(ops, i, j));
        }
    }
}

proof fn lemma_hits_concat(a: Seq<CornerOp>, b: Seq<CornerOp>, i: int, j: int)
    ensures
        hits(a + b, i, j) == (hits(a, i, j) || hits(b, i, j)),
{
    if hits(a, i, j) {
        let k = choose|k: int| 0 <= k < a.len() && #[trigger] a[k].0 == i && a[k].1 == j;
        assert((a + b)[k] == a[k]);
    }
    if hits(b, i, j) {
        let k = choose|k: int| 0 <= k < b.len() && #[trigger] b[k].0 == i && b[k].1 == j;
        assert((a + b)[a.len() + k] == b[k]);
    }
    if hits(a + b, i, j) {
        let k = choose|k: int| 0 <= k < (a + b).len() && #[trigger] (a + b)[k].0 == i && (a + b)[k].1 == j;
        if k < a.len() {
            assert((a + b)[k] == a[k]);
        } else {
            assert((a + b)[k] == b[k - a.len()]);
        }
    }
}

proof fn lemma_all_clear_concat(a: Seq<CornerOp>, b: Seq<CornerOp>)
    requires
        all_clear(a),
        all_clear(b),
    ensures
        all_clear(a + b),
{
    assert forall|k: int| 0 <= k < (a + b).len() implies #[trigger] (a + b)[k].2 == 0 by {
        if k < a.len() {
            assert((a + b)[k] == a[k]);
        } else {
            assert((a + b)[k] == b[k - a.len()]);
        }
    }
}

proof fn lemma_column_row(r0: int, cx: int, from: int)
    requires
        0 < r0 <= u32::MAX,
    ensures
        swap_ops(column_ops(r0, cx, from)) == row_ops(r0, cx, from),
        all_clear(column_ops(r0, cx, from)),
        all_clear(row_ops(r0, cx, from)),
    decreases r0 - from,
{
    if from < r0 {
        lemma_column_row(r0, cx, from + 1);
        lemma_swap_concat(op_at(r0, cx, from, 0), column_ops(r0, cx, from + 1));
        assert(swap_ops(op_at(r0, cx, from, 0)) =~= op_at(r0, from, cx, 0));
        lemma_all_clear_concat(op_at(r0, cx, from, 0), column_ops(r0, cx, from + 1));
        lemma_all_clear_concat(op_at(r0, from, cx, 0), row_ops(r0, cx, from + 1));
    } else {
        assert(swap_ops(Seq::<CornerOp>::empty()) =~= Seq::<CornerOp>::empty());
    }
}

proof fn lemma_cleared_mirrored(r0: int, cx: int, from: int)
    requires
        0 < r0 <= u32::MAX,
    ensures
        mirrored(column_ops(r0, cx, from) + row_ops(r0, cx, from)),
{
    let c = column_ops(r0, cx, from);
    let r = row_ops(r0, cx, from);
    lemma_column_row(r0, cx, from);
    lemma_all_clear_concat(c, r);
    assert forall|i: int, j: int| #[trigger] hits(c + r, i, j) implies hits(c + r, j, i) by {
        lemma_hits_concat(c, r, i, j);
        lemma_hits_concat(c, r, j, i);
        lemma_hits_swap(c, i, j);
        lemma_hits_swap(c, j, i);
    }
    lemma_clear_mirrored(c + r);
}

proof fn lemma_single_op(o: Seq<CornerOp>, i: int, j: int, alpha: int)
    requires
        o.len() == 1,
    ensures
        local_alpha(o, i, j, alpha) == if o[0].0 == i && o[0].1 == j {
            weigh_alpha(alpha, o[0].2 as int)
        } else {
            alpha
        },
{
    assert(o.drop_last() =~= Seq::<CornerOp>::empty());
    assert(local_alpha(Seq::<CornerOp>::empty(), i, j, alpha) == alpha);
    assert(o.last() == o[0]);
}

proof fn lemma_pair_mirrored(r0: int, u: int, v: int, a: int)
    requires
        0 < r0 <= u32::MAX,
    ensures
        mirrored(op_at(r0, u, v, a) + op_at(r0, v, u, a)),
{
    let p = op_at(r0, u, v, a);
    let q = op_at(r0, v, u, a);
    assert(swap_ops(p) =~= q);
    assert(swap_ops(q) =~= p);
    lemma_swap_concat(p, q);
    if p.len() == 0 {
        assert(p + q =~= Seq::<CornerOp>::empty());
        lemma_mirrored_empty();
    } else {
        assert forall|i: int, j: int, alpha: int| #[trigger] local_alpha(p + q, i, j, alpha) == local_alpha(
            q + p,
            i,
            j,
            alpha,
        ) by {
            lemma_local_alpha_concat(p, q, i, j, alpha);
            lemma_local_alpha_concat(q, p, i, j, alpha);
            assert(p.len() == 1 && q.len() == 1);
            lemma_single_op(p, i, j, alpha);
            lemma_single_op(q, i, j, alpha);
            lemma_single_op(p, i, j, local_alpha(q, i, j, alpha));
            lemma_single_op(q, i, j, local_alpha(p, i, j, alpha));
            assert(p[0] == ((r0 - u) as u32, (r0 - v) as u32, clamp_weight(a)));
            assert(q[0] == ((r0 - v) as u32, (r0 - u) as u32, clamp_weight(a)));
            if u == v {
                assert(p =~= q);
            } else {
                assert((r0 - u) as u32 != (r0 - v) as u32);
            }
        }
    }
}

proof fn lemma_sub_steps_mirrored(r0: int, t: Tracer, k: int)
    requires
        0 < r0 <= u32::MAX,
    ensures
        mirrored(sub_steps(r0, t, k).2),
    decreases 16 - k,
{
    if k >= 16 || t.0 >= t.1 {
        lemma_mirrored_empty();
    } else {
        let (n, o) = sub_step(r0, t);
        lemma_sub_steps_mirrored(r0, n, k + 1);
        let (x, y, p, alpha, skip) = t;
        if p < 0 || y % 16 != 0 {
            lemma_mirrored_empty();
        } else {
            lemma_pair_mirrored(r0, x / 16, y / 16, alpha + y % 16 + 1);
        }
        lemma_mirrored_concat(o, sub_steps(r0, n, k + 1).2);
    }
}

proof fn lemma_trace_mirrored(r0: int, t: Tracer, fuel: nat)
    requires
        0 < r0 <= u32::MAX,
    ensures
        mirrored(trace(r0, t, fuel).1),
    decreases fuel,
{
    if fuel == 0 {
        lemma_mirrored_empty();
    } else {
        let (x, y, p, alpha, skip) = t;
        let cleared = column_ops(r0, x / 16, y / 16 + 1) + row_ops(r0, x / 16, y / 16 + 1);
        let drawn = if !skip {
            op_at(r0, x / 16 - 1, y / 16, alpha) + op_at(r0, y / 16, x / 16 - 1, alpha)
        } else {
            Seq::empty()
        };
        let start = if !skip { 0 } else { alpha };
        lemma_cleared_mirrored(r0, x / 16, y / 16 + 1);
        if !skip {
            lemma_pair_mirrored(r0, x / 16 - 1, y / 16, alpha);
        } else {
            lemma_mirrored_empty();
        }
        lemma_sub_steps_mirrored(r0, (x, y, p, start, skip), 0);
        lemma_mirrored_concat(cleared, drawn);
        lemma_mirrored_concat(cleared + drawn, sub_steps(r0, (x, y, p, start, skip), 0).2);
        let (e, d, o) = column_step(r0, t);
        if !d {
            lemma_trace_mirrored(r0, e, (fuel - 1) as nat);
            lemma_mirrored_concat(o, trace(r0, e, (fuel - 1) as nat).1);
        }
    }
}

/// The local pixels the square clearing from cell `from` on reaches.
proof fn lemma_square_hits(r0: int, row: int, from: int, i: int, j: int)
    requires
        0 < r0 <= u32::MAX,
    ensures
        all_clear(square_ops(r0, row, from)),
        hits(square_ops(r0, row, from), i, j) == (1 <= i <= r0 - nonneg(row) && 1 <= j <= r0 - nonneg(
            from,
        )),
    decreases r0 - row,
{
    if row < r0 {
        lemma_square_hits(r0, row + 1, from, i, j);
        lemma_column_hits(r0, row, from, i, j);
        lemma_column_row(r0, row, from);
        lemma_all_clear_concat(column_ops(r0, row, from), square_ops(r0, row + 1, from));
        lemma_hits_concat(column_ops(r0, row, from), square_ops(r0, row + 1, from), i, j);
    } else {
        assert(all_clear(Seq::<CornerOp>::empty()));
    }
}

/// `v`, or `0` when it is negative.
pub open spec fn nonneg(v: int) -> int {
    if v < 0 {
        0
    } else {
        v
    }
}

proof fn lemma_column_hits(r0: int, cx: int, from: int, i: int, j: int)
    requires
        0 < r0 <= u32::MAX,
    ensures
        hits(column_ops(r0, cx, from), i, j) == (0 <= cx < r0 && i == r0 - cx && 1 <= j <= r0 - nonneg(
            from,
        )),
    decreases r0 - from,
{
    if from < r0 {
        lemma_column_hits(r0, cx, from + 1, i, j);
        lemma_hits_concat(op_at(r0, cx, from, 0), column_ops(r0, cx, from + 1), i, j);
        let o = op_at(r0, cx, from, 0);
        if hits(o, i, j) {
            let k = choose|k: int| 0 <= k < o.len() && #[trigger] o[k].0 == i && o[k].1 == j;
        }
        if 0 <= cx < r0 && 0 <= from && i == r0 - cx && j == r0 - from {
            assert(o.len() == 1);
            assert(o[0].0 == i && o[0].1 == j);
        }
    }
}

proof fn lemma_finish_mirrored(r0: int, t: Tracer)
    requires
        0 < r0 <= u32::MAX,
    ensures
        mirrored(corner_finish(r0, t)),
{
    let (x, y, p, alpha, skip) = t;
    let tip = if x / 16 == y / 16 {
        let a = if x == y { alpha + y % 16 + 1 } else { alpha };
        let s = y % 16 + 1;
        op_at(r0, x / 16, y / 16, 2 * a - s * s)
    } else {
        Seq::empty()
    };
    assert(swap_ops(tip) =~= tip);
    let sq = square_ops(r0, y / 16 + 1, y / 16 + 1);
    lemma_square_hits(r0, y / 16 + 1, y / 16 + 1, 0, 0);
    assert forall|i: int, j: int| #[trigger] hits(sq, i, j) implies hits(sq, j, i) by {
        lemma_square_hits(r0, y / 16 + 1, y / 16 + 1, i, j);
        lemma_square_hits(r0, y / 16 + 1, y / 16 + 1, j, i);
    }
    lemma_clear_mirrored(sq);
    lemma_mirrored_concat(tip, sq);
}

/// Each corner is symmetric across its own diagonal: the operations of a
/// corner of radius `r0` leave local pixel `(i, j)` with the same alpha as
/// they leave `(j, i)`, from the same starting alpha.
pub proof fn lemma_corner_plan_diagonal(r0: int, i: int, j: int, alpha: int)
    requires
        0 < r0 <= u32::MAX,
    ensures
        local_alpha(corner_plan(r0), i, j, alpha) == local_alpha(corner_plan(r0), j, i, alpha),
{
    let r = 16 * r0;
    let init: Tracer = (0, r - 1, 2 - r, 0, true);
    let (t, ops) = trace(r0, init, (r0 + 2) as nat);
    lemma_trace_mirrored(r0, init, (r0 + 2) as nat);
    lemma_finish_mirrored(r0, t);
    lemma_mirrored_concat(ops, corner_finish(r0, t));
    lemma_local_alpha_swap(corner_plan(r0), i, j, alpha);
    assert(local_alpha(corner_plan(r0), i, j, alpha) == local_alpha(swap_ops(corner_plan(r0)), i, j, alpha));
}

} // verus!
