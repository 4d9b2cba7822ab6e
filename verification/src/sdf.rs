//! The SDF renderer's exact core: from a padded alpha bitmap to the two
//! squared Euclidean distance fields (outside and inside distances).
//!
//! All arithmetic is integer fixed point.  A squared distance of one pixel
//! is `SQ_UNIT` field units, so the alpha potentials
//! `max(0, 1/2 - alpha/255)^2` and `max(0, alpha/255 - 1/2)^2` are integers
//! as well, and the separable two-pass distance transform is bit-exact.
//! A caller that wants the normalized signed distances takes, per pixel,
//! `(sqrt(outer) - sqrt(inner)) / (510 * radius)` clamped to `[-1, 1]`,
//! treating `SDF_INF` as infinitely far.

use crate::bitmap::BitmapGlyph;
use crate::transform::dt;
use crate::transform::dt_cost;
use crate::transform::dt_min;
use crate::transform::dt_min_below;
use crate::transform::lemma_dt_min_attained;
use crate::transform::lemma_dt_min_bounds;
use crate::transform::lemma_dt_min_le;
use crate::transform::DT_MAX_LEN;
use crate::transform::DT_MAX_SAMPLE;
use vstd::arithmetic::div_mod::lemma_fundamental_div_mod;
use vstd::arithmetic::div_mod::lemma_fundamental_div_mod_converse;
use vstd::prelude::*;

verus! {

/// Fixed-point unit: one squared pixel is this many field units (`510^2`,
/// twice the alpha range squared, so every potential is an integer).
pub const SQ_UNIT: i64 = 260100;

/// Potential of a pixel that is perfectly outside (for the outer field) or
/// perfectly inside (for the inner field): dominates every finite cost.
pub const SDF_INF: i64 = DT_MAX_SAMPLE;

/// Outer potential of an alpha value, in field units: zero alpha is
/// perfectly outside; alpha under the 50% threshold is close to the
/// boundary; alpha at or over it counts as inside.  This is
/// `max(0, 1/2 - alpha/255)^2` square pixels, scaled by `SQ_UNIT`.
pub open spec fn outer_potential(a: u8) -> i64 {
    if a == 0 {
        SDF_INF
    } else if a < 128 {
        (((255 - 2 * (a as int)) * (255 - 2 * (a as int))) as i64)
    } else {
        0
    }
}

/// Inner potential of an alpha value, in field units: full alpha is
/// perfectly inside.  This is `max(0, alpha/255 - 1/2)^2` square pixels,
/// scaled by `SQ_UNIT`.
pub open spec fn inner_potential(a: u8) -> i64 {
    if a == 255 {
        SDF_INF
    } else if a >= 128 {
        (((2 * (a as int) - 255) * (2 * (a as int) - 255)) as i64)
    } else {
        0
    }
}

/// The outer potential grid of an alpha bitmap.
pub open spec fn outer_potentials(alpha: Seq<u8>) -> Seq<i64> {
    Seq::new(alpha.len(), |i: int| outer_potential(alpha[i]))
}

/// The inner potential grid of an alpha bitmap.
pub open spec fn inner_potentials(alpha: Seq<u8>) -> Seq<i64> {
    Seq::new(alpha.len(), |i: int| inner_potential(alpha[i]))
}

/// Cost of answering pixel `(x, y)` from the source pixel with flat
/// index `p` in a grid `bw` pixels wide: the squared Euclidean distance
/// between the two pixels, in field units, plus the source's potential.
pub open spec fn field_cost(pot: Seq<i64>, bw: int, x: int, y: int, p: int) -> int {
    SQ_UNIT * ((x - p % bw) * (x - p % bw) + (y - p / bw) * (y - p / bw)) + pot[p]
}

/// The least field cost over source pixels with flat index below `m`.
pub open spec fn field_min_below(pot: Seq<i64>, bw: int, x: int, y: int, m: int) -> int
    decreases m,
{
    if m <= 1 {
        field_cost(pot, bw, x, y, 0)
    } else {
        vstd::math::min(field_min_below(pot, bw, x, y, m - 1), field_cost(pot, bw, x, y, m - 1))
    }
}

/// The exact squared-distance field of a potential grid at pixel `(x, y)`:
/// the least cost over every source pixel.
pub open spec fn field_min(pot: Seq<i64>, bw: int, x: int, y: int) -> int {
    field_min_below(pot, bw, x, y, pot.len() as int)
}

/// The least field cost is no larger than any single field cost.
proof fn lemma_field_min_le(pot: Seq<i64>, bw: int, x: int, y: int, m: int, p: int)
    requires
        0 <= p < m,
    ensures
        field_min_below(pot, bw, x, y, m) <= field_cost(pot, bw, x, y, p),
    decreases m,
{
    if m > 1 && p < m - 1 {
        lemma_field_min_le(pot, bw, x, y, m - 1, p);
    }
}

/// The least field cost is attained by some source pixel.
proof fn lemma_field_min_attained(pot: Seq<i64>, bw: int, x: int, y: int, m: int)
    requires
        1 <= m,
    ensures
        exists|p: int|
            0 <= p < m && field_min_below(pot, bw, x, y, m) == field_cost(pot, bw, x, y, p),
    decreases m,
{
    if m == 1 {
        assert(field_min_below(pot, bw, x, y, m) == field_cost(pot, bw, x, y, 0));
    } else {
        lemma_field_min_attained(pot, bw, x, y, m - 1);
    }
}

/// Column `px` of a grid `bw` pixels wide and `bh` tall, top to bottom.
pub open spec fn column_seq(grid: Seq<i64>, bw: int, bh: int, px: int) -> Seq<i64> {
    Seq::new(bh as nat, |py: int| grid[py * bw + px])
}

/// Row `py` of a grid `bw` pixels wide, left to right.
pub open spec fn row_seq(grid: Seq<i64>, bw: int, py: int) -> Seq<i64> {
    Seq::new(bw as nat, |px: int| grid[py * bw + px])
}

/// A flat index within an upright grid decomposes into in-range pixel
/// coordinates.
proof fn lemma_flat_coords(bw: int, bh: int, p: int)
    requires
        1 <= bw,
        1 <= bh,
        0 <= p < bw * bh,
    ensures
        0 <= p % bw < bw,
        0 <= p / bw < bh,
        p == (p / bw) * bw + p % bw,
{
    lemma_fundamental_div_mod(p, bw);
    assert(0 <= p % bw < bw && 0 <= p / bw) by (nonlinear_arith)
        requires
            1 <= bw,
            0 <= p,
    ;
    assert(p / bw < bh) by (nonlinear_arith)
        requires
            1 <= bw,
            p < bw * bh,
            p == bw * (p / bw) + p % bw,
            0 <= p % bw,
    ;
    assert(p == (p / bw) * bw + p % bw) by (nonlinear_arith)
        requires
            p == bw * (p / bw) + p % bw,
    ;
}

/// In-range pixel coordinates flatten to an in-range index that decomposes
/// back into them.
proof fn lemma_coords_flat(bw: int, bh: int, x: int, y: int)
    requires
        0 <= x < bw,
        0 <= y < bh,
    ensures
        0 <= y * bw + x < bw * bh,
        (y * bw + x) % bw == x,
        (y * bw + x) / bw == y,
{
    assert(0 <= y * bw + x && y * bw + x < bw * bh && y * bw + x == y * bw + x) by (nonlinear_arith)
        requires
            0 <= x < bw,
            0 <= y < bh,
    ;
    lemma_fundamental_div_mod_converse(y * bw + x, bw, y, x);
}

/// Separability of the two-dimensional transform: running the
/// one-dimensional transform along each column and then along each row of
/// the result yields, at every pixel, the least cost over all source
/// pixels of the grid.
proof fn lemma_separable(pot: Seq<i64>, colg: Seq<i64>, bw: int, bh: int, x: int, y: int)
    requires
        1 <= bw,
        1 <= bh,
        pot.len() == bw * bh,
        colg.len() == bw * bh,
        0 <= x < bw,
        0 <= y < bh,
        forall|i: int|
            0 <= i < colg.len() ==> #[trigger] colg[i] == dt_min(
                column_seq(pot, bw, bh, i % bw),
                SQ_UNIT as int,
                i / bw,
            ),
    ensures
        dt_min(row_seq(colg, bw, y), SQ_UNIT as int, x) == field_min(pot, bw, x, y),
{
    let s = SQ_UNIT as int;
    let row = row_seq(colg, bw, y);
    let nested = dt_min(row, s, x);
    let joint = field_min(pot, bw, x, y);
    assert(1 <= bw * bh) by (nonlinear_arith)
        requires
            1 <= bw,
            1 <= bh,
    ;

    // The nested minimum is at most the joint one: take the joint
    // minimizer apart into its column and row and follow it through both
    // passes.
    assert(nested <= joint) by {
        lemma_field_min_attained(pot, bw, x, y, (bw * bh) as int);
        let p0 = choose|p: int|
            0 <= p < bw * bh && field_min_below(pot, bw, x, y, (bw * bh) as int) == field_cost(
                pot,
                bw,
                x,
                y,
                p,
            );
        lemma_flat_coords(bw, bh, p0);
        let px = p0 % bw;
        let py = p0 / bw;
        lemma_dt_min_le(row, s, x, bw, px);
        assert(dt_cost(row, s, x, px) == s * (x - px) * (x - px) + colg[y * bw + px]);
        lemma_coords_flat(bw, bh, px, y);
        let col = column_seq(pot, bw, bh, px);
        assert(colg[y * bw + px] == dt_min(col, s, y));
        lemma_dt_min_le(col, s, y, bh, py);
        assert(dt_cost(col, s, y, py) == s * (y - py) * (y - py) + pot[py * bw + px]);
        assert(pot[py * bw + px] == pot[p0]);
        assert(s * (x - px) * (x - px) + (s * (y - py) * (y - py) + pot[p0]) == s * ((x - px) * (x
            - px) + (y - py) * (y - py)) + pot[p0]) by (nonlinear_arith);
    }

    // The joint minimum is at most the nested one: the nested minimizers
    // of the row pass and then the column pass name a source pixel.
    assert(joint <= nested) by {
        lemma_dt_min_attained(row, s, x, bw);
        let px = choose|p: int| 0 <= p < bw && dt_min_below(row, s, x, bw) == dt_cost(row, s, x, p);
        lemma_coords_flat(bw, bh, px, y);
        let col = column_seq(pot, bw, bh, px);
        assert(colg[y * bw + px] == dt_min(col, s, y));
        lemma_dt_min_attained(col, s, y, bh);
        let py = choose|p: int| 0 <= p < bh && dt_min_below(col, s, y, bh) == dt_cost(col, s, y, p);
        let p1 = py * bw + px;
        lemma_coords_flat(bw, bh, px, py);
        assert(0 <= p1 < bw * bh && p1 % bw == px && p1 / bw == py) by {
            assert(0 <= py * bw + px < bw * bh && (py * bw + px) % bw == px && (py * bw + px) / bw
                == py) by {
                lemma_coords_flat(bw, bh, px, py);
            }
        }
        lemma_field_min_le(pot, bw, x, y, (bw * bh) as int, p1);
        assert(dt_cost(col, s, y, py) == s * (y - py) * (y - py) + pot[p1]);
        assert(dt_cost(row, s, x, px) == s * (x - px) * (x - px) + colg[y * bw + px]);
        assert(s * (x - px) * (x - px) + (s * (y - py) * (y - py) + pot[p1]) == s * ((x - px) * (x
            - px) + (y - py) * (y - py)) + pot[p1]) by (nonlinear_arith);
    }
}

/// A potential grid: every value between zero and the "perfectly outside"
/// potential.
pub open spec fn grid_ok(grid: Seq<i64>) -> bool {
    forall|i: int| 0 <= i < grid.len() ==> 0 <= #[trigger] grid[i] <= DT_MAX_SAMPLE
}

/// Runs the one-dimensional transform down every column of the grid.
fn transform_columns(grid: &Vec<i64>, bw: usize, bh: usize) -> (r: Vec<i64>)
    requires
        grid@.len() == bw * bh,
        1 <= bw <= DT_MAX_LEN,
        1 <= bh <= DT_MAX_LEN,
        grid_ok(grid@),
    ensures
        r@.len() == grid@.len(),
        forall|i: int|
            0 <= i < r@.len() ==> #[trigger] r@[i] == dt_min(
                column_seq(grid@, bw as int, bh as int, i % (bw as int)),
                SQ_UNIT as int,
                i / (bw as int),
            ),
{
    let n = grid.len();
    let ghost gs = grid@;
    let ghost bwi = bw as int;
    let ghost bhi = bh as int;
    let mut out: Vec<i64> = vec![0i64; n];
    let mut px: usize = 0;
    while px < bw
        invariant
            gs == grid@,
            n == gs.len(),
            n == bw * bh,
            bwi == bw as int,
            bhi == bh as int,
            1 <= bw <= DT_MAX_LEN,
            1 <= bh <= DT_MAX_LEN,
            grid_ok(gs),
            px <= bw,
            out@.len() == n,
            forall|i: int|
                0 <= i < n && i % bwi < px ==> #[trigger] out@[i] == dt_min(
                    column_seq(gs, bwi, bhi, i % bwi),
                    SQ_UNIT as int,
                    i / bwi,
                ),
        decreases bw - px,
    {
        let mut col: Vec<i64> = Vec::new();
        let mut py: usize = 0;
        while py < bh
            invariant
                gs == grid@,
                n == gs.len(),
                n == bw * bh,
                bwi == bw as int,
                bhi == bh as int,
                1 <= bw <= DT_MAX_LEN,
                1 <= bh <= DT_MAX_LEN,
                px < bw,
                py <= bh,
                col@.len() == py,
                forall|t: int| 0 <= t < py ==> #[trigger] col@[t] == gs[t * bwi + px],
            decreases bh - py,
        {
            proof {
                lemma_coords_flat(bwi, bhi, px as int, py as int);
            }
            col.push(grid[py * bw + px]);
            py = py + 1;
        }
        proof {
            assert(col@ =~= column_seq(gs, bwi, bhi, px as int));
            assert forall|t: int| 0 <= t < col@.len() implies 0 <= #[trigger] col@[t]
                <= DT_MAX_SAMPLE by {
                lemma_coords_flat(bwi, bhi, px as int, t);
            }
        }
        let res = dt(&col, SQ_UNIT);
        let mut py: usize = 0;
        while py < bh
            invariant
                n == bw * bh,
                bwi == bw as int,
                bhi == bh as int,
                1 <= bw <= DT_MAX_LEN,
                1 <= bh <= DT_MAX_LEN,
                px < bw,
                py <= bh,
                out@.len() == n,
                res@.len() == bh,
                forall|t: int|
                    0 <= t < bh ==> #[trigger] res@[t] == dt_min(
                        column_seq(gs, bwi, bhi, px as int),
                        SQ_UNIT as int,
                        t,
                    ),
                forall|i: int|
                    0 <= i < n && (i % bwi < px || (i % bwi == px && i / bwi < py))
                        ==> #[trigger] out@[i] == dt_min(
                        column_seq(gs, bwi, bhi, i % bwi),
                        SQ_UNIT as int,
                        i / bwi,
                    ),
            decreases bh - py,
        {
            proof {
                lemma_coords_flat(bwi, bhi, px as int, py as int);
            }
            let ghost prev = out@;
            out.set(py * bw + px, res[py]);
            proof {
                let idx = py as int * bwi + px as int;
                assert forall|i: int|
                    0 <= i < n && (i % bwi < px || (i % bwi == px && i / bwi < py + 1)) implies #[trigger] out@[i]
                    == dt_min(column_seq(gs, bwi, bhi, i % bwi), SQ_UNIT as int, i / bwi) by {
                    lemma_flat_coords(bwi, bhi, i);
                    if i == idx {
                        assert(i % bwi == px && i / bwi == py) by {
                            lemma_coords_flat(bwi, bhi, px as int, py as int);
                        }
                    } else {
                        assert(prev[i] == out@[i]);
                        assert(!(i % bwi == px && i / bwi == py)) by {
                            if i % bwi == px && i / bwi == py {
                                assert(i == (i / bwi) * bwi + i % bwi);
                            }
                        }
                    }
                }
            }
            py = py + 1;
        }
        proof {
            assert forall|i: int| 0 <= i < n && i % bwi < px + 1 implies #[trigger] out@[i]
                == dt_min(column_seq(gs, bwi, bhi, i % bwi), SQ_UNIT as int, i / bwi) by {
                lemma_flat_coords(bwi, bhi, i);
            }
        }
        px = px + 1;
    }
    out
}

/// Runs the one-dimensional transform along every row of the grid.
fn transform_rows(grid: &Vec<i64>, bw: usize, bh: usize) -> (r: Vec<i64>)
    requires
        grid@.len() == bw * bh,
        1 <= bw <= DT_MAX_LEN,
        1 <= bh <= DT_MAX_LEN,
        grid_ok(grid@),
    ensures
        r@.len() == grid@.len(),
        forall|i: int|
            0 <= i < r@.len() ==> #[trigger] r@[i] == dt_min(
                row_seq(grid@, bw as int, i / (bw as int)),
                SQ_UNIT as int,
                i % (bw as int),
            ),
{
    let n = grid.len();
    let ghost gs = grid@;
    let ghost bwi = bw as int;
    let ghost bhi = bh as int;
    let mut out: Vec<i64> = vec![0i64; n];
    let mut py: usize = 0;
    while py < bh
        invariant
            gs == grid@,
            n == gs.len(),
            n == bw * bh,
            bwi == bw as int,
            bhi == bh as int,
            1 <= bw <= DT_MAX_LEN,
            1 <= bh <= DT_MAX_LEN,
            grid_ok(gs),
            py <= bh,
            out@.len() == n,
            forall|i: int|
                0 <= i < n && i / bwi < py ==> #[trigger] out@[i] == dt_min(
                    row_seq(gs, bwi, i / bwi),
                    SQ_UNIT as int,
                    i % bwi,
                ),
        decreases bh - py,
    {
        let mut row: Vec<i64> = Vec::new();
        let mut px: usize = 0;
        while px < bw
            invariant
                gs == grid@,
                n == gs.len(),
                n == bw * bh,
                bwi == bw as int,
                bhi == bh as int,
                1 <= bw <= DT_MAX_LEN,
                1 <= bh <= DT_MAX_LEN,
                py < bh,
                px <= bw,
                row@.len() == px,
                forall|t: int| 0 <= t < px ==> #[trigger] row@[t] == gs[py * bwi + t],
            decreases bw - px,
        {
            proof {
                lemma_coords_flat(bwi, bhi, px as int, py as int);
            }
            row.push(grid[py * bw + px]);
            px = px + 1;
        }
        proof {
            assert(row@ =~= row_seq(gs, bwi, py as int));
            assert forall|t: int| 0 <= t < row@.len() implies 0 <= #[trigger] row@[t]
                <= DT_MAX_SAMPLE by {
                lemma_coords_flat(bwi, bhi, t, py as int);
            }
        }
        let res = dt(&row, SQ_UNIT);
        let mut px: usize = 0;
        while px < bw
            invariant
                n == bw * bh,
                bwi == bw as int,
                bhi == bh as int,
                1 <= bw <= DT_MAX_LEN,
                1 <= bh <= DT_MAX_LEN,
                py < bh,
                px <= bw,
                out@.len() == n,
                res@.len() == bw,
                forall|t: int|
                    0 <= t < bw ==> #[trigger] res@[t] == dt_min(
                        row_seq(gs, bwi, py as int),
                        SQ_UNIT as int,
                        t,
                    ),
                forall|i: int|
                    0 <= i < n && (i / bwi < py || (i / bwi == py && i % bwi < px))
                        ==> #[trigger] out@[i] == dt_min(
                        row_seq(gs, bwi, i / bwi),
                        SQ_UNIT as int,
                        i % bwi,
                    ),
            decreases bw - px,
        {
            proof {
                lemma_coords_flat(bwi, bhi, px as int, py as int);
            }
            let ghost prev = out@;
            out.set(py * bw + px, res[px]);
            proof {
                let idx = py as int * bwi + px as int;
                assert forall|i: int|
                    0 <= i < n && (i / bwi < py || (i / bwi == py && i % bwi < px + 1)) implies #[trigger] out@[i]
                    == dt_min(row_seq(gs, bwi, i / bwi), SQ_UNIT as int, i % bwi) by {
                    lemma_flat_coords(bwi, bhi, i);
                    if i == idx {
                        assert(i % bwi == px && i / bwi == py) by {
                            lemma_coords_flat(bwi, bhi, px as int, py as int);
                        }
                    } else {
                        assert(prev[i] == out@[i]);
                        assert(!(i % bwi == px && i / bwi == py)) by {
                            if i % bwi == px && i / bwi == py {
                                assert(i == (i / bwi) * bwi + i % bwi);
                            }
                        }
                    }
                }
            }
            px = px + 1;
        }
        proof {
            assert forall|i: int| 0 <= i < n && i / bwi < py + 1 implies #[trigger] out@[i]
                == dt_min(row_seq(gs, bwi, i / bwi), SQ_UNIT as int, i % bwi) by {
                lemma_flat_coords(bwi, bhi, i);
            }
        }
        py = py + 1;
    }
    proof {
        assert forall|i: int| 0 <= i < n implies #[trigger] out@[i] == dt_min(
            row_seq(gs, bwi, i / bwi),
            SQ_UNIT as int,
            i % bwi,
        ) by {
            lemma_flat_coords(bwi, bhi, i);
        }
    }
    out
}

/// Both potentials of an alpha value lie within the sample range of the
/// transform.
proof fn lemma_potential_bounds(a: u8)
    ensures
        0 <= outer_potential(a) <= DT_MAX_SAMPLE,
        0 <= inner_potential(a) <= DT_MAX_SAMPLE,
{
    assert(0 <= (255 - 2 * (a as int)) * (255 - 2 * (a as int)) < 0x10000 && 0 <= (2 * (a as int)
        - 255) * (2 * (a as int) - 255) < 0x10000) by (nonlinear_arith)
        requires
            0 <= a < 256,
    ;
}

/// Computes the outer potential of one alpha value.
fn outer_pot(a: u8) -> (r: i64)
    ensures
        r == outer_potential(a),
        0 <= r <= DT_MAX_SAMPLE,
{
    if a == 0 {
        SDF_INF
    } else if a < 128 {
        let d = 255i64 - 2 * (a as i64);
        proof {
            assert(0 <= (255 - 2 * (a as int)) * (255 - 2 * (a as int)) < 0x10000) by (
            nonlinear_arith)
                requires
                    1 <= a < 128,
            ;
        }
        d * d
    } else {
        0
    }
}

/// Computes the inner potential of one alpha value.
fn inner_pot(a: u8) -> (r: i64)
    ensures
        r == inner_potential(a),
        0 <= r <= DT_MAX_SAMPLE,
{
    if a == 255 {
        SDF_INF
    } else if a >= 128 {
        let d = 2 * (a as i64) - 255i64;
        proof {
            assert(0 <= (2 * (a as int) - 255) * (2 * (a as int) - 255) < 0x10000) by (
            nonlinear_arith)
                requires
                    128 <= a < 255,
            ;
        }
        d * d
    } else {
        0
    }
}

impl BitmapGlyph {
    /// Renders the two exact squared-distance fields of the bitmap: the
    /// value at flat index `i` of the first (second) field is the least,
    /// over all padded pixels `p`, of the squared distance from pixel `i`
    /// to `p` in field units plus the outer (inner) potential of `p`.
    ///
    /// A degenerate bitmap with no pixels yields two empty fields.
    pub fn render_sdf_fields(&self) -> (r: (Vec<i64>, Vec<i64>))
        requires
            self.wf(),
            self.spec_width() + 2 * self.spec_buffer() <= DT_MAX_LEN,
            self.spec_height() + 2 * self.spec_buffer() <= DT_MAX_LEN,
        ensures
            r.0@.len() == self.spec_alpha().len(),
            r.1@.len() == self.spec_alpha().len(),
            forall|i: int|
                0 <= i < self.spec_alpha().len() ==> #[trigger] r.0@[i] == field_min(
                    outer_potentials(self.spec_alpha()),
                    self.spec_width() + 2 * self.spec_buffer(),
                    i % (self.spec_width() + 2 * self.spec_buffer()),
                    i / (self.spec_width() + 2 * self.spec_buffer()),
                ),
            forall|i: int|
                0 <= i < self.spec_alpha().len() ==> #[trigger] r.1@[i] == field_min(
                    inner_potentials(self.spec_alpha()),
                    self.spec_width() + 2 * self.spec_buffer(),
                    i % (self.spec_width() + 2 * self.spec_buffer()),
                    i / (self.spec_width() + 2 * self.spec_buffer()),
                ),
    {
        proof {
            self.lemma_views();
        }
        let n = self.alpha.len();
        if n == 0 {
            return (Vec::new(), Vec::new());
        }
        let bw = self.width + 2 * self.buffer;
        let bh = self.height + 2 * self.buffer;
        proof {
            assert(1 <= bw && 1 <= bh) by (nonlinear_arith)
                requires
                    n == bw * bh,
                    n >= 1,
                    bw >= 0,
                    bh >= 0,
            ;
        }
        let ghost alpha = self.spec_alpha();
        let ghost bwi = bw as int;
        let ghost bhi = bh as int;

        let mut outer: Vec<i64> = Vec::new();
        let mut inner: Vec<i64> = Vec::new();
        let mut i: usize = 0;
        while i < n
            invariant
                alpha == self.alpha@,
                n == alpha.len(),
                i <= n,
                outer@.len() == i,
                inner@.len() == i,
                forall|t: int| 0 <= t < i ==> #[trigger] outer@[t] == outer_potential(alpha[t]),
                forall|t: int| 0 <= t < i ==> #[trigger] inner@[t] == inner_potential(alpha[t]),
            decreases n - i,
        {
            let a = self.alpha[i];
            outer.push(outer_pot(a));
            inner.push(inner_pot(a));
            i = i + 1;
        }
        proof {
            assert(outer@ =~= outer_potentials(alpha));
            assert(inner@ =~= inner_potentials(alpha));
            assert forall|t: int| 0 <= t < n implies 0 <= #[trigger] outer@[t] <= DT_MAX_SAMPLE by {
                assert(outer@[t] == outer_potential(alpha[t]));
                lemma_potential_bounds(alpha[t]);
            }
            assert forall|t: int| 0 <= t < n implies 0 <= #[trigger] inner@[t] <= DT_MAX_SAMPLE by {
                assert(inner@[t] == inner_potential(alpha[t]));
                lemma_potential_bounds(alpha[t]);
            }
        }

        let outer_cols = transform_columns(&outer, bw, bh);
        let inner_cols = transform_columns(&inner, bw, bh);
        proof {
            lemma_column_pass_ok(outer@, outer_cols@, bwi, bhi);
            lemma_column_pass_ok(inner@, inner_cols@, bwi, bhi);
        }
        let outer_field = transform_rows(&outer_cols, bw, bh);
        let inner_field = transform_rows(&inner_cols, bw, bh);
        proof {
            assert forall|t: int| 0 <= t < n implies #[trigger] outer_field@[t] == field_min(
                outer_potentials(alpha),
                bwi,
                t % bwi,
                t / bwi,
            ) by {
                lemma_flat_coords(bwi, bhi, t);
                lemma_separable(outer@, outer_cols@, bwi, bhi, t % bwi, t / bwi);
            }
            assert forall|t: int| 0 <= t < n implies #[trigger] inner_field@[t] == field_min(
                inner_potentials(alpha),
                bwi,
                t % bwi,
                t / bwi,
            ) by {
                lemma_flat_coords(bwi, bhi, t);
                lemma_separable(inner@, inner_cols@, bwi, bhi, t % bwi, t / bwi);
            }
        }
        (outer_field, inner_field)
    }
}

/// Both rendered fields stay within `[0, SDF_INF]` at every pixel, so the
/// normalized distance a caller derives is always defined and lands in
/// the clamp range.
pub proof fn lemma_field_bounds(alpha: Seq<u8>, bw: int, bh: int, x: int, y: int)
    requires
        alpha.len() == bw * bh,
        1 <= bw,
        1 <= bh,
        0 <= x < bw,
        0 <= y < bh,
    ensures
        0 <= field_min(outer_potentials(alpha), bw, x, y) <= SDF_INF,
        0 <= field_min(inner_potentials(alpha), bw, x, y) <= SDF_INF,
{
    let outer = outer_potentials(alpha);
    let inner = inner_potentials(alpha);
    let n = alpha.len() as int;
    lemma_coords_flat(bw, bh, x, y);
    let p = y * bw + x;
    lemma_potential_bounds(alpha[p]);
    assert(field_cost(outer, bw, x, y, p) <= SDF_INF && field_cost(inner, bw, x, y, p) <= SDF_INF);
    lemma_field_min_le(outer, bw, x, y, n, p);
    lemma_field_min_le(inner, bw, x, y, n, p);
    lemma_field_min_attained(outer, bw, x, y, n);
    lemma_field_min_attained(inner, bw, x, y, n);
    let po = choose|q: int|
        0 <= q < n && field_min_below(outer, bw, x, y, n) == field_cost(outer, bw, x, y, q);
    let pi = choose|q: int|
        0 <= q < n && field_min_below(inner, bw, x, y, n) == field_cost(inner, bw, x, y, q);
    lemma_potential_bounds(alpha[po]);
    lemma_potential_bounds(alpha[pi]);
    assert(SQ_UNIT * ((x - po % bw) * (x - po % bw) + (y - po / bw) * (y - po / bw)) >= 0 && SQ_UNIT
        * ((x - pi % bw) * (x - pi % bw) + (y - pi / bw) * (y - pi / bw)) >= 0) by (nonlinear_arith)
        requires
            SQ_UNIT > 0,
    ;
}

/// An entirely transparent padded bitmap is everywhere perfectly outside:
/// at every pixel the outer field holds the infinite potential and the
/// inner field holds zero, so the normalized signed distance a caller
/// derives is the positive clamp at every pixel.
pub proof fn lemma_transparent_fields(alpha: Seq<u8>, bw: int, bh: int, x: int, y: int)
    requires
        alpha.len() == bw * bh,
        1 <= bw,
        1 <= bh,
        0 <= x < bw,
        0 <= y < bh,
        forall|i: int| 0 <= i < alpha.len() ==> #[trigger] alpha[i] == 0,
    ensures
        field_min(outer_potentials(alpha), bw, x, y) == SDF_INF,
        field_min(inner_potentials(alpha), bw, x, y) == 0,
{
    let outer = outer_potentials(alpha);
    let inner = inner_potentials(alpha);
    let n = alpha.len() as int;
    lemma_coords_flat(bw, bh, x, y);
    let p = y * bw + x;
    assert(field_cost(outer, bw, x, y, p) == SDF_INF && field_cost(inner, bw, x, y, p) == 0) by {
        assert(outer[p] == SDF_INF && inner[p] == 0);
    }
    lemma_field_min_le(outer, bw, x, y, n, p);
    lemma_field_min_le(inner, bw, x, y, n, p);
    lemma_field_min_attained(outer, bw, x, y, n);
    lemma_field_min_attained(inner, bw, x, y, n);
    let po = choose|q: int|
        0 <= q < n && field_min_below(outer, bw, x, y, n) == field_cost(outer, bw, x, y, q);
    let pi = choose|q: int|
        0 <= q < n && field_min_below(inner, bw, x, y, n) == field_cost(inner, bw, x, y, q);
    assert(SQ_UNIT * ((x - po % bw) * (x - po % bw) + (y - po / bw) * (y - po / bw)) >= 0 && SQ_UNIT
        * ((x - pi % bw) * (x - pi % bw) + (y - pi / bw) * (y - pi / bw)) >= 0) by (nonlinear_arith)
        requires
            SQ_UNIT > 0,
    ;
    assert(outer[po] == SDF_INF && inner[pi] == 0);
}

/// The output of a column pass is itself a valid potential grid.
proof fn lemma_column_pass_ok(pot: Seq<i64>, colg: Seq<i64>, bw: int, bh: int)
    requires
        1 <= bw,
        1 <= bh,
        pot.len() == bw * bh,
        colg.len() == bw * bh,
        grid_ok(pot),
        forall|i: int|
            0 <= i < colg.len() ==> #[trigger] colg[i] == dt_min(
                column_seq(pot, bw, bh, i % bw),
                SQ_UNIT as int,
                i / bw,
            ),
    ensures
        grid_ok(colg),
{
    assert forall|i: int| 0 <= i < colg.len() implies 0 <= #[trigger] colg[i] <= DT_MAX_SAMPLE by {
        lemma_flat_coords(bw, bh, i);
        let col = column_seq(pot, bw, bh, i % bw);
        assert forall|t: int| 0 <= t < col.len() implies 0 <= #[trigger] col[t] by {
            lemma_coords_flat(bw, bh, i % bw, t);
        }
        lemma_dt_min_bounds(col, SQ_UNIT as int, i / bw);
        assert(col[i / bw] == pot[(i / bw) * bw + i % bw]) by {
            lemma_coords_flat(bw, bh, i % bw, i / bw);
        }
    }
}

} // verus!
