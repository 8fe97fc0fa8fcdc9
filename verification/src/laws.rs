//! Algebraic laws of the grid operations, stated over the cell-set model
//! that the operations' contracts use.

use vstd::prelude::*;

use crate::bitgrid::{NewMap, bits_seq, shifted_bit, spec_count};
use crate::grid::{
    Grid, count_val, full_cells, lemma_grid_unindex, shifted_cell, lemma_count_val_take_step,
    lemma_count_val_take_all,
};
use crate::pos::Direction;

verus! {

/// Removing the cells of `b` from `a` (`eq_and_not`) leaves the same cells
/// as intersecting `a` with the complement of `b` (`invert` then `eq_and`),
/// for equally sized grids.
pub proof fn lemma_and_not_is_and_of_complement(a: Grid, b: Grid)
    requires
        a.same_dims(b),
    ensures
        a.cells().difference(b.cells()) == a.cells().intersect(
            full_cells(b.h as int, b.w as int).difference(b.cells()),
        ),
{
    assert(a.cells().difference(b.cells()) =~= a.cells().intersect(
        full_cells(b.h as int, b.w as int).difference(b.cells()),
    ));
}

/// Absorption: adding back an intersection with anything (`eq_or` after
/// `eq_and`) changes nothing.
pub proof fn lemma_or_absorption(a: Grid, b: Grid)
    ensures
        a.cells().union(a.cells().intersect(b.cells())) == a.cells(),
{
    assert(a.cells().union(a.cells().intersect(b.cells())) =~= a.cells());
}

/// Complementing twice (`invert` applied twice) restores the cells.
pub proof fn lemma_invert_involutive(a: Grid)
    ensures
        full_cells(a.h as int, a.w as int).difference(
            full_cells(a.h as int, a.w as int).difference(a.cells()),
        ) == a.cells(),
{
    assert(full_cells(a.h as int, a.w as int).difference(
        full_cells(a.h as int, a.w as int).difference(a.cells()),
    ) =~= a.cells());
}

/// The same law for the fixed-size bit grid: removing cells equals
/// intersecting with the complement.
pub proof fn lemma_bit_and_not_is_and_of_complement(a: NewMap, b: NewMap)
    ensures
        a.cells().difference(b.cells()) == a.cells().intersect(
            full_cells(15, 15).difference(b.cells()),
        ),
{
    assert(a.cells().difference(b.cells()) =~= a.cells().intersect(
        full_cells(15, 15).difference(b.cells()),
    ));
}

/// Absorption for the fixed-size bit grid.
pub proof fn lemma_bit_or_absorption(a: NewMap, b: NewMap)
    ensures
        a.cells().union(a.cells().intersect(b.cells())) == a.cells(),
{
    assert(a.cells().union(a.cells().intersect(b.cells())) =~= a.cells());
}

/// Complementing the fixed-size bit grid twice restores the cells.
pub proof fn lemma_bit_not_involutive(a: NewMap)
    ensures
        full_cells(15, 15).difference(full_cells(15, 15).difference(a.cells())) == a.cells(),
{
    assert(full_cells(15, 15).difference(full_cells(15, 15).difference(a.cells()))
        =~= a.cells());
}

/// A prefix count never shrinks as the prefix grows.
proof fn lemma_count_val_take_mono(s: Seq<bool>, v: bool, a: int, b: int)
    requires
        0 <= a <= b <= s.len(),
    ensures
        count_val(s.take(a), v) <= count_val(s.take(b), v),
    decreases b,
{
    if a < b {
        lemma_count_val_take_mono(s, v, a, b - 1);
        lemma_count_val_take_step(s, v, b - 1);
    }
}

/// Clip an index into `[0, len]`.
spec fn clamp_idx(v: int, len: int) -> int {
    if v < 0 {
        0
    } else if v > len {
        len
    } else {
        v
    }
}

proof fn lemma_count_offset_le_helper(t: Seq<bool>, s: Seq<bool>, k: int, n: int)
    requires
        0 <= n <= t.len(),
        forall|i: int| 0 <= i < t.len() && #[trigger] t[i] ==> 0 <= i + k < s.len() && s[i + k],
    ensures
        count_val(t.take(n), true) <= count_val(s.take(clamp_idx(n + k, s.len() as int)), true),
    decreases n,
{
    if n > 0 {
        lemma_count_offset_le_helper(t, s, k, n - 1);
        lemma_count_val_take_step(t, true, n - 1);
        if t[n - 1] {
            lemma_count_val_take_step(s, true, n - 1 + k);
        } else {
            lemma_count_val_take_mono(
                s,
                true,
                clamp_idx(n - 1 + k, s.len() as int),
                clamp_idx(n + k, s.len() as int),
            );
        }
    }
}

/// If every set entry of `t` has a set entry of `s` a fixed offset away,
/// `t` has no more set entries than `s`.
proof fn lemma_count_offset_le(t: Seq<bool>, s: Seq<bool>, k: int)
    requires
        forall|i: int| 0 <= i < t.len() && #[trigger] t[i] ==> 0 <= i + k < s.len() && s[i + k],
    ensures
        count_val(t, true) <= count_val(s, true),
{
    lemma_count_offset_le_helper(t, s, k, t.len() as int);
    lemma_count_val_take_all(t, true);
    lemma_count_val_take_mono(
        s,
        true,
        clamp_idx(t.len() + k, s.len() as int),
        s.len() as int,
    );
    lemma_count_val_take_all(s, true);
}

/// Shifting never creates candidates: a grid holding the one-step shift of
/// `a` (as `eq_shift` computes it) has at most as many set cells as `a`.
pub proof fn lemma_shift_never_creates(a: Grid, b: Grid, d: Direction)
    requires
        a.wf(),
        b.wf(),
        a.same_dims(b),
        forall|y: int, x: int| #[trigger] b.cell(y, x) == shifted_cell(a, d, y, x),
    ensures
        count_val(b.data@, true) <= count_val(a.data@, true),
{
    let h = a.h as int;
    let w = a.w as int;
    let k: int = match d {
        Direction::N => w,
        Direction::S => -w,
        Direction::E => -1,
        Direction::W => 1,
    };
    assert forall|i: int| 0 <= i < b.data.len() && #[trigger] b.data[i] implies 0 <= i + k
        < a.data.len() && a.data[i + k] by {
        assert(w > 0) by (nonlinear_arith)
            requires
                0 <= i < h * w,
                0 <= h,
                0 <= w,
        ;
        lemma_grid_unindex(h, w, i);
        let y = i / w;
        let x = i % w;
        assert(b.cell(y, x));
        assert(shifted_cell(a, d, y, x));
        match d {
            Direction::N => {
                assert(a.cell(y + 1, x));
                assert((y + 1) * w + x == i + w) by (nonlinear_arith)
                    requires
                        i == y * w + x,
                ;
                assert(0 <= i + k < h * w) by (nonlinear_arith)
                    requires
                        i + k == (y + 1) * w + x,
                        0 <= y + 1 < h,
                        0 <= x < w,
                ;
            },
            Direction::S => {
                assert(a.cell(y - 1, x));
                assert((y - 1) * w + x == i - w) by (nonlinear_arith)
                    requires
                        i == y * w + x,
                ;
                assert(0 <= i + k < h * w) by (nonlinear_arith)
                    requires
                        i + k == (y - 1) * w + x,
                        0 <= y - 1 < h,
                        0 <= x < w,
                ;
            },
            Direction::E => {
                assert(a.cell(y, x - 1));
                assert(y * w >= 0) by (nonlinear_arith)
                    requires
                        0 <= y,
                        0 <= w,
                ;
                assert(0 <= i + k < h * w);
            },
            Direction::W => {
                assert(a.cell(y, x + 1));
                assert(y * w + (x + 1) < h * w) by (nonlinear_arith)
                    requires
                        0 <= y < h,
                        0 <= x + 1 < w,
                ;
                assert(0 <= i + k < h * w);
            },
        }
    }
    lemma_count_offset_le(b.data@, a.data@, k);
}

/// Shifting the fixed-size bit grid one step never creates candidates
/// either: a grid holding the shift of `a` has at most as many set cells.
pub proof fn lemma_bit_shift_never_creates(a: NewMap, b: NewMap, d: Direction)
    requires
        a.wf(),
        b.wf(),
        forall|y: int, x: int| #[trigger] b.bit(y, x) == shifted_bit(a, d, 1, y, x),
    ensures
        spec_count(b, true) <= spec_count(a, true),
{
    let k: int = match d {
        Direction::N => 15,
        Direction::S => -15,
        Direction::E => -1,
        Direction::W => 1,
    };
    assert forall|i: int| 0 <= i < bits_seq(b).len() && #[trigger] bits_seq(b)[i] implies 0 <= i + k
        < bits_seq(a).len() && bits_seq(a)[i + k] by {
        crate::grid::lemma_grid_unindex(15, 15, i);
        let y = i / 15;
        let x = i % 15;
        assert(b.bit(y, x));
        assert(shifted_bit(a, d, 1, y, x));
        match d {
            Direction::N => {
                assert(a.bit(y + 1, x));
                crate::grid::lemma_grid_index(15, 15, y + 1, x);
                assert(bits_seq(a)[(y + 1) * 15 + x]);
            },
            Direction::S => {
                assert(a.bit(y - 1, x));
                crate::grid::lemma_grid_index(15, 15, y - 1, x);
                assert(bits_seq(a)[(y - 1) * 15 + x]);
            },
            Direction::E => {
                assert(a.bit(y, x - 1));
                crate::grid::lemma_grid_index(15, 15, y, x - 1);
                assert(bits_seq(a)[y * 15 + (x - 1)]);
            },
            Direction::W => {
                assert(a.bit(y, x + 1));
                crate::grid::lemma_grid_index(15, 15, y, x + 1);
                assert(bits_seq(a)[y * 15 + (x + 1)]);
            },
        }
    }
    lemma_count_offset_le(bits_seq(b), bits_seq(a), k);
}

} // verus!
