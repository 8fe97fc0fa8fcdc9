//! A boolean grid of arbitrary size, stored row-major, with the set algebra
//! the belief engine needs: intersect, union, complement, restrict, shift,
//! population counts and first-match search.

use vstd::prelude::*;

use crate::pos::{Direction, Pos, manhattan};

verus! {

/// A boolean function over the cells of an `h` by `w` map, stored row-major.
/// What `true` means is the caller's choice; the obstacle map holds `true`
/// for land, a candidate area holds `true` for cells not yet ruled out.
#[derive(Debug)]
pub struct Grid {
    pub h: usize,
    pub w: usize,
    pub data: Vec<bool>,
}

/// Number of entries of `s` equal to `v`.
pub open spec fn count_val(s: Seq<bool>, v: bool) -> nat
    decreases s.len(),
{
    if s.len() == 0 {
        0
    } else {
        count_val(s.drop_last(), v) + (if s.last() == v {
            1nat
        } else {
            0nat
        })
    }
}

/// `count_val` of a prefix grows by at most the one entry looked at.
pub proof fn lemma_count_val_take_step(s: Seq<bool>, v: bool, i: int)
    requires
        0 <= i < s.len(),
    ensures
        count_val(s.take(i + 1), v) == count_val(s.take(i), v) + (if s[i] == v {
            1nat
        } else {
            0nat
        }),
{
    assert(s.take(i + 1).drop_last() =~= s.take(i));
    assert(s.take(i + 1).last() == s[i]);
}

/// A full take equals the sequence itself.
pub proof fn lemma_count_val_take_all(s: Seq<bool>, v: bool)
    ensures
        count_val(s.take(s.len() as int), v) == count_val(s, v),
{
    assert(s.take(s.len() as int) =~= s);
}

impl Grid {
    /// The stored vector covers exactly the `h * w` cells.
    pub open spec fn wf(self) -> bool {
        self.data.len() == self.h * self.w
    }

    /// Whether `(y, x)` lies on the map.
    pub open spec fn in_bounds(self, y: int, x: int) -> bool {
        0 <= y < self.h && 0 <= x < self.w
    }

    /// The value of cell `(y, x)`; `false` off the map.
    pub open spec fn cell(self, y: int, x: int) -> bool {
        self.in_bounds(y, x) && self.data[y * self.w + x]
    }

    /// Same height and width.
    pub open spec fn same_dims(self, other: Grid) -> bool {
        self.h == other.h && self.w == other.w
    }

    /// The set of cells holding `true`.
    pub open spec fn cells(self) -> Set<(int, int)> {
        Set::new(|p: (int, int)| self.cell(p.0, p.1))
    }
}

/// Every cell of an `h` by `w` map.
pub open spec fn full_cells(h: int, w: int) -> Set<(int, int)> {
    Set::new(|p: (int, int)| 0 <= p.0 < h && 0 <= p.1 < w)
}

/// A cell's row-major index lies within the data of a well-formed grid.
pub proof fn lemma_grid_index(h: int, w: int, y: int, x: int)
    requires
        0 <= y < h,
        0 <= x < w,
    ensures
        0 <= y * w + x < h * w,
        x == (y * w + x) % w,
        y == (y * w + x) / w,
{
    assert(0 <= y * w + x < h * w) by (nonlinear_arith)
        requires
            0 <= y < h,
            0 <= x < w,
    ;
    assert(x == (y * w + x) % w && y == (y * w + x) / w) by (nonlinear_arith)
        requires
            0 <= y,
            0 <= x < w,
    ;
}

/// Row-major indexing is injective: distinct cells use distinct entries.
pub proof fn lemma_grid_index_inj(w: int, y1: int, x1: int, y2: int, x2: int)
    requires
        0 <= x1 < w,
        0 <= x2 < w,
        0 <= y1,
        0 <= y2,
        y1 * w + x1 == y2 * w + x2,
    ensures
        y1 == y2 && x1 == x2,
{
    assert(y1 == y2 && x1 == x2) by (nonlinear_arith)
        requires
            0 <= x1 < w,
            0 <= x2 < w,
            0 <= y1,
            0 <= y2,
            y1 * w + x1 == y2 * w + x2,
    ;
}

/// A data index of a well-formed grid names the cell `(i / w, i % w)`.
pub proof fn lemma_grid_unindex(h: int, w: int, i: int)
    requires
        0 < w,
        0 <= i < h * w,
    ensures
        0 <= i / w < h,
        0 <= i % w < w,
        i == (i / w) * w + i % w,
{
    assert(0 <= i / w < h && 0 <= i % w < w && i == (i / w) * w + i % w) by (nonlinear_arith)
        requires
            0 < w,
            0 <= i < h * w,
    ;
}

impl Grid {
    /// A fresh all-`false` grid of the given size.
    pub fn new(h: usize, w: usize) -> (r: Grid)
        requires
            h * w <= usize::MAX,
        ensures
            r.wf(),
            r.h == h,
            r.w == w,
            forall|y: int, x: int| !(#[trigger] r.cell(y, x)),
            forall|i: int| 0 <= i < r.data.len() ==> !(#[trigger] r.data[i]),
    {
        let data: Vec<bool> = vec![false; h * w];
        let r = Grid { h, w, data };
        proof {
            assert forall|y: int, x: int| !(#[trigger] r.cell(y, x)) by {
                if r.in_bounds(y, x) {
                    lemma_grid_index(h as int, w as int, y, x);
                }
            }
        }
        r
    }

    /// Write one cell.
    pub fn set(&mut self, y: usize, x: usize, value: bool)
        requires
            old(self).wf(),
            old(self).in_bounds(y as int, x as int),
        ensures
            final(self).wf(),
            final(self).same_dims(*old(self)),
            final(self).cell(y as int, x as int) == value,
            final(self).data@ == old(self).data@.update(y * old(self).w + x, value),
            forall|yy: int, xx: int|
                (yy, xx) != (y as int, x as int) ==> #[trigger] final(self).cell(yy, xx) == old(
                    self,
                ).cell(yy, xx),
    {
        proof {
            lemma_grid_index(self.h as int, self.w as int, y as int, x as int);
        }
        let i: usize = y * self.w + x;
        self.data[i] = value;
        proof {
            assert forall|yy: int, xx: int| (yy, xx) != (y as int, x as int) implies #[trigger] self
                .cell(yy, xx) == old(self).cell(yy, xx) by {
                if old(self).in_bounds(yy, xx) {
                    lemma_grid_index(self.h as int, self.w as int, yy, xx);
                    if yy * self.w + xx == y * self.w + x {
                        lemma_grid_index_inj(self.w as int, yy, xx, y as int, x as int);
                    }
                }
            }
        }
    }

    /// Read one cell.
    pub fn get(&self, y: usize, x: usize) -> (r: bool)
        requires
            self.wf(),
            self.in_bounds(y as int, x as int),
        ensures
            r == self.cell(y as int, x as int),
    {
        proof {
            lemma_grid_index(self.h as int, self.w as int, y as int, x as int);
        }
        self.data[y * self.w + x]
    }

    /// Overwrite this grid with the content of an equally sized one.
    pub fn copy_from(&mut self, map: &Grid)
        requires
            old(self).wf(),
            map.wf(),
            old(self).same_dims(*map),
        ensures
            final(self).wf(),
            final(self).same_dims(*old(self)),
            forall|y: int, x: int| #[trigger] final(self).cell(y, x) == map.cell(y, x),
    {
        let n: usize = self.data.len();
        let mut i: usize = 0;
        while i < n
            invariant
                self.wf(),
                self.same_dims(*old(self)),
                self.same_dims(*map),
                map.wf(),
                n == self.data.len(),
                i <= n,
                forall|j: int| 0 <= j < i ==> self.data[j] == map.data[j],
            decreases n - i,
        {
            let v: bool = map.data[i];
            self.data[i] = v;
            i = i + 1;
        }
        proof {
            assert forall|y: int, x: int| #[trigger] self.cell(y, x) == map.cell(y, x) by {
                if map.in_bounds(y, x) {
                    lemma_grid_index(map.h as int, map.w as int, y, x);
                }
            }
        }
    }
}

impl Grid {
    /// Remove from this grid every cell set in `map`: `self := self and not map`.
    pub fn eq_and_not(&mut self, map: &Grid)
        requires
            old(self).wf(),
            map.wf(),
            old(self).same_dims(*map),
        ensures
            final(self).wf(),
            final(self).same_dims(*old(self)),
            forall|y: int, x: int|
                #[trigger] final(self).cell(y, x) == (old(self).cell(y, x) && !map.cell(y, x)),
            final(self).cells() == old(self).cells().difference(map.cells()),
    {
        let n: usize = self.data.len();
        let ghost orig = *self;
        let mut i: usize = 0;
        while i < n
            invariant
                self.wf(),
                self.same_dims(*old(self)),
                self.same_dims(*map),
                map.wf(),
                n == self.data.len(),
                i <= n,
                forall|j: int| 0 <= j < i ==> self.data[j] == (orig.data[j] && !map.data[j]),
                forall|j: int| i <= j < n ==> self.data[j] == orig.data[j],
            decreases n - i,
        {
            let v: bool = self.data[i] && !map.data[i];
            self.data[i] = v;
            i = i + 1;
        }
        proof {
            assert forall|y: int, x: int| #[trigger] self.cell(y, x) == (old(self).cell(y, x)
                && !map.cell(y, x)) by {
                if self.in_bounds(y, x) {
                    lemma_grid_index(self.h as int, self.w as int, y, x);
                }
            }
            assert(self.cells() =~= old(self).cells().difference(map.cells()));
        }
    }

    /// Keep only the cells also set in `map`: `self := self and map`.
    pub fn eq_and(&mut self, map: &Grid)
        requires
            old(self).wf(),
            map.wf(),
            old(self).same_dims(*map),
        ensures
            final(self).wf(),
            final(self).same_dims(*old(self)),
            forall|y: int, x: int|
                #[trigger] final(self).cell(y, x) == (old(self).cell(y, x) && map.cell(y, x)),
            final(self).cells() == old(self).cells().intersect(map.cells()),
    {
        let n: usize = self.data.len();
        let ghost orig = *self;
        let mut i: usize = 0;
        while i < n
            invariant
                self.wf(),
                self.same_dims(*old(self)),
                self.same_dims(*map),
                map.wf(),
                n == self.data.len(),
                i <= n,
                forall|j: int| 0 <= j < i ==> self.data[j] == (orig.data[j] && map.data[j]),
                forall|j: int| i <= j < n ==> self.data[j] == orig.data[j],
            decreases n - i,
        {
            if !map.data[i] {
                self.data[i] = false;
            }
            i = i + 1;
        }
        proof {
            assert forall|y: int, x: int| #[trigger] self.cell(y, x) == (old(self).cell(y, x)
                && map.cell(y, x)) by {
                if self.in_bounds(y, x) {
                    lemma_grid_index(self.h as int, self.w as int, y, x);
                }
            }
            assert(self.cells() =~= old(self).cells().intersect(map.cells()));
        }
    }

    /// Add every cell set in `map`: `self := self or map`.
    pub fn eq_or(&mut self, map: &Grid)
        requires
            old(self).wf(),
            map.wf(),
            old(self).same_dims(*map),
        ensures
            final(self).wf(),
            final(self).same_dims(*old(self)),
            forall|y: int, x: int|
                #[trigger] final(self).cell(y, x) == (old(self).cell(y, x) || map.cell(y, x)),
            final(self).cells() == old(self).cells().union(map.cells()),
    {
        let n: usize = self.data.len();
        let ghost orig = *self;
        let mut i: usize = 0;
        while i < n
            invariant
                self.wf(),
                self.same_dims(*old(self)),
                self.same_dims(*map),
                map.wf(),
                n == self.data.len(),
                i <= n,
                forall|j: int| 0 <= j < i ==> self.data[j] == (orig.data[j] || map.data[j]),
                forall|j: int| i <= j < n ==> self.data[j] == orig.data[j],
            decreases n - i,
        {
            let v: bool = self.data[i] || map.data[i];
            self.data[i] = v;
            i = i + 1;
        }
        proof {
            assert forall|y: int, x: int| #[trigger] self.cell(y, x) == (old(self).cell(y, x)
                || map.cell(y, x)) by {
                if self.in_bounds(y, x) {
                    lemma_grid_index(self.h as int, self.w as int, y, x);
                }
            }
            assert(self.cells() =~= old(self).cells().union(map.cells()));
        }
    }

    /// Complement every cell.
    pub fn invert(&mut self)
        requires
            old(self).wf(),
        ensures
            final(self).wf(),
            final(self).same_dims(*old(self)),
            forall|y: int, x: int|
                final(self).in_bounds(y, x) ==> #[trigger] final(self).cell(y, x) == !old(
                    self,
                ).cell(y, x),
            final(self).cells() == full_cells(old(self).h as int, old(self).w as int).difference(
                old(self).cells(),
            ),
    {
        let n: usize = self.data.len();
        let ghost orig = *self;
        let mut i: usize = 0;
        while i < n
            invariant
                self.wf(),
                self.same_dims(*old(self)),
                n == self.data.len(),
                i <= n,
                forall|j: int| 0 <= j < i ==> self.data[j] == !orig.data[j],
                forall|j: int| i <= j < n ==> self.data[j] == orig.data[j],
            decreases n - i,
        {
            let v: bool = !self.data[i];
            self.data[i] = v;
            i = i + 1;
        }
        proof {
            assert forall|y: int, x: int| self.in_bounds(y, x) implies #[trigger] self.cell(y, x)
                == !old(self).cell(y, x) by {
                lemma_grid_index(self.h as int, self.w as int, y, x);
            }
            assert(self.cells() =~= full_cells(self.h as int, self.w as int).difference(
                old(self).cells(),
            ));
        }
    }

    /// Clear every cell.
    pub fn reset(&mut self)
        requires
            old(self).wf(),
        ensures
            final(self).wf(),
            final(self).same_dims(*old(self)),
            forall|y: int, x: int| !(#[trigger] final(self).cell(y, x)),
    {
        let n: usize = self.data.len();
        let mut i: usize = 0;
        while i < n
            invariant
                self.wf(),
                self.same_dims(*old(self)),
                n == self.data.len(),
                i <= n,
                forall|j: int| 0 <= j < i ==> self.data[j] == false,
            decreases n - i,
        {
            self.data[i] = false;
            i = i + 1;
        }
        proof {
            assert forall|y: int, x: int| !(#[trigger] self.cell(y, x)) by {
                if self.in_bounds(y, x) {
                    lemma_grid_index(self.h as int, self.w as int, y, x);
                }
            }
        }
    }

    /// How many cells hold `false`.
    pub fn nb_false(&self) -> (r: usize)
        requires
            self.wf(),
        ensures
            r == count_val(self.data@, false),
    {
        let n: usize = self.data.len();
        let mut r: usize = 0;
        let mut i: usize = 0;
        while i < n
            invariant
                n == self.data.len(),
                i <= n,
                r == count_val(self.data@.take(i as int), false),
                r <= i,
            decreases n - i,
        {
            proof {
                lemma_count_val_take_step(self.data@, false, i as int);
            }
            if !self.data[i] {
                r = r + 1;
            }
            i = i + 1;
        }
        proof {
            lemma_count_val_take_all(self.data@, false);
        }
        r
    }

    /// The first cell holding `value`, scanning row by row and, within a
    /// row, column by column; `None` when no cell does.
    pub fn first_match(&self, value: bool) -> (r: Option<Pos>)
        requires
            self.wf(),
        ensures
            match r {
                Some(p) => self.in_bounds(p.y as int, p.x as int) && self.cell(p.y as int, p.x as int)
                    == value && forall|j: int|
                    0 <= j < p.y * self.w + p.x ==> self.data[j] != value,
                None => forall|j: int| 0 <= j < self.data.len() ==> self.data[j] != value,
            },
    {
        let n: usize = self.data.len();
        let mut i: usize = 0;
        while i < n
            invariant
                self.wf(),
                n == self.data.len(),
                i <= n,
                forall|j: int| 0 <= j < i ==> self.data[j] != value,
            decreases n - i,
        {
            if self.data[i] == value {
                proof {
                    if self.w == 0 {
                        assert(self.h * self.w == 0) by (nonlinear_arith)
                            requires
                                self.w == 0,
                        ;
                    }
                    lemma_grid_unindex(self.h as int, self.w as int, i as int);
                }
                let p = Pos { y: i / self.w, x: i % self.w };
                proof {
                    lemma_grid_index(self.h as int, self.w as int, p.y as int, p.x as int);
                }
                return Some(p);
            }
            i = i + 1;
        }
        None
    }

    /// The first `false` cell in scan order, or `None` when the grid is full.
    pub fn first_false(&self) -> (r: Option<Pos>)
        requires
            self.wf(),
        ensures
            match r {
                Some(p) => self.in_bounds(p.y as int, p.x as int) && !self.cell(p.y as int, p.x as int)
                    && forall|j: int| 0 <= j < p.y * self.w + p.x ==> self.data[j],
                None => forall|j: int| 0 <= j < self.data.len() ==> self.data[j],
            },
    {
        self.first_match(false)
    }
}

/// The value cell `(y, x)` takes after every set cell of `m` moves one step
/// in direction `d`. Cells moved off the map are dropped; cells with no
/// source are `false`.
pub open spec fn shifted_cell(m: Grid, d: Direction, y: int, x: int) -> bool {
    m.in_bounds(y, x) && match d {
        Direction::N => m.cell(y + 1, x),
        Direction::S => m.cell(y - 1, x),
        Direction::E => m.cell(y, x - 1),
        Direction::W => m.cell(y, x + 1),
    }
}

impl Grid {
    /// Move every set cell one step in direction `dir`, dropping cells that
    /// leave the map.
    pub fn eq_shift(&mut self, dir: &Direction)
        requires
            old(self).wf(),
        ensures
            final(self).wf(),
            final(self).same_dims(*old(self)),
            forall|y: int, x: int|
                #[trigger] final(self).cell(y, x) == shifted_cell(*old(self), *dir, y, x),
    {
        let ghost orig = *self;
        let h: usize = self.h;
        let w: usize = self.w;
        let mut out: Vec<bool> = Vec::new();
        let mut y: usize = 0;
        let mut base: usize = 0;
        while y < h
            invariant
                *self == orig,
                orig.wf(),
                h == orig.h,
                w == orig.w,
                y <= h,
                base == y * w,
                out.len() == base,
                forall|yy: int, xx: int|
                    0 <= yy < y && 0 <= xx < w ==> out[yy * w + xx] == shifted_cell(
                        orig,
                        *dir,
                        yy,
                        xx,
                    ),
            decreases h - y,
        {
            let mut x: usize = 0;
            while x < w
                invariant
                    *self == orig,
                    orig.wf(),
                    h == orig.h,
                    w == orig.w,
                    y < h,
                    x <= w,
                    base == y * w,
                    out.len() == base + x,
                    forall|yy: int, xx: int|
                        0 <= yy < y && 0 <= xx < w ==> out[yy * w + xx] == shifted_cell(
                            orig,
                            *dir,
                            yy,
                            xx,
                        ),
                    forall|xx: int|
                        0 <= xx < x ==> out[y * w + xx] == shifted_cell(orig, *dir, y as int, xx),
                decreases w - x,
            {
                proof {
                    lemma_grid_index(h as int, w as int, y as int, x as int);
                    assert(base + w == (y + 1) * w && base - w == (y - 1) * w) by (nonlinear_arith)
                        requires
                            base == y * w,
                    ;
                    if y + 1 < h {
                        lemma_grid_index(h as int, w as int, y as int + 1, x as int);
                    }
                    if y >= 1 {
                        lemma_grid_index(h as int, w as int, y as int - 1, x as int);
                    }
                }
                let v: bool = match dir {
                    Direction::N => {
                        if y + 1 < h {
                            self.data[base + w + x]
                        } else {
                            false
                        }
                    },
                    Direction::S => {
                        if y >= 1 {
                            self.data[base - w + x]
                        } else {
                            false
                        }
                    },
                    Direction::E => {
                        if x >= 1 {
                            self.data[base + x - 1]
                        } else {
                            false
                        }
                    },
                    Direction::W => {
                        if x + 1 < w {
                            self.data[base + x + 1]
                        } else {
                            false
                        }
                    },
                };
                out.push(v);
                proof {
                    assert forall|yy: int, xx: int| 0 <= yy < y && 0 <= xx < w implies out[yy * w
                        + xx] == shifted_cell(orig, *dir, yy, xx) by {
                        lemma_grid_index(y as int, w as int, yy, xx);
                    }
                }
                x = x + 1;
            }
            proof {
                assert((y + 1) * w == y * w + w) by (nonlinear_arith);
                assert((y + 1) * w <= h * w) by (nonlinear_arith)
                    requires
                        y + 1 <= h,
                        0 <= w,
                ;
            }
            base = base + w;
            y = y + 1;
        }
        self.data = out;
        proof {
            assert forall|yy: int, xx: int| #[trigger] self.cell(yy, xx) == shifted_cell(
                orig,
                *dir,
                yy,
                xx,
            ) by {
                if self.in_bounds(yy, xx) {
                    lemma_grid_index(h as int, w as int, yy, xx);
                }
            }
        }
    }
}

/// Which of the nine sectors holds `(y, x)`: sectors are numbered 1 to 9 in
/// row-major order over a 3 x 3 split of the map into equal regions.
pub open spec fn spec_sector(h: int, w: int, y: int, x: int) -> int {
    (y / (h / 3)) * 3 + x / (w / 3) + 1
}

impl Grid {
    /// The sector holding `pos`.
    pub fn sector(&self, pos: &Pos) -> (r: usize)
        requires
            self.wf(),
            self.h % 3 == 0,
            self.w % 3 == 0,
            self.h >= 3,
            self.w >= 3,
            self.in_bounds(pos.y as int, pos.x as int),
        ensures
            r == spec_sector(self.h as int, self.w as int, pos.y as int, pos.x as int),
            1 <= r <= 9,
    {
        let sector_w: usize = self.w / 3;
        let sector_h: usize = self.h / 3;
        let sector_x: usize = pos.x / sector_w;
        let sector_y: usize = pos.y / sector_h;
        proof {
            assert(sector_y <= 2 && sector_x <= 2) by (nonlinear_arith)
                requires
                    sector_h == self.h / 3,
                    sector_w == self.w / 3,
                    self.h % 3 == 0,
                    self.w % 3 == 0,
                    self.h >= 3,
                    self.w >= 3,
                    pos.y < self.h,
                    pos.x < self.w,
                    sector_y == pos.y as int / sector_h as int,
                    sector_x == pos.x as int / sector_w as int,
            ;
        }
        sector_y * 3 + sector_x + 1
    }

    /// The grid that is `true` exactly on the cells of the given sector.
    pub fn sector_mask(&self, sector: usize) -> (r: Grid)
        requires
            self.wf(),
            self.h % 3 == 0,
            self.w % 3 == 0,
            self.h >= 3,
            self.w >= 3,
            1 <= sector <= 9,
        ensures
            r.wf(),
            r.same_dims(*self),
            forall|y: int, x: int|
                #[trigger] r.cell(y, x) == (r.in_bounds(y, x) && spec_sector(
                    self.h as int,
                    self.w as int,
                    y,
                    x,
                ) == sector),
    {
        let h: usize = self.h;
        let w: usize = self.w;
        let sector_w: usize = w / 3;
        let sector_h: usize = h / 3;
        let sector_x: usize = (sector - 1) % 3;
        let sector_y: usize = (sector - 1) / 3;
        let mut out: Vec<bool> = Vec::new();
        let mut y: usize = 0;
        let mut base: usize = 0;
        while y < h
            invariant
                h == self.h,
                w == self.w,
                self.wf(),
                h % 3 == 0 && w % 3 == 0 && h >= 3 && w >= 3,
                sector_h == h / 3 && sector_w == w / 3,
                sector_x == (sector - 1) % 3 && sector_y == (sector - 1) / 3,
                1 <= sector <= 9,
                y <= h,
                base == y * w,
                out.len() == base,
                forall|yy: int, xx: int|
                    0 <= yy < y && 0 <= xx < w ==> out[yy * w + xx] == (spec_sector(
                        h as int,
                        w as int,
                        yy,
                        xx,
                    ) == sector),
            decreases h - y,
        {
            let mut x: usize = 0;
            while x < w
                invariant
                    h % 3 == 0 && w % 3 == 0 && h >= 3 && w >= 3,
                    sector_h == h / 3 && sector_w == w / 3,
                    sector_x == (sector - 1) % 3 && sector_y == (sector - 1) / 3,
                    1 <= sector <= 9,
                    y < h,
                    x <= w,
                    base == y * w,
                    out.len() == base + x,
                    forall|yy: int, xx: int|
                        0 <= yy < y && 0 <= xx < w ==> out[yy * w + xx] == (spec_sector(
                            h as int,
                            w as int,
                            yy,
                            xx,
                        ) == sector),
                    forall|xx: int|
                        0 <= xx < x ==> out[y * w + xx] == (spec_sector(h as int, w as int, y as int, xx)
                            == sector),
                decreases w - x,
            {
                let v: bool = y / sector_h == sector_y && x / sector_w == sector_x;
                proof {
                    assert(v == (spec_sector(h as int, w as int, y as int, x as int)
                        == sector)) by (nonlinear_arith)
                        requires
                            sector_h == h / 3,
                            sector_w == w / 3,
                            h >= 3 && w >= 3 && h % 3 == 0 && w % 3 == 0,
                            1 <= sector <= 9,
                            sector_x == (sector - 1) % 3,
                            sector_y == (sector - 1) / 3,
                            y < h,
                            x < w,
                            v == (y as int / sector_h as int == sector_y
                                && x as int / sector_w as int == sector_x),
                    ;
                }
                out.push(v);
                proof {
                    assert forall|yy: int, xx: int| 0 <= yy < y && 0 <= xx < w implies out[yy * w
                        + xx] == (spec_sector(h as int, w as int, yy, xx) == sector) by {
                        lemma_grid_index(y as int, w as int, yy, xx);
                    }
                }
                x = x + 1;
            }
            proof {
                assert((y + 1) * w == y * w + w) by (nonlinear_arith);
            }
            base = base + w;
            y = y + 1;
        }
        let r = Grid { h, w, data: out };
        proof {
            assert forall|yy: int, xx: int| #[trigger] r.cell(yy, xx) == (r.in_bounds(yy, xx)
                && spec_sector(h as int, w as int, yy, xx) == sector) by {
                if r.in_bounds(yy, xx) {
                    lemma_grid_index(h as int, w as int, yy, xx);
                }
            }
        }
        r
    }

    /// The grid that is `true` exactly on the cells lying strictly within
    /// the attack blast's Manhattan radius of `pos`.
    pub fn torpedo_mask(&self, pos: &Pos) -> (r: Grid)
        requires
            self.wf(),
            pos.y <= isize::MAX,
            pos.x <= isize::MAX,
        ensures
            r.wf(),
            r.same_dims(*self),
            forall|y: int, x: int|
                #[trigger] r.cell(y, x) == (r.in_bounds(y, x) && manhattan(
                    y,
                    x,
                    pos.y as int,
                    pos.x as int,
                ) < 4),
    {
        let h: usize = self.h;
        let w: usize = self.w;
        let mut out: Vec<bool> = Vec::new();
        let mut y: usize = 0;
        let mut base: usize = 0;
        while y < h
            invariant
                h == self.h,
                w == self.w,
                self.wf(),
                y <= h,
                base == y * w,
                out.len() == base,
                forall|yy: int, xx: int|
                    0 <= yy < y && 0 <= xx < w ==> out[yy * w + xx] == (manhattan(
                        yy,
                        xx,
                        pos.y as int,
                        pos.x as int,
                    ) < 4),
            decreases h - y,
        {
            let mut x: usize = 0;
            while x < w
                invariant
                    y < h,
                    x <= w,
                    base == y * w,
                    out.len() == base + x,
                    forall|yy: int, xx: int|
                        0 <= yy < y && 0 <= xx < w ==> out[yy * w + xx] == (manhattan(
                            yy,
                            xx,
                            pos.y as int,
                            pos.x as int,
                        ) < 4),
                    forall|xx: int|
                        0 <= xx < x ==> out[y * w + xx] == (manhattan(
                            y as int,
                            xx,
                            pos.y as int,
                            pos.x as int,
                        ) < 4),
                decreases w - x,
            {
                let dy: usize = if y >= pos.y {
                    y - pos.y
                } else {
                    pos.y - y
                };
                let dx: usize = if x >= pos.x {
                    x - pos.x
                } else {
                    pos.x - x
                };
                let v: bool = dy <= 3 && dx <= 3 && dy + dx < 4;
                out.push(v);
                proof {
                    assert forall|yy: int, xx: int| 0 <= yy < y && 0 <= xx < w implies out[yy * w
                        + xx] == (manhattan(yy, xx, pos.y as int, pos.x as int) < 4) by {
                        lemma_grid_index(y as int, w as int, yy, xx);
                    }
                }
                x = x + 1;
            }
            proof {
                assert((y + 1) * w == y * w + w) by (nonlinear_arith);
            }
            base = base + w;
            y = y + 1;
        }
        let r = Grid { h, w, data: out };
        proof {
            assert forall|yy: int, xx: int| #[trigger] r.cell(yy, xx) == (r.in_bounds(yy, xx)
                && manhattan(yy, xx, pos.y as int, pos.x as int) < 4) by {
                if r.in_bounds(yy, xx) {
                    lemma_grid_index(h as int, w as int, yy, xx);
                }
            }
        }
        r
    }

    /// The grid that is `true` exactly on the 3 x 3 neighbourhood of `pos`,
    /// clipped to the map.
    pub fn square(&self, pos: &Pos) -> (r: Grid)
        requires
            self.wf(),
            pos.y <= isize::MAX,
            pos.x <= isize::MAX,
        ensures
            r.wf(),
            r.same_dims(*self),
            forall|y: int, x: int|
                #[trigger] r.cell(y, x) == (r.in_bounds(y, x) && near_cell(
                    pos.y as int,
                    pos.x as int,
                    y,
                    x,
                )),
    {
        let h: usize = self.h;
        let w: usize = self.w;
        let mut out: Vec<bool> = Vec::new();
        let mut y: usize = 0;
        let mut base: usize = 0;
        while y < h
            invariant
                h == self.h,
                w == self.w,
                self.wf(),
                y <= h,
                base == y * w,
                out.len() == base,
                forall|yy: int, xx: int|
                    0 <= yy < y && 0 <= xx < w ==> out[yy * w + xx] == near_cell(pos.y as int, pos.x as int, yy, xx),
            decreases h - y,
        {
            let mut x: usize = 0;
            while x < w
                invariant
                    y < h,
                    x <= w,
                    base == y * w,
                    out.len() == base + x,
                    forall|yy: int, xx: int|
                        0 <= yy < y && 0 <= xx < w ==> out[yy * w + xx] == near_cell(pos.y as int, pos.x as int, yy, xx),
                    forall|xx: int|
                        0 <= xx < x ==> out[y * w + xx] == near_cell(pos.y as int, pos.x as int, y as int, xx),
                decreases w - x,
            {
                let dy: usize = if y >= pos.y {
                    y - pos.y
                } else {
                    pos.y - y
                };
                let dx: usize = if x >= pos.x {
                    x - pos.x
                } else {
                    pos.x - x
                };
                let v: bool = dy <= 1 && dx <= 1;
                out.push(v);
                proof {
                    assert forall|yy: int, xx: int| 0 <= yy < y && 0 <= xx < w implies out[yy * w
                        + xx] == near_cell(pos.y as int, pos.x as int, yy, xx) by {
                        lemma_grid_index(y as int, w as int, yy, xx);
                    }
                }
                x = x + 1;
            }
            proof {
                assert((y + 1) * w == y * w + w) by (nonlinear_arith);
            }
            base = base + w;
            y = y + 1;
        }
        let r = Grid { h, w, data: out };
        proof {
            assert forall|yy: int, xx: int| #[trigger] r.cell(yy, xx) == (r.in_bounds(yy, xx)
                && near_cell(pos.y as int, pos.x as int, yy, xx)) by {
                if r.in_bounds(yy, xx) {
                    lemma_grid_index(h as int, w as int, yy, xx);
                }
            }
        }
        r
    }
}

/// Whether `(y, x)` lies on the map and within Manhattan distance `k` of
/// some set cell of `m`.
pub open spec fn ball_cell(m: Grid, k: int, y: int, x: int) -> bool {
    m.in_bounds(y, x) && exists|q: (int, int)|
        #[trigger] m.cell(q.0, q.1) && manhattan(y, x, q.0, q.1) <= k
}

/// Whether `(y, x)` is set in `m` or has a set 4-neighbour.
pub open spec fn dilated_cell(m: Grid, y: int, x: int) -> bool {
    m.cell(y, x) || m.cell(y - 1, x) || m.cell(y + 1, x) || m.cell(y, x - 1) || m.cell(y, x + 1)
}

/// Distance zero reaches exactly the set cells.
pub proof fn lemma_ball_zero(m: Grid, y: int, x: int)
    ensures
        ball_cell(m, 0, y, x) == m.cell(y, x),
{
    if m.cell(y, x) {
        let q: (int, int) = (y, x);
        assert(m.cell(q.0, q.1) && manhattan(y, x, q.0, q.1) <= 0);
    }
    if ball_cell(m, 0, y, x) {
        let q = choose|q: (int, int)| #[trigger] m.cell(q.0, q.1) && manhattan(y, x, q.0, q.1) <= 0;
        assert(q.0 == y && q.1 == x);
    }
}

/// Growing the reach by one step equals one 4-neighbour dilation.
pub proof fn lemma_ball_step(m: Grid, k: int, y: int, x: int)
    requires
        k >= 0,
        m.in_bounds(y, x),
    ensures
        ball_cell(m, k + 1, y, x) == (ball_cell(m, k, y, x) || ball_cell(m, k, y - 1, x)
            || ball_cell(m, k, y + 1, x) || ball_cell(m, k, y, x - 1) || ball_cell(m, k, y, x + 1)),
{
    if ball_cell(m, k, y, x) || ball_cell(m, k, y - 1, x) || ball_cell(m, k, y + 1, x)
        || ball_cell(m, k, y, x - 1) || ball_cell(m, k, y, x + 1) {
        if ball_cell(m, k, y, x) {
            let q = choose|q: (int, int)|
                #[trigger] m.cell(q.0, q.1) && manhattan(y, x, q.0, q.1) <= k;
            assert(m.cell(q.0, q.1) && manhattan(y, x, q.0, q.1) <= k + 1);
        } else if ball_cell(m, k, y - 1, x) {
            let q = choose|q: (int, int)|
                #[trigger] m.cell(q.0, q.1) && manhattan(y - 1, x, q.0, q.1) <= k;
            assert(m.cell(q.0, q.1) && manhattan(y, x, q.0, q.1) <= k + 1);
        } else if ball_cell(m, k, y + 1, x) {
            let q = choose|q: (int, int)|
                #[trigger] m.cell(q.0, q.1) && manhattan(y + 1, x, q.0, q.1) <= k;
            assert(m.cell(q.0, q.1) && manhattan(y, x, q.0, q.1) <= k + 1);
        } else if ball_cell(m, k, y, x - 1) {
            let q = choose|q: (int, int)|
                #[trigger] m.cell(q.0, q.1) && manhattan(y, x - 1, q.0, q.1) <= k;
            assert(m.cell(q.0, q.1) && manhattan(y, x, q.0, q.1) <= k + 1);
        } else {
            let q = choose|q: (int, int)|
                #[trigger] m.cell(q.0, q.1) && manhattan(y, x + 1, q.0, q.1) <= k;
            assert(m.cell(q.0, q.1) && manhattan(y, x, q.0, q.1) <= k + 1);
        }
        assert(ball_cell(m, k + 1, y, x));
    }
    if ball_cell(m, k + 1, y, x) {
        let q = choose|q: (int, int)|
            #[trigger] m.cell(q.0, q.1) && manhattan(y, x, q.0, q.1) <= k + 1;
        if manhattan(y, x, q.0, q.1) <= k {
            assert(ball_cell(m, k, y, x));
        } else {
            if q.0 < y {
                assert(m.cell(q.0, q.1) && manhattan(y - 1, x, q.0, q.1) <= k);
                assert(m.in_bounds(y - 1, x));
                assert(ball_cell(m, k, y - 1, x));
            } else if q.0 > y {
                assert(m.cell(q.0, q.1) && manhattan(y + 1, x, q.0, q.1) <= k);
                assert(m.in_bounds(y + 1, x));
                assert(ball_cell(m, k, y + 1, x));
            } else if q.1 < x {
                assert(m.cell(q.0, q.1) && manhattan(y, x - 1, q.0, q.1) <= k);
                assert(m.in_bounds(y, x - 1));
                assert(ball_cell(m, k, y, x - 1));
            } else {
                assert(m.cell(q.0, q.1) && manhattan(y, x + 1, q.0, q.1) <= k);
                assert(m.in_bounds(y, x + 1));
                assert(ball_cell(m, k, y, x + 1));
            }
        }
    }
}

impl Grid {
    /// Grow the set cells `size` times by one step of 4-neighbour dilation:
    /// afterwards a cell is set exactly when it lies within Manhattan
    /// distance `size` of an originally set cell.
    pub fn expand(&mut self, size: usize)
        requires
            old(self).wf(),
        ensures
            final(self).wf(),
            final(self).same_dims(*old(self)),
            forall|y: int, x: int|
                #[trigger] final(self).cell(y, x) == ball_cell(*old(self), size as int, y, x),
    {
        let ghost orig = *self;
        let h: usize = self.h;
        let w: usize = self.w;
        proof {
            assert forall|y: int, x: int| #[trigger] self.cell(y, x) == ball_cell(orig, 0, y, x) by {
                lemma_ball_zero(orig, y, x);
            }
        }
        let mut step: usize = 0;
        while step < size
            invariant
                self.wf(),
                h == self.h,
                w == self.w,
                orig.h == h,
                orig.w == w,
                orig.wf(),
                step <= size,
                forall|y: int, x: int|
                    #[trigger] self.cell(y, x) == ball_cell(orig, step as int, y, x),
            decreases size - step,
        {
            let ghost prev = *self;
            let mut out: Vec<bool> = Vec::new();
            let mut y: usize = 0;
            let mut base: usize = 0;
            while y < h
                invariant
                    *self == prev,
                    self.wf(),
                    h == self.h,
                    w == self.w,
                    y <= h,
                    base == y * w,
                    out.len() == base,
                    forall|yy: int, xx: int|
                        0 <= yy < y && 0 <= xx < w ==> out[yy * w + xx] == dilated_cell(
                            prev,
                            yy,
                            xx,
                        ),
                decreases h - y,
            {
                let mut x: usize = 0;
                while x < w
                    invariant
                        *self == prev,
                        self.wf(),
                        h == self.h,
                        w == self.w,
                        y < h,
                        x <= w,
                        base == y * w,
                        out.len() == base + x,
                        forall|yy: int, xx: int|
                            0 <= yy < y && 0 <= xx < w ==> out[yy * w + xx] == dilated_cell(
                                prev,
                                yy,
                                xx,
                            ),
                        forall|xx: int|
                            0 <= xx < x ==> out[y * w + xx] == dilated_cell(prev, y as int, xx),
                    decreases w - x,
                {
                    proof {
                        lemma_grid_index(h as int, w as int, y as int, x as int);
                        assert(base + w == (y + 1) * w && base - w == (y - 1) * w)
                            by (nonlinear_arith)
                            requires
                                base == y * w,
                        ;
                        if y + 1 < h {
                            lemma_grid_index(h as int, w as int, y as int + 1, x as int);
                        }
                        if y >= 1 {
                            lemma_grid_index(h as int, w as int, y as int - 1, x as int);
                        }
                    }
                    let mut v: bool = self.data[base + x];
                    if y >= 1 && self.data[base - w + x] {
                        v = true;
                    }
                    if y + 1 < h && self.data[base + w + x] {
                        v = true;
                    }
                    if x >= 1 && self.data[base + x - 1] {
                        v = true;
                    }
                    if x + 1 < w && self.data[base + x + 1] {
                        v = true;
                    }
                    out.push(v);
                    proof {
                        assert forall|yy: int, xx: int| 0 <= yy < y && 0 <= xx < w implies out[yy
                            * w + xx] == dilated_cell(prev, yy, xx) by {
                            lemma_grid_index(y as int, w as int, yy, xx);
                        }
                    }
                    x = x + 1;
                }
                proof {
                    assert((y + 1) * w == y * w + w) by (nonlinear_arith);
                }
                base = base + w;
                y = y + 1;
            }
            self.data = out;
            proof {
                assert forall|yy: int, xx: int| #[trigger] self.cell(yy, xx) == ball_cell(
                    orig,
                    step + 1,
                    yy,
                    xx,
                ) by {
                    if self.in_bounds(yy, xx) {
                        lemma_grid_index(h as int, w as int, yy, xx);
                        assert(self.cell(yy, xx) == dilated_cell(prev, yy, xx));
                        lemma_ball_step(orig, step as int, yy, xx);
                    }
                }
            }
            step = step + 1;
        }
    }
}

/// No entry equal to `v` means a count of zero.
pub proof fn lemma_count_val_none(s: Seq<bool>, v: bool)
    requires
        forall|j: int| 0 <= j < s.len() ==> s[j] != v,
    ensures
        count_val(s, v) == 0,
    decreases s.len(),
{
    if s.len() > 0 {
        lemma_count_val_none(s.drop_last(), v);
    }
}

/// A count never exceeds the length.
pub proof fn lemma_count_val_le_len(s: Seq<bool>, v: bool)
    ensures
        count_val(s, v) <= s.len(),
    decreases s.len(),
{
    if s.len() > 0 {
        lemma_count_val_le_len(s.drop_last(), v);
    }
}

/// Setting a `false` entry to `true` raises the `true` count by one.
pub proof fn lemma_count_val_set_true(s: Seq<bool>, i: int)
    requires
        0 <= i < s.len(),
        !s[i],
    ensures
        count_val(s.update(i, true), true) == count_val(s, true) + 1,
    decreases s.len(),
{
    let t = s.update(i, true);
    if i == s.len() - 1 {
        assert(t.drop_last() =~= s.drop_last());
    } else {
        assert(t.drop_last() =~= s.drop_last().update(i, true));
        assert(t.last() == s.last());
        lemma_count_val_set_true(s.drop_last(), i);
    }
}

/// An entry equal to `v` makes the count positive.
pub proof fn lemma_count_val_pos(s: Seq<bool>, v: bool, i: int)
    requires
        0 <= i < s.len(),
        s[i] == v,
    ensures
        count_val(s, v) >= 1,
    decreases s.len(),
{
    if i < s.len() - 1 {
        lemma_count_val_pos(s.drop_last(), v, i);
    }
}

/// Two distinct entries equal to `v` make the count at least two.
pub proof fn lemma_count_val_ge_two(s: Seq<bool>, v: bool, i: int, j: int)
    requires
        0 <= i < j < s.len(),
        s[i] == v,
        s[j] == v,
    ensures
        count_val(s, v) >= 2,
    decreases s.len(),
{
    if j == s.len() - 1 {
        lemma_count_val_pos(s.drop_last(), v, i);
    } else {
        lemma_count_val_ge_two(s.drop_last(), v, i, j);
    }
}

/// Exactly one entry equal to `v` means a count of one.
pub proof fn lemma_count_val_single(s: Seq<bool>, v: bool, i: int)
    requires
        0 <= i < s.len(),
        s[i] == v,
        forall|j: int| 0 <= j < s.len() && j != i ==> s[j] != v,
    ensures
        count_val(s, v) == 1,
    decreases s.len(),
{
    if i == s.len() - 1 {
        lemma_count_val_none(s.drop_last(), v);
    } else {
        lemma_count_val_single(s.drop_last(), v, i);
    }
}

/// Every entry is counted on one side or the other.
pub proof fn lemma_count_val_complement(s: Seq<bool>)
    ensures
        count_val(s, true) + count_val(s, false) == s.len(),
    decreases s.len(),
{
    if s.len() > 0 {
        lemma_count_val_complement(s.drop_last());
    }
}

/// A count of zero means no cell is set, and the other way round.
pub proof fn lemma_grid_count_zero(m: Grid)
    requires
        m.wf(),
    ensures
        (count_val(m.data@, true) == 0) == (forall|y: int, x: int| !(#[trigger] m.cell(y, x))),
{
    if count_val(m.data@, true) == 0 {
        assert forall|y: int, x: int| !(#[trigger] m.cell(y, x)) by {
            if m.cell(y, x) {
                lemma_grid_index(m.h as int, m.w as int, y, x);
                lemma_count_val_pos(m.data@, true, y * m.w + x);
            }
        }
    }
    if forall|y: int, x: int| !(#[trigger] m.cell(y, x)) {
        assert forall|j: int| 0 <= j < m.data.len() implies m.data[j] != true by {
            if m.data[j] {
                assert(m.w > 0) by (nonlinear_arith)
                    requires
                        0 <= j < m.h * m.w,
                        0 <= m.h,
                        0 <= m.w,
                ;
                lemma_grid_unindex(m.h as int, m.w as int, j);
                assert(m.cell(j / m.w as int, j % m.w as int));
            }
        }
        lemma_count_val_none(m.data@, true);
    }
}

/// With a count of one, the one cell found set is the only one.
pub proof fn lemma_grid_count_one(m: Grid, py: int, px: int)
    requires
        m.wf(),
        count_val(m.data@, true) == 1,
        m.cell(py, px),
    ensures
        forall|y: int, x: int| #[trigger] m.cell(y, x) == (y == py && x == px),
{
    assert forall|y: int, x: int| #[trigger] m.cell(y, x) == (y == py && x == px) by {
        if m.cell(y, x) && (y != py || x != px) {
            lemma_grid_index(m.h as int, m.w as int, y, x);
            lemma_grid_index(m.h as int, m.w as int, py, px);
            let i = y * m.w + x;
            let j = py * m.w + px;
            if i == j {
                lemma_grid_index_inj(m.w as int, py, px, y, x);
            }
            if i < j {
                lemma_count_val_ge_two(m.data@, true, i, j);
            } else {
                lemma_count_val_ge_two(m.data@, true, j, i);
            }
        }
    }
}

/// A grid set on exactly one cell counts one.
pub proof fn lemma_grid_count_singleton(m: Grid, py: int, px: int)
    requires
        m.wf(),
        m.cell(py, px),
        forall|y: int, x: int| (y, x) != (py, px) ==> !(#[trigger] m.cell(y, x)),
    ensures
        count_val(m.data@, true) == 1,
{
    lemma_grid_index(m.h as int, m.w as int, py, px);
    let j = py * m.w + px;
    assert forall|i: int| 0 <= i < m.data.len() && i != j implies m.data[i] != true by {
        if m.data[i] {
            assert(m.w > 0) by (nonlinear_arith)
                requires
                    0 <= i < m.h * m.w,
                    0 <= m.h,
                    0 <= m.w,
            ;
            lemma_grid_unindex(m.h as int, m.w as int, i);
            let y = i / m.w as int;
            let x = i % m.w as int;
            if (y, x) == (py, px) {
                assert(i == y * m.w + x);
            } else {
                assert(m.cell(y, x));
            }
        }
    }
    lemma_count_val_single(m.data@, true, j);
}

/// A cell that lies on the map and is not blocked in `m`.
pub open spec fn open_cell(m: Grid, y: int, x: int) -> bool {
    m.in_bounds(y, x) && !m.cell(y, x)
}

/// A non-empty walk over open cells of `m`, each step moving to a
/// 4-neighbour.
pub open spec fn is_open_path(m: Grid, p: Seq<(int, int)>) -> bool {
    &&& p.len() >= 1
    &&& forall|i: int| 0 <= i < p.len() ==> #[trigger] open_cell(m, p[i].0, p[i].1)
    &&& forall|i: int|
        0 <= i < p.len() - 1 ==> manhattan(p[i].0, p[i].1, #[trigger] p[i + 1].0, p[i + 1].1) == 1
}

/// Whether an open walk of `m` joins `(sy, sx)` to `(ty, tx)`.
pub open spec fn reachable(m: Grid, sy: int, sx: int, ty: int, tx: int) -> bool {
    exists|p: Seq<(int, int)>|
        #[trigger] is_open_path(m, p) && p.first() == (sy, sx) && p.last() == (ty, tx)
}

/// An open cell reaches itself.
pub proof fn lemma_reach_self(m: Grid, y: int, x: int)
    requires
        open_cell(m, y, x),
    ensures
        reachable(m, y, x, y, x),
{
    let p: Seq<(int, int)> = seq![(y, x)];
    assert(is_open_path(m, p) && p.first() == (y, x) && p.last() == (y, x));
}

/// A reached cell passes reachability on to an open 4-neighbour.
pub proof fn lemma_reach_extend(m: Grid, sy: int, sx: int, ay: int, ax: int, by: int, bx: int)
    requires
        reachable(m, sy, sx, ay, ax),
        open_cell(m, by, bx),
        manhattan(ay, ax, by, bx) == 1,
    ensures
        reachable(m, sy, sx, by, bx),
{
    let p = choose|p: Seq<(int, int)>|
        #[trigger] is_open_path(m, p) && p.first() == (sy, sx) && p.last() == (ay, ax);
    let q = p.push((by, bx));
    assert forall|i: int| 0 <= i < q.len() implies #[trigger] open_cell(m, q[i].0, q[i].1) by {
        if i < p.len() {
            assert(q[i] == p[i]);
        }
    }
    assert forall|i: int| 0 <= i < q.len() - 1 implies manhattan(
        q[i].0,
        q[i].1,
        #[trigger] q[i + 1].0,
        q[i + 1].1,
    ) == 1 by {
        if i < p.len() - 1 {
            assert(q[i] == p[i] && q[i + 1] == p[i + 1]);
        } else {
            assert(q[i] == (ay, ax) && q[i + 1] == (by, bx));
        }
    }
    assert(is_open_path(m, q) && q.first() == (sy, sx) && q.last() == (by, bx));
}

/// A set of cells closed under open adjacency contains every open walk
/// that starts inside it.
pub proof fn lemma_closed_path(m: Grid, marks: Grid, p: Seq<(int, int)>)
    requires
        is_open_path(m, p),
        marks.cell(p.first().0, p.first().1),
        forall|ay: int, ax: int, by: int, bx: int|
            #[trigger] marks.cell(ay, ax) && #[trigger] open_cell(m, by, bx) && manhattan(
                ay,
                ax,
                by,
                bx,
            ) == 1 ==> marks.cell(by, bx),
    ensures
        marks.cell(p.last().0, p.last().1),
    decreases p.len(),
{
    if p.len() > 1 {
        let q = p.drop_last();
        assert forall|i: int| 0 <= i < q.len() implies #[trigger] open_cell(m, q[i].0, q[i].1) by {
            assert(q[i] == p[i]);
            assert(open_cell(m, p[i].0, p[i].1));
        }
        assert forall|i: int| 0 <= i < q.len() - 1 implies manhattan(
            q[i].0,
            q[i].1,
            #[trigger] q[i + 1].0,
            q[i + 1].1,
        ) == 1 by {
            assert(q[i] == p[i] && q[i + 1] == p[i + 1]);
            assert(manhattan(p[i].0, p[i].1, p[i + 1].0, p[i + 1].1) == 1);
        }
        assert(is_open_path(m, q));
        lemma_closed_path(m, marks, q);
        let i = p.len() - 2;
        let a = p[i];
        let b = p[i + 1];
        assert(manhattan(p[i].0, p[i].1, p[i + 1].0, p[i + 1].1) == 1);
        assert(open_cell(m, b.0, b.1));
        assert(marks.cell(a.0, a.1));
    }
}

/// Whether `n` counts the open cells an open walk from `(sy, sx)` can
/// visit in `m`.
#[verifier::opaque]
pub open spec fn is_region_count(m: Grid, sy: int, sx: int, n: nat) -> bool {
    exists|marks: Grid|
        {
            &&& #[trigger] marks.wf()
            &&& marks.h == m.h
            &&& marks.w == m.w
            &&& forall|y: int, x: int| #[trigger] marks.cell(y, x) == reachable(m, sy, sx, y, x)
            &&& n == count_val(marks.data@, true)
        }
}

/// How many open cells an open walk from `(sy, sx)` can visit in `m`.
#[verifier::opaque]
pub open spec fn region_size(m: Grid, sy: int, sx: int) -> nat {
    choose|n: nat| is_region_count(m, sy, sx, n)
}

/// The region count is a single number: any two witnesses agree.
pub proof fn lemma_region_count_unique(m: Grid, sy: int, sx: int, n1: nat, n2: nat)
    requires
        is_region_count(m, sy, sx, n1),
        is_region_count(m, sy, sx, n2),
    ensures
        n1 == n2,
{
    reveal(is_region_count);
    let marks1 = choose|marks: Grid|
        {
            &&& #[trigger] marks.wf()
            &&& marks.h == m.h
            &&& marks.w == m.w
            &&& forall|y: int, x: int| #[trigger] marks.cell(y, x) == reachable(m, sy, sx, y, x)
            &&& n1 == count_val(marks.data@, true)
        };
    let marks2 = choose|marks: Grid|
        {
            &&& #[trigger] marks.wf()
            &&& marks.h == m.h
            &&& marks.w == m.w
            &&& forall|y: int, x: int| #[trigger] marks.cell(y, x) == reachable(m, sy, sx, y, x)
            &&& n2 == count_val(marks.data@, true)
        };
    assert forall|j: int| 0 <= j < marks1.data.len() implies marks1.data[j] == marks2.data[j] by {
        assert(marks1.w > 0) by (nonlinear_arith)
            requires
                0 <= j < marks1.h * marks1.w,
                0 <= marks1.h,
                0 <= marks1.w,
        ;
        lemma_grid_unindex(marks1.h as int, marks1.w as int, j);
        let y = j / marks1.w as int;
        let x = j % marks1.w as int;
        assert(marks1.cell(y, x) == marks2.cell(y, x));
    }
    assert(marks1.data@ =~= marks2.data@);
}

/// Whether some 4-neighbour of `(y, x)` is set in `marks`.
pub open spec fn has_marked_neighbour(marks: Grid, y: int, x: int) -> bool {
    marks.cell(y - 1, x) || marks.cell(y + 1, x) || marks.cell(y, x - 1) || marks.cell(y, x + 1)
}

impl Grid {
    /// Size of the connected open region around `start`: how many cells an
    /// open 4-neighbour walk from `start` can visit, counting `start`
    /// itself. Zero when `start` is blocked.
    pub fn sub_false_area_size(&self, start: &Pos) -> (r: usize)
        requires
            self.wf(),
            self.in_bounds(start.y as int, start.x as int),
        ensures
            (exists|marks: Grid|
                {
                    &&& #[trigger] marks.wf()
                    &&& marks.h == self.h
                    &&& marks.w == self.w
                    &&& forall|y: int, x: int|
                        #[trigger] marks.cell(y, x) == reachable(
                            *self,
                            start.y as int,
                            start.x as int,
                            y,
                            x,
                        )
                    &&& r == count_val(marks.data@, true)
                }),
            r == region_size(*self, start.y as int, start.x as int),
    {
        let ghost sy = start.y as int;
        let ghost sx = start.x as int;
        let h: usize = self.h;
        let w: usize = self.w;
        if self.get(start.y, start.x) {
            let marks = Grid::new(h, w);
            proof {
                assert forall|y: int, x: int| #[trigger] marks.cell(y, x) == reachable(
                    *self,
                    sy,
                    sx,
                    y,
                    x,
                ) by {
                    if reachable(*self, sy, sx, y, x) {
                        let p = choose|p: Seq<(int, int)>|
                            #[trigger] is_open_path(*self, p) && p.first() == (sy, sx) && p.last()
                                == (y, x);
                        assert(open_cell(*self, p[0].0, p[0].1));
                    }
                }
                lemma_count_val_none(marks.data@, true);
                reveal(is_region_count);
                reveal(region_size);
                assert(is_region_count(*self, sy, sx, 0nat));
                lemma_region_count_unique(*self, sy, sx, region_size(*self, sy, sx), 0nat);
            }
            return 0;
        }
        let mut map = Grid::new(h, w);
        map.set(start.y, start.x, true);
        proof {
            lemma_reach_self(*self, sy, sx);
            lemma_count_val_le_len(map.data@, true);
        }
        loop
            invariant_except_break
                self.wf(),
                h == self.h,
                w == self.w,
                map.wf(),
                map.h == h,
                map.w == w,
                map.cell(sy, sx),
                count_val(map.data@, true) <= map.data.len(),
                forall|y: int, x: int| #[trigger] map.cell(y, x) ==> reachable(*self, sy, sx, y, x),
            ensures
                map.wf(),
                map.h == h,
                map.w == w,
                h == self.h,
                w == self.w,
                map.cell(sy, sx),
                forall|y: int, x: int| #[trigger] map.cell(y, x) ==> reachable(*self, sy, sx, y, x),
                forall|ay: int, ax: int, by: int, bx: int|
                    #[trigger] map.cell(ay, ax) && #[trigger] open_cell(*self, by, bx) && manhattan(
                        ay,
                        ax,
                        by,
                        bx,
                    ) == 1 ==> map.cell(by, bx),
            decreases map.data@.len() - count_val(map.data@, true),
        {
            let ghost entry = map;
            let mut changed: bool = false;
            let mut y: usize = 0;
            while y < h
                invariant
                    self.wf(),
                    h == self.h,
                    w == self.w,
                    map.wf(),
                    map.h == h,
                    map.w == w,
                    y <= h,
                    map.cell(sy, sx),
                    forall|yy: int, xx: int|
                        #[trigger] entry.cell(yy, xx) ==> map.cell(yy, xx),
                    forall|yy: int, xx: int|
                        #[trigger] map.cell(yy, xx) ==> reachable(*self, sy, sx, yy, xx),
                    !changed ==> map.data@ == entry.data@,
                    changed ==> count_val(map.data@, true) > count_val(entry.data@, true),
                    !changed ==> forall|yy: int, xx: int|
                        0 <= yy < y && 0 <= xx < w && open_cell(*self, yy, xx) && !map.cell(yy, xx)
                            ==> !(#[trigger] has_marked_neighbour(map, yy, xx)),
                decreases h - y,
            {
                let mut x: usize = 0;
                while x < w
                    invariant
                        self.wf(),
                        h == self.h,
                        w == self.w,
                        map.wf(),
                        map.h == h,
                        map.w == w,
                        y < h,
                        x <= w,
                        map.cell(sy, sx),
                        forall|yy: int, xx: int|
                            #[trigger] entry.cell(yy, xx) ==> map.cell(yy, xx),
                        forall|yy: int, xx: int|
                            #[trigger] map.cell(yy, xx) ==> reachable(*self, sy, sx, yy, xx),
                        !changed ==> map.data@ == entry.data@,
                        changed ==> count_val(map.data@, true) > count_val(entry.data@, true),
                        !changed ==> forall|yy: int, xx: int|
                            (yy < y || (yy == y && xx < x)) && 0 <= yy && 0 <= xx < w && open_cell(
                                *self,
                                yy,
                                xx,
                            ) && !map.cell(yy, xx) ==> !(#[trigger] has_marked_neighbour(
                                map,
                                yy,
                                xx,
                            )),
                    decreases w - x,
                {
                    if !self.get(y, x) && !map.get(y, x) {
                        let mut neigh: bool = false;
                        if x > 0 && map.get(y, x - 1) {
                            neigh = true;
                        }
                        if x + 1 < w && map.get(y, x + 1) {
                            neigh = true;
                        }
                        if y > 0 && map.get(y - 1, x) {
                            neigh = true;
                        }
                        if y + 1 < h && map.get(y + 1, x) {
                            neigh = true;
                        }
                        if neigh {
                            proof {
                                let yi = y as int;
                                let xi = x as int;
                                if map.cell(yi, xi - 1) {
                                    lemma_reach_extend(*self, sy, sx, yi, xi - 1, yi, xi);
                                } else if map.cell(yi, xi + 1) {
                                    lemma_reach_extend(*self, sy, sx, yi, xi + 1, yi, xi);
                                } else if map.cell(yi - 1, xi) {
                                    lemma_reach_extend(*self, sy, sx, yi - 1, xi, yi, xi);
                                } else {
                                    lemma_reach_extend(*self, sy, sx, yi + 1, xi, yi, xi);
                                }
                                lemma_grid_index(h as int, w as int, y as int, x as int);
                                lemma_count_val_set_true(map.data@, y as int * w + x as int);
                            }
                            map.set(y, x, true);
                            changed = true;
                        }
                    }
                    x = x + 1;
                }
                y = y + 1;
            }
            proof {
                lemma_count_val_le_len(map.data@, true);
            }
            if !changed {
                proof {
                    assert forall|ay: int, ax: int, by: int, bx: int| #[trigger] map.cell(ay, ax)
                        && #[trigger] open_cell(*self, by, bx) && manhattan(ay, ax, by, bx) == 1
                        && !map.cell(by, bx) implies false by {
                        assert(has_marked_neighbour(map, by, bx));
                    }
                }
                break;
            }
        }
        proof {
            assert forall|y: int, x: int| #[trigger] map.cell(y, x) == reachable(
                *self,
                sy,
                sx,
                y,
                x,
            ) by {
                if reachable(*self, sy, sx, y, x) {
                    let p = choose|p: Seq<(int, int)>|
                        #[trigger] is_open_path(*self, p) && p.first() == (sy, sx) && p.last() == (
                        y,
                        x,
                        );
                    lemma_closed_path(*self, map, p);
                }
            }
        }
        let n: usize = map.data.len();
        let mut r: usize = 0;
        let mut i: usize = 0;
        while i < n
            invariant
                n == map.data.len(),
                i <= n,
                r == count_val(map.data@.take(i as int), true),
                r <= i,
            decreases n - i,
        {
            proof {
                lemma_count_val_take_step(map.data@, true, i as int);
            }
            if map.data[i] {
                r = r + 1;
            }
            i = i + 1;
        }
        proof {
            lemma_count_val_take_all(map.data@, true);
            reveal(is_region_count);
            reveal(region_size);
            assert(is_region_count(*self, sy, sx, r as nat));
            lemma_region_count_unique(*self, sy, sx, region_size(*self, sy, sx), r as nat);
        }
        r
    }

    /// A uniformly chosen open cell, or `Err` when the grid has none.
    /// Which cell comes back depends on the random draw; it is always an
    /// open cell of the map.
    pub fn rand_false_pos(&self) -> (r: Result<Pos, ()>)
        requires
            self.wf(),
        ensures
            (r is Ok) == (count_val(self.data@, false) > 0),
            r matches Ok(p) ==> self.in_bounds(p.y as int, p.x as int) && !self.cell(
                p.y as int,
                p.x as int,
            ),
    {
        let nf: usize = self.nb_false();
        if nf == 0 {
            return Err(());
        }
        let draw: u16 = rand::random::<u16>();
        let n: usize = (draw as usize) % nf;
        let len: usize = self.data.len();
        let mut cnt: usize = 0;
        let mut i: usize = 0;
        while i < len
            invariant
                self.wf(),
                len == self.data.len(),
                i <= len,
                cnt == count_val(self.data@.take(i as int), false),
                cnt <= n,
                n < nf,
                nf == count_val(self.data@, false),
            decreases len - i,
        {
            proof {
                lemma_count_val_take_step(self.data@, false, i as int);
            }
            if !self.data[i] {
                if cnt == n {
                    proof {
                        assert(self.w > 0) by (nonlinear_arith)
                            requires
                                0 <= i < self.h * self.w,
                                0 <= self.h,
                                0 <= self.w,
                        ;
                        lemma_grid_unindex(self.h as int, self.w as int, i as int);
                    }
                    let p = Pos { y: i / self.w, x: i % self.w };
                    return Ok(p);
                }
                cnt = cnt + 1;
            }
            i = i + 1;
        }
        proof {
            lemma_count_val_take_all(self.data@, false);
        }
        vstd::pervasive::unreached::<Result<Pos, ()>>()
    }
}

/// Whether two coordinates differ by at most one.
pub open spec fn abs_diff_le_one(a: int, b: int) -> bool {
    -1 <= a - b <= 1
}

/// Whether `(y, x)` lies in the 3 x 3 block centred on `(py, px)`.
pub open spec fn near_cell(py: int, px: int, y: int, x: int) -> bool {
    abs_diff_le_one(y, py) && abs_diff_le_one(x, px)
}

impl Clone for Grid {
    /// A copy with the same size and cell contents.
    fn clone(&self) -> (r: Grid)
        ensures
            r.h == self.h,
            r.w == self.w,
            r.data@ == self.data@,
    {
        let mut data: Vec<bool> = Vec::new();
        let n: usize = self.data.len();
        let mut i: usize = 0;
        while i < n
            invariant
                n == self.data.len(),
                i <= n,
                data@ =~= self.data@.take(i as int),
            decreases n - i,
        {
            data.push(self.data[i]);
            i = i + 1;
        }
        proof {
            assert(data@ =~= self.data@);
        }
        Grid { h: self.h, w: self.w, data }
    }
}

impl PartialEq for Grid {
    /// Same size and same cell contents.
    fn eq(&self, other: &Grid) -> (r: bool) {
        if self.h != other.h || self.w != other.w || self.data.len() != other.data.len() {
            return false;
        }
        let n: usize = self.data.len();
        let mut i: usize = 0;
        while i < n
            invariant
                n == self.data.len(),
                n == other.data.len(),
                i <= n,
                forall|j: int| 0 <= j < i ==> self.data[j] == other.data[j],
            decreases n - i,
        {
            if self.data[i] != other.data[i] {
                return false;
            }
            i = i + 1;
        }
        proof {
            assert(self.data@ =~= other.data@);
        }
        true
    }
}

impl vstd::std_specs::cmp::PartialEqSpecImpl for Grid {
    open spec fn obeys_eq_spec() -> bool {
        true
    }

    open spec fn eq_spec(&self, other: &Grid) -> bool {
        self.h == other.h && self.w == other.w && self.data@ == other.data@
    }
}

} // verus!
