//! The fixed-size bit-packed grid: one `u16` word per row, one bit per
//! column, over the fixed 15 x 15 map. All set algebra runs whole words at
//! a time.

use vstd::prelude::*;

use crate::MAP_SIDE_SIZE;
use crate::grid::count_val;
use crate::pos::{Direction, IPos, Pos};

verus! {

/// A boolean grid over the fixed 15 x 15 map, one `u16` word per row; bit
/// `x` of word `y` is cell `(y, x)`. The top bit of each word is unused
/// and kept clear.
#[derive(Debug)]
pub struct NewMap {
    pub data: Vec<u16>,
}

/// Bit `x` of the row word `w`.
pub open spec fn bit_of(w: u16, x: int) -> bool {
    (w >> (x as u16)) & 1 == 1
}

/// Whether `(y, x)` lies on the fixed-size map.
pub open spec fn in_side(y: int, x: int) -> bool {
    0 <= y < 15 && 0 <= x < 15
}

impl NewMap {
    /// One word per row, with the unused top bit clear.
    pub open spec fn wf(self) -> bool {
        self.data.len() == 15 && forall|y: int| 0 <= y < 15 ==> (#[trigger] self.data[y]) < 0x8000
    }

    /// The value of cell `(y, x)`; `false` off the map.
    pub open spec fn bit(self, y: int, x: int) -> bool {
        in_side(y, x) && bit_of(self.data[y], x)
    }

    /// The set of cells holding `true`.
    pub open spec fn cells(self) -> Set<(int, int)> {
        Set::new(|p: (int, int)| self.bit(p.0, p.1))
    }
}

/// Writing one bit of a row word changes that bit alone and keeps the top
/// bit clear.
proof fn lemma_word_set_bit(w: u16, x: u16, vb: u16, b: u16)
    requires
        x < 15,
        b < 16,
        vb == 0 || vb == 1,
    ensures
        ((((w & !(1u16 << x)) | (vb << x)) >> b) & 1) == (if b == x {
            vb
        } else {
            (w >> b) & 1
        }),
        w < 0x8000 ==> ((w & !(1u16 << x)) | (vb << x)) < 0x8000,
{
    assert(((((w & !(1u16 << x)) | (vb << x)) >> b) & 1) == (if b == x {
        vb
    } else {
        (w >> b) & 1
    }) && (w < 0x8000 ==> ((w & !(1u16 << x)) | (vb << x)) < 0x8000)) by (bit_vector)
        requires
            x < 15,
            b < 16,
            vb == 0 || vb == 1,
    ;
}

/// Conjunction of row words conjoins their bits; the top bit stays clear.
proof fn lemma_word_and(a: u16, b: u16, i: u16)
    requires
        i < 16,
    ensures
        (((a & b) >> i) & 1 == 1) == (((a >> i) & 1 == 1) && ((b >> i) & 1 == 1)),
        a < 0x8000 ==> (a & b) < 0x8000,
{
    assert(((((a & b) >> i) & 1 == 1) == (((a >> i) & 1 == 1) && ((b >> i) & 1 == 1))) && (a
        < 0x8000 ==> (a & b) < 0x8000)) by (bit_vector)
        requires
            i < 16,
    ;
}

/// Disjunction of row words disjoins their bits; the top bit stays clear.
proof fn lemma_word_or(a: u16, b: u16, i: u16)
    requires
        i < 16,
    ensures
        (((a | b) >> i) & 1 == 1) == (((a >> i) & 1 == 1) || ((b >> i) & 1 == 1)),
        a < 0x8000 && b < 0x8000 ==> (a | b) < 0x8000,
{
    assert(((((a | b) >> i) & 1 == 1) == (((a >> i) & 1 == 1) || ((b >> i) & 1 == 1))) && (a
        < 0x8000 && b < 0x8000 ==> (a | b) < 0x8000)) by (bit_vector)
        requires
            i < 16,
    ;
}

/// Complementing a row word within the 15 used bits flips those bits and
/// keeps the top bit clear.
proof fn lemma_word_not(w: u16, i: u16)
    requires
        i < 16,
    ensures
        (((!w & 0x7FFF) >> i) & 1 == 1) == (i < 15 && !((w >> i) & 1 == 1)),
        (!w & 0x7FFF) < 0x8000,
{
    assert(((((!w & 0x7FFF) >> i) & 1 == 1) == (i < 15 && !((w >> i) & 1 == 1))) && (!w & 0x7FFF)
        < 0x8000) by (bit_vector)
        requires
            i < 16,
    ;
}

/// Shifting a row word left moves every bit toward higher columns; bits
/// pushed past the map edge are masked off.
proof fn lemma_word_shl(w: u16, n: u16, b: u16)
    requires
        n <= 15,
        b < 16,
    ensures
        ((((w << n) & 0x7FFF) >> b) & 1 == 1) == (n <= b && b < 15 && ((w >> ((b - n) as u16)) & 1 == 1)),
        ((w << n) & 0x7FFF) < 0x8000,
{
    assert((((((w << n) & 0x7FFF) >> b) & 1 == 1) == (n <= b && b < 15 && ((w >> ((b - n) as u16))
        & 1 == 1))) && ((w << n) & 0x7FFF) < 0x8000) by (bit_vector)
        requires
            n <= 15,
            b < 16,
    ;
}

/// Shifting a row word right moves every bit toward lower columns.
proof fn lemma_word_shr(w: u16, n: u16, b: u16)
    requires
        n <= 15,
        b < 16,
    ensures
        (((w >> n) >> b) & 1 == 1) == (b + n < 16 && ((w >> (b + n)) & 1 == 1)),
        w < 0x8000 ==> (w >> n) < 0x8000,
{
    assert(((((w >> n) >> b) & 1 == 1) == (b + n < 16 && ((w >> (b + n)) & 1 == 1))) && (w < 0x8000
        ==> (w >> n) < 0x8000)) by (bit_vector)
        requires
            n <= 15,
            b < 16,
    ;
}

/// A row word with the top bit clear has bit 15 unset.
proof fn lemma_word_top_clear(w: u16)
    requires
        w < 0x8000,
    ensures
        !((w >> 15) & 1 == 1),
{
    assert(!((w >> 15u16) & 1 == 1)) by (bit_vector)
        requires
            w < 0x8000,
    ;
}

/// The zero row word has no bits set.
proof fn lemma_word_zero(b: u16)
    requires
        b < 16,
    ensures
        !((0u16 >> b) & 1 == 1),
{
    assert(!((0u16 >> b) & 1 == 1)) by (bit_vector)
        requires
            b < 16,
    ;
}

impl NewMap {
    /// A fresh all-`false` grid.
    pub fn new() -> (r: NewMap)
        ensures
            r.wf(),
            forall|y: int, x: int| !(#[trigger] r.bit(y, x)),
    {
        let data: Vec<u16> = vec![0u16; MAP_SIDE_SIZE];
        let r = NewMap { data };
        proof {
            assert forall|y: int, x: int| !(#[trigger] r.bit(y, x)) by {
                if in_side(y, x) {
                    lemma_word_zero(x as u16);
                }
            }
        }
        r
    }

    /// Write one cell.
    pub fn set(&mut self, pos: Pos, value: bool)
        requires
            old(self).wf(),
            pos.y < 15,
            pos.x < 15,
        ensures
            final(self).wf(),
            final(self).bit(pos.y as int, pos.x as int) == value,
            forall|y: int, x: int|
                (y, x) != (pos.y as int, pos.x as int) ==> #[trigger] final(self).bit(y, x) == old(
                    self,
                ).bit(y, x),
    {
        let vb: u16 = if value {
            1
        } else {
            0
        };
        let x16: u16 = pos.x as u16;
        let w: u16 = self.data[pos.y];
        let w2: u16 = (w & !(1u16 << x16)) | (vb << x16);
        self.data[pos.y] = w2;
        proof {
            lemma_word_set_bit(w, x16, vb, x16);
            assert forall|y: int, x: int| (y, x) != (pos.y as int, pos.x as int)
                implies #[trigger] self.bit(y, x) == old(self).bit(y, x) by {
                if in_side(y, x) && y == pos.y as int {
                    lemma_word_set_bit(w, x16, vb, x as u16);
                }
            }
            assert forall|y: int| 0 <= y < 15 implies (#[trigger] self.data[y]) < 0x8000 by {
                if y == pos.y as int {
                    lemma_word_set_bit(w, x16, vb, 0);
                }
            }
        }
    }

    /// Read one cell.
    pub fn get(&self, pos: Pos) -> (r: bool)
        requires
            self.wf(),
            pos.y < 15,
            pos.x < 15,
        ensures
            r == self.bit(pos.y as int, pos.x as int),
    {
        let x16: u16 = pos.x as u16;
        let w: u16 = self.data[pos.y];
        let r: bool = w & (1u16 << x16) != 0;
        proof {
            assert((w & (1u16 << x16) != 0) == ((w >> x16) & 1 == 1)) by (bit_vector)
                requires
                    x16 < 15,
            ;
        }
        r
    }

    /// Overwrite this grid with the content of another.
    pub fn copy_from(&mut self, map: &NewMap)
        requires
            old(self).wf(),
            map.wf(),
        ensures
            final(self).wf(),
            forall|y: int, x: int| #[trigger] final(self).bit(y, x) == map.bit(y, x),
    {
        let mut i: usize = 0;
        while i < MAP_SIDE_SIZE
            invariant
                self.wf(),
                map.wf(),
                i <= 15,
                forall|j: int| 0 <= j < i ==> self.data[j] == map.data[j],
            decreases 15 - i,
        {
            let v: u16 = map.data[i];
            self.data[i] = v;
            i = i + 1;
        }
    }

    /// The grid set exactly where both are: `self and rhs`.
    pub fn and(&self, rhs: &NewMap) -> (r: NewMap)
        requires
            self.wf(),
            rhs.wf(),
        ensures
            r.wf(),
            forall|y: int, x: int| #[trigger] r.bit(y, x) == (self.bit(y, x) && rhs.bit(y, x)),
            r.cells() == self.cells().intersect(rhs.cells()),
    {
        let mut data: Vec<u16> = Vec::new();
        let mut i: usize = 0;
        while i < MAP_SIDE_SIZE
            invariant
                self.wf(),
                rhs.wf(),
                i <= 15,
                data.len() == i,
                forall|j: int| 0 <= j < i ==> #[trigger] data[j] == (self.data[j] & rhs.data[j]),
            decreases 15 - i,
        {
            data.push(self.data[i] & rhs.data[i]);
            i = i + 1;
        }
        let r = NewMap { data };
        proof {
            assert forall|y: int| 0 <= y < 15 implies (#[trigger] r.data[y]) < 0x8000 by {
                lemma_word_and(self.data[y] as u16, rhs.data[y] as u16, 0);
            }
            assert forall|y: int, x: int| #[trigger] r.bit(y, x) == (self.bit(y, x) && rhs.bit(
                y,
                x,
            )) by {
                if in_side(y, x) {
                    lemma_word_and(self.data[y] as u16, rhs.data[y] as u16, x as u16);
                }
            }
            assert(r.cells() =~= self.cells().intersect(rhs.cells()));
        }
        r
    }

    /// The grid set where either is: `self or rhs`.
    pub fn or(&self, rhs: &NewMap) -> (r: NewMap)
        requires
            self.wf(),
            rhs.wf(),
        ensures
            r.wf(),
            forall|y: int, x: int| #[trigger] r.bit(y, x) == (self.bit(y, x) || rhs.bit(y, x)),
            r.cells() == self.cells().union(rhs.cells()),
    {
        let mut data: Vec<u16> = Vec::new();
        let mut i: usize = 0;
        while i < MAP_SIDE_SIZE
            invariant
                self.wf(),
                rhs.wf(),
                i <= 15,
                data.len() == i,
                forall|j: int| 0 <= j < i ==> #[trigger] data[j] == (self.data[j] | rhs.data[j]),
            decreases 15 - i,
        {
            data.push(self.data[i] | rhs.data[i]);
            i = i + 1;
        }
        let r = NewMap { data };
        proof {
            assert forall|y: int| 0 <= y < 15 implies (#[trigger] r.data[y]) < 0x8000 by {
                lemma_word_or(self.data[y] as u16, rhs.data[y] as u16, 0);
            }
            assert forall|y: int, x: int| #[trigger] r.bit(y, x) == (self.bit(y, x) || rhs.bit(
                y,
                x,
            )) by {
                if in_side(y, x) {
                    lemma_word_or(self.data[y] as u16, rhs.data[y] as u16, x as u16);
                }
            }
            assert(r.cells() =~= self.cells().union(rhs.cells()));
        }
        r
    }

    /// The complement within the map.
    pub fn not(&self) -> (r: NewMap)
        requires
            self.wf(),
        ensures
            r.wf(),
            forall|y: int, x: int|
                #[trigger] r.bit(y, x) == (in_side(y, x) && !self.bit(y, x)),
            r.cells() == crate::grid::full_cells(15, 15).difference(self.cells()),
    {
        let mut data: Vec<u16> = Vec::new();
        let mut i: usize = 0;
        while i < MAP_SIDE_SIZE
            invariant
                self.wf(),
                i <= 15,
                data.len() == i,
                forall|j: int| 0 <= j < i ==> #[trigger] data[j] == (!self.data[j] & 0x7FFF),
            decreases 15 - i,
        {
            data.push(!self.data[i] & 0x7FFF);
            i = i + 1;
        }
        let r = NewMap { data };
        proof {
            assert forall|y: int| 0 <= y < 15 implies (#[trigger] r.data[y]) < 0x8000 by {
                lemma_word_not(self.data[y] as u16, 0);
            }
            assert forall|y: int, x: int| #[trigger] r.bit(y, x) == (in_side(y, x) && !self.bit(
                y,
                x,
            )) by {
                if in_side(y, x) {
                    lemma_word_not(self.data[y] as u16, x as u16);
                }
            }
            assert(r.cells() =~= crate::grid::full_cells(15, 15).difference(self.cells()));
        }
        r
    }
}

/// The value cell `(y, x)` takes after every set cell of `m` moves `n`
/// steps in direction `d`. Cells moved off the map are dropped; cells with
/// no source are `false`.
pub open spec fn shifted_bit(m: NewMap, d: Direction, n: int, y: int, x: int) -> bool {
    in_side(y, x) && match d {
        Direction::N => m.bit(y + n, x),
        Direction::S => m.bit(y - n, x),
        Direction::E => m.bit(y, x - n),
        Direction::W => m.bit(y, x + n),
    }
}

impl NewMap {
    /// Move every set cell `n` steps in direction `dir`, dropping cells
    /// that leave the map.
    pub fn shift(&mut self, dir: &Direction, n: usize)
        requires
            old(self).wf(),
            n <= 15,
        ensures
            final(self).wf(),
            forall|y: int, x: int|
                #[trigger] final(self).bit(y, x) == shifted_bit(*old(self), *dir, n as int, y, x),
    {
        let ghost orig = *self;
        match dir {
            Direction::N => {
                let mut data: Vec<u16> = Vec::new();
                let mut y: usize = 0;
                while y < MAP_SIDE_SIZE
                    invariant
                        *self == orig,
                        orig.wf(),
                        y <= 15,
                        n <= 15,
                        data.len() == y,
                        forall|j: int|
                            0 <= j < y ==> #[trigger] data[j] == (if j + n < 15 {
                                orig.data[j + n]
                            } else {
                                0u16
                            }),
                    decreases 15 - y,
                {
                    if y + n < MAP_SIDE_SIZE {
                        data.push(self.data[y + n]);
                    } else {
                        data.push(0u16);
                    }
                    y = y + 1;
                }
                self.data = data;
                proof {
                    assert forall|yy: int, xx: int| #[trigger] self.bit(yy, xx) == shifted_bit(
                        orig,
                        *dir,
                        n as int,
                        yy,
                        xx,
                    ) by {
                        if in_side(yy, xx) && !(yy + n < 15) {
                            lemma_word_zero(xx as u16);
                        }
                    }
                }
            },
            Direction::S => {
                let mut data: Vec<u16> = Vec::new();
                let mut y: usize = 0;
                while y < MAP_SIDE_SIZE
                    invariant
                        *self == orig,
                        orig.wf(),
                        y <= 15,
                        n <= 15,
                        data.len() == y,
                        forall|j: int|
                            0 <= j < y ==> #[trigger] data[j] == (if j - n >= 0 {
                                orig.data[j - n]
                            } else {
                                0u16
                            }),
                    decreases 15 - y,
                {
                    if y >= n {
                        data.push(self.data[y - n]);
                    } else {
                        data.push(0u16);
                    }
                    y = y + 1;
                }
                self.data = data;
                proof {
                    assert forall|yy: int, xx: int| #[trigger] self.bit(yy, xx) == shifted_bit(
                        orig,
                        *dir,
                        n as int,
                        yy,
                        xx,
                    ) by {
                        if in_side(yy, xx) && !(yy - n >= 0) {
                            lemma_word_zero(xx as u16);
                        }
                    }
                }
            },
            Direction::E => {
                let n16: u16 = n as u16;
                let mut y: usize = 0;
                while y < MAP_SIDE_SIZE
                    invariant
                        self.data.len() == 15,
                        orig.wf(),
                        y <= 15,
                        n <= 15,
                        n16 == n as u16,
                        forall|j: int|
                            0 <= j < y ==> #[trigger] self.data[j] == ((orig.data[j] << n16)
                                & 0x7FFF),
                        forall|j: int| y <= j < 15 ==> #[trigger] self.data[j] == orig.data[j],
                    decreases 15 - y,
                {
                    let w: u16 = self.data[y];
                    self.data[y] = (w << n16) & 0x7FFF;
                    y = y + 1;
                }
                proof {
                    assert forall|yy: int| 0 <= yy < 15 implies (#[trigger] self.data[yy])
                        < 0x8000 by {
                        lemma_word_shl(orig.data[yy] as u16, n16, 0);
                    }
                    assert forall|yy: int, xx: int| #[trigger] self.bit(yy, xx) == shifted_bit(
                        orig,
                        *dir,
                        n as int,
                        yy,
                        xx,
                    ) by {
                        if in_side(yy, xx) {
                            lemma_word_shl(orig.data[yy] as u16, n16, xx as u16);
                        }
                    }
                }
            },
            Direction::W => {
                let n16: u16 = n as u16;
                let mut y: usize = 0;
                while y < MAP_SIDE_SIZE
                    invariant
                        self.data.len() == 15,
                        orig.wf(),
                        y <= 15,
                        n <= 15,
                        n16 == n as u16,
                        forall|j: int| 0 <= j < y ==> #[trigger] self.data[j] == (orig.data[j] >> n16),
                        forall|j: int| y <= j < 15 ==> #[trigger] self.data[j] == orig.data[j],
                    decreases 15 - y,
                {
                    let w: u16 = self.data[y];
                    self.data[y] = w >> n16;
                    y = y + 1;
                }
                proof {
                    assert forall|yy: int| 0 <= yy < 15 implies (#[trigger] self.data[yy])
                        < 0x8000 by {
                        lemma_word_shr(orig.data[yy] as u16, n16, 0);
                    }
                    assert forall|yy: int, xx: int| #[trigger] self.bit(yy, xx) == shifted_bit(
                        orig,
                        *dir,
                        n as int,
                        yy,
                        xx,
                    ) by {
                        if in_side(yy, xx) {
                            lemma_word_shr(orig.data[yy] as u16, n16, xx as u16);
                            if xx + n == 15 {
                                lemma_word_top_clear(orig.data[yy] as u16);
                            }
                        }
                    }
                }
            },
        }
    }

    /// A copy of this grid with every set cell moved by the given signed
    /// offset, dropping cells that leave the map.
    pub fn ipos_shift(&self, pos_shift: IPos) -> (r: NewMap)
        requires
            self.wf(),
            -15 <= pos_shift.x <= 15,
            -15 <= pos_shift.y <= 15,
        ensures
            r.wf(),
            forall|y: int, x: int|
                #[trigger] r.bit(y, x) == (in_side(y, x) && self.bit(
                    y - pos_shift.y,
                    x - pos_shift.x,
                )),
    {
        let mut ret = self.clone();
        if pos_shift.y < 0 {
            ret.shift(&Direction::N, (-pos_shift.y) as usize);
        } else if pos_shift.y > 0 {
            ret.shift(&Direction::S, pos_shift.y as usize);
        }
        if pos_shift.x < 0 {
            ret.shift(&Direction::W, (-pos_shift.x) as usize);
        } else if pos_shift.x > 0 {
            ret.shift(&Direction::E, pos_shift.x as usize);
        }
        ret
    }
}

/// The sixteen bits of a row word, lowest first.
pub open spec fn word_bits(w: u16) -> Seq<bool> {
    Seq::new(16, |i: int| bit_of(w, i))
}

/// How many bits of `n` are set.
pub fn nb_true_bits(n: u16) -> (r: u8)
    ensures
        r == count_val(word_bits(n), true),
{
    let mut ret: u8 = 0;
    let mut i: usize = 0;
    while i < 16
        invariant
            i <= 16,
            ret == count_val(word_bits(n).take(i as int), true),
            ret <= i,
        decreases 16 - i,
    {
        proof {
            crate::grid::lemma_count_val_take_step(word_bits(n), true, i as int);
        }
        let i16: u16 = i as u16;
        if (n >> i16) & 0x01 == 1 {
            ret = ret + 1;
        }
        i = i + 1;
    }
    proof {
        crate::grid::lemma_count_val_take_all(word_bits(n), true);
    }
    ret
}

/// How many bits of `n` are clear.
pub fn nb_false_bits(n: u16) -> (r: u8)
    ensures
        r == count_val(word_bits(n), false),
{
    let mut ret: u8 = 0;
    let mut i: usize = 0;
    while i < 16
        invariant
            i <= 16,
            ret == count_val(word_bits(n).take(i as int), false),
            ret <= i,
        decreases 16 - i,
    {
        proof {
            crate::grid::lemma_count_val_take_step(word_bits(n), false, i as int);
        }
        let i16: u16 = i as u16;
        proof {
            assert(((n >> i16) & 0x01 == 0) == !((n >> i16) & 1 == 1)) by (bit_vector);
        }
        if (n >> i16) & 0x01 == 0 {
            ret = ret + 1;
        }
        i = i + 1;
    }
    proof {
        crate::grid::lemma_count_val_take_all(word_bits(n), false);
    }
    ret
}

/// The cells of the fixed-size grid flattened row-major into one sequence.
pub open spec fn bits_seq(m: NewMap) -> Seq<bool> {
    Seq::new(225, |i: int| m.bit(i / 15, i % 15))
}

/// How many cells of `m` hold `v`.
pub open spec fn spec_count(m: NewMap, v: bool) -> nat {
    count_val(bits_seq(m), v)
}

impl NewMap {
    /// How many cells hold `value`.
    pub fn count(&self, value: bool) -> (r: usize)
        requires
            self.wf(),
        ensures
            r == spec_count(*self, value),
    {
        let mut r: usize = 0;
        let mut idx: usize = 0;
        let mut y: usize = 0;
        while y < MAP_SIDE_SIZE
            invariant
                self.wf(),
                y <= 15,
                idx == y * 15,
                r == count_val(bits_seq(*self).take(idx as int), value),
                r <= idx,
            decreases 15 - y,
        {
            let mut x: usize = 0;
            while x < MAP_SIDE_SIZE
                invariant
                    self.wf(),
                    y < 15,
                    x <= 15,
                    idx == y * 15 + x,
                    r == count_val(bits_seq(*self).take(idx as int), value),
                    r <= idx,
                decreases 15 - x,
            {
                proof {
                    crate::grid::lemma_count_val_take_step(bits_seq(*self), value, idx as int);
                    crate::grid::lemma_grid_index(15, 15, y as int, x as int);
                }
                if self.get(Pos { x, y }) == value {
                    r = r + 1;
                }
                x = x + 1;
                idx = idx + 1;
            }
            y = y + 1;
        }
        proof {
            crate::grid::lemma_count_val_take_all(bits_seq(*self), value);
        }
        r
    }

    /// The first cell holding `value`, scanning row by row and, within a
    /// row, column by column; `Err` when no cell does.
    pub fn first_match(&self, value: bool) -> (r: Result<Pos, ()>)
        requires
            self.wf(),
        ensures
            match r {
                Ok(p) => p.y < 15 && p.x < 15 && self.bit(p.y as int, p.x as int) == value
                    && forall|y: int, x: int|
                    in_side(y, x) && (y < p.y || (y == p.y && x < p.x)) ==> #[trigger] self.bit(
                        y,
                        x,
                    ) != value,
                Err(_) => forall|y: int, x: int|
                    in_side(y, x) ==> #[trigger] self.bit(y, x) != value,
            },
    {
        let mut y: usize = 0;
        while y < MAP_SIDE_SIZE
            invariant
                self.wf(),
                y <= 15,
                forall|yy: int, xx: int|
                    in_side(yy, xx) && yy < y ==> #[trigger] self.bit(yy, xx) != value,
            decreases 15 - y,
        {
            let mut x: usize = 0;
            while x < MAP_SIDE_SIZE
                invariant
                    self.wf(),
                    y < 15,
                    x <= 15,
                    forall|yy: int, xx: int|
                        in_side(yy, xx) && yy < y ==> #[trigger] self.bit(yy, xx) != value,
                    forall|xx: int|
                        0 <= xx < x ==> #[trigger] self.bit(y as int, xx) != value,
                decreases 15 - x,
            {
                if self.get(Pos { x, y }) == value {
                    return Ok(Pos { x, y });
                }
                x = x + 1;
            }
            y = y + 1;
        }
        Err(())
    }
}

/// Whether some set cell of `src`, with the kernel `ker` laid over it so
/// that `off` lands on that cell, puts a set kernel cell on `(y, x)`.
pub open spec fn composed_bit(src: NewMap, ker: NewMap, off: Pos, y: int, x: int) -> bool {
    in_side(y, x) && exists|q: (int, int)|
        #[trigger] src.bit(q.0, q.1) && ker.bit(y - q.0 + off.y, x - q.1 + off.x)
}

impl NewMap {
    /// For every set cell `c` of `self`, union into the result a copy of
    /// `map` translated so that `map_offset` lands on `c`: a discrete
    /// convolution of the cell set with a fixed kernel.
    pub fn compose(&self, map: &NewMap, map_offset: &Pos) -> (r: NewMap)
        requires
            self.wf(),
            map.wf(),
            map_offset.y < 15,
            map_offset.x < 15,
        ensures
            r.wf(),
            forall|y: int, x: int|
                #[trigger] r.bit(y, x) == composed_bit(*self, *map, *map_offset, y, x),
    {
        let mut ret = NewMap::new();
        let mut y: usize = 0;
        while y < MAP_SIDE_SIZE
            invariant
                self.wf(),
                map.wf(),
                ret.wf(),
                map_offset.y < 15,
                map_offset.x < 15,
                y <= 15,
                forall|by: int, bx: int|
                    #[trigger] ret.bit(by, bx) == (in_side(by, bx) && exists|q: (int, int)|
                        q.0 < y && #[trigger] self.bit(q.0, q.1) && map.bit(
                            by - q.0 + map_offset.y,
                            bx - q.1 + map_offset.x,
                        )),
            decreases 15 - y,
        {
            let mut x: usize = 0;
            while x < MAP_SIDE_SIZE
                invariant
                    self.wf(),
                    map.wf(),
                    ret.wf(),
                    map_offset.y < 15,
                    map_offset.x < 15,
                    y < 15,
                    x <= 15,
                    forall|by: int, bx: int|
                        #[trigger] ret.bit(by, bx) == (in_side(by, bx) && exists|q: (int, int)|
                            (q.0 < y || (q.0 == y && q.1 < x)) && #[trigger] self.bit(q.0, q.1)
                                && map.bit(by - q.0 + map_offset.y, bx - q.1 + map_offset.x)),
                decreases 15 - x,
            {
                let c = Pos { x, y };
                let ghost pre = ret;
                if self.get(c) {
                    let sh: IPos = c.isub(map_offset);
                    let shifted = map.ipos_shift(sh);
                    ret = ret.or(&shifted);
                    proof {
                        assert forall|by: int, bx: int| #[trigger] ret.bit(by, bx) == (in_side(
                            by,
                            bx,
                        ) && exists|q: (int, int)|
                            (q.0 < y || (q.0 == y && q.1 < x + 1)) && #[trigger] self.bit(q.0, q.1)
                                && map.bit(by - q.0 + map_offset.y, bx - q.1 + map_offset.x)) by {
                            if ret.bit(by, bx) {
                                if pre.bit(by, bx) {
                                    let q = choose|q: (int, int)|
                                        (q.0 < y || (q.0 == y && q.1 < x)) && #[trigger] self.bit(
                                            q.0,
                                            q.1,
                                        ) && map.bit(
                                            by - q.0 + map_offset.y,
                                            bx - q.1 + map_offset.x,
                                        );
                                    assert((q.0 < y || (q.0 == y && q.1 < x + 1)) && self.bit(
                                        q.0,
                                        q.1,
                                    ) && map.bit(by - q.0 + map_offset.y, bx - q.1 + map_offset.x));
                                } else {
                                    let q: (int, int) = (y as int, x as int);
                                    assert((q.0 < y || (q.0 == y && q.1 < x + 1)) && self.bit(
                                        q.0,
                                        q.1,
                                    ) && map.bit(by - q.0 + map_offset.y, bx - q.1 + map_offset.x));
                                }
                            } else {
                                if in_side(by, bx) {
                                    assert forall|q: (int, int)|
                                        (q.0 < y || (q.0 == y && q.1 < x + 1)) && #[trigger] self
                                            .bit(q.0, q.1) implies !map.bit(
                                        by - q.0 + map_offset.y,
                                        bx - q.1 + map_offset.x,
                                    ) by {
                                        if q.0 < y || (q.0 == y && q.1 < x) {
                                            assert(!pre.bit(by, bx));
                                        }
                                    }
                                }
                            }
                        }
                    }
                } else {
                    proof {
                        assert forall|by: int, bx: int| #[trigger] ret.bit(by, bx) == (in_side(
                            by,
                            bx,
                        ) && exists|q: (int, int)|
                            (q.0 < y || (q.0 == y && q.1 < x + 1)) && #[trigger] self.bit(q.0, q.1)
                                && map.bit(by - q.0 + map_offset.y, bx - q.1 + map_offset.x)) by {
                            if !ret.bit(by, bx) && in_side(by, bx) {
                                assert forall|q: (int, int)|
                                    (q.0 < y || (q.0 == y && q.1 < x + 1)) && #[trigger] self.bit(
                                        q.0,
                                        q.1,
                                    ) implies !map.bit(
                                    by - q.0 + map_offset.y,
                                    bx - q.1 + map_offset.x,
                                ) by {
                                    if q.0 < y || (q.0 == y && q.1 < x) {
                                        assert(!pre.bit(by, bx));
                                    } else {
                                        assert(q == (y as int, x as int));
                                        assert(!self.bit(q.0, q.1));
                                    }
                                }
                            }
                        }
                    }
                }
                x = x + 1;
            }
            y = y + 1;
        }
        proof {
            assert forall|y: int, x: int| #[trigger] ret.bit(y, x) == composed_bit(
                *self,
                *map,
                *map_offset,
                y,
                x,
            ) by {
                if in_side(y, x) {
                    if ret.bit(y, x) {
                        let q = choose|q: (int, int)|
                            q.0 < 15 && #[trigger] self.bit(q.0, q.1) && map.bit(
                                y - q.0 + map_offset.y,
                                x - q.1 + map_offset.x,
                            );
                        assert(self.bit(q.0, q.1) && map.bit(
                            y - q.0 + map_offset.y,
                            x - q.1 + map_offset.x,
                        ));
                    }
                    if composed_bit(*self, *map, *map_offset, y, x) {
                        let q = choose|q: (int, int)|
                            #[trigger] self.bit(q.0, q.1) && map.bit(
                                y - q.0 + map_offset.y,
                                x - q.1 + map_offset.x,
                            );
                        assert(q.0 < 15 && self.bit(q.0, q.1) && map.bit(
                            y - q.0 + map_offset.y,
                            x - q.1 + map_offset.x,
                        ));
                    }
                }
            }
        }
        ret
    }
}

/// A count of zero means no cell holds `v`, and the other way round.
pub proof fn lemma_spec_count_zero(m: NewMap, v: bool)
    requires
        m.wf(),
    ensures
        (spec_count(m, v) == 0) == (forall|y: int, x: int|
            in_side(y, x) ==> #[trigger] m.bit(y, x) != v),
{
    if spec_count(m, v) == 0 {
        assert forall|y: int, x: int| in_side(y, x) implies #[trigger] m.bit(y, x) != v by {
            if m.bit(y, x) == v {
                crate::grid::lemma_grid_index(15, 15, y, x);
                assert(bits_seq(m)[y * 15 + x] == v);
                crate::grid::lemma_count_val_pos(bits_seq(m), v, y * 15 + x);
            }
        }
    }
    if forall|y: int, x: int| in_side(y, x) ==> #[trigger] m.bit(y, x) != v {
        assert forall|i: int| 0 <= i < 225 implies bits_seq(m)[i] != v by {
            crate::grid::lemma_grid_unindex(15, 15, i);
            assert(m.bit(i / 15, i % 15) != v);
        }
        crate::grid::lemma_count_val_none(bits_seq(m), v);
    }
}

/// With a count of one, the one cell found holding `v` is the only one.
pub proof fn lemma_spec_count_one(m: NewMap, v: bool, py: int, px: int)
    requires
        m.wf(),
        spec_count(m, v) == 1,
        in_side(py, px),
        m.bit(py, px) == v,
    ensures
        forall|y: int, x: int|
            in_side(y, x) ==> ((#[trigger] m.bit(y, x) == v) == (y == py && x == px)),
{
    assert forall|y: int, x: int| in_side(y, x) implies ((#[trigger] m.bit(y, x) == v) == (y == py
        && x == px)) by {
        if m.bit(y, x) == v && (y != py || x != px) {
            crate::grid::lemma_grid_index(15, 15, y, x);
            crate::grid::lemma_grid_index(15, 15, py, px);
            let i = y * 15 + x;
            let j = py * 15 + px;
            if i == j {
                crate::grid::lemma_grid_index_inj(15, py, px, y, x);
            }
            assert(bits_seq(m)[i] == v && bits_seq(m)[j] == v);
            if i < j {
                crate::grid::lemma_count_val_ge_two(bits_seq(m), v, i, j);
            } else {
                crate::grid::lemma_count_val_ge_two(bits_seq(m), v, j, i);
            }
        }
    }
}

/// A grid holding `v` on exactly one cell counts one.
pub proof fn lemma_spec_count_singleton(m: NewMap, v: bool, py: int, px: int)
    requires
        m.wf(),
        in_side(py, px),
        m.bit(py, px) == v,
        forall|y: int, x: int|
            in_side(y, x) && (y, x) != (py, px) ==> #[trigger] m.bit(y, x) != v,
    ensures
        spec_count(m, v) == 1,
{
    crate::grid::lemma_grid_index(15, 15, py, px);
    let j = py * 15 + px;
    assert forall|i: int| 0 <= i < 225 && i != j implies bits_seq(m)[i] != v by {
        crate::grid::lemma_grid_unindex(15, 15, i);
        let y = i / 15;
        let x = i % 15;
        if (y, x) == (py, px) {
            assert(i == y * 15 + x);
        } else {
            assert(m.bit(y, x) != v);
        }
    }
    crate::grid::lemma_count_val_single(bits_seq(m), v, j);
}

impl Clone for NewMap {
    /// A copy with the same cells.
    fn clone(&self) -> (r: NewMap)
        ensures
            r.data@ == self.data@,
    {
        let mut data: Vec<u16> = Vec::new();
        let mut i: usize = 0;
        while i < self.data.len()
            invariant
                i <= self.data.len(),
                data@ =~= self.data@.take(i as int),
            decreases self.data.len() - i,
        {
            data.push(self.data[i]);
            i = i + 1;
        }
        proof {
            assert(data@ =~= self.data@);
        }
        NewMap { data }
    }
}

impl PartialEq for NewMap {
    /// Same row words, hence the same cells.
    fn eq(&self, other: &NewMap) -> (r: bool) {
        if self.data.len() != other.data.len() {
            return false;
        }
        let mut i: usize = 0;
        while i < self.data.len()
            invariant
                self.data.len() == other.data.len(),
                i <= self.data.len(),
                forall|j: int| 0 <= j < i ==> self.data[j] == other.data[j],
            decreases self.data.len() - i,
        {
            if self.data[i] != other.data[i] {
                return false;
            }
            i = i + 1;
        }
        proof {
            assert(self.data@ =~= other.data@);
        }
        true
    }
}

impl vstd::std_specs::cmp::PartialEqSpecImpl for NewMap {
    open spec fn obeys_eq_spec() -> bool {
        true
    }

    open spec fn eq_spec(&self, other: &NewMap) -> bool {
        self.data@ == other.data@
    }
}

} // verus!
