//! The static mask tables: the nine sector masks, the attack range mask,
//! the glancing-hit neighbourhood mask, and the stealth-move range mask.
//! All are built once at startup and then only read.

use vstd::prelude::*;

use crate::NB_SECTORS;
use crate::bitgrid::{NewMap, in_side};
use crate::grid::spec_sector;
use crate::pos::{Pos, manhattan};

verus! {

/// A fixed-size grid together with the cell of it that translation anchors
/// on: the "origin" of the kernel.
#[derive(Debug, Clone)]
pub struct OffCenteredMap {
    pub map: NewMap,
    pub offset: Pos,
}

impl OffCenteredMap {
    /// An empty kernel anchored at the top-left corner.
    pub fn new() -> (r: OffCenteredMap)
        ensures
            r.map.wf(),
            forall|y: int, x: int| !(#[trigger] r.map.bit(y, x)),
            r.offset == (Pos { y: 0, x: 0 }),
    {
        OffCenteredMap { map: NewMap::new(), offset: Pos { y: 0, x: 0 } }
    }
}

/// Cell `(y, x)` of the mask of sector `s`: the sectors split the fixed
/// map into nine equal squares, numbered 1 to 9 in row-major order.
pub open spec fn sector_bit(s: int, y: int, x: int) -> bool {
    in_side(y, x) && spec_sector(15, 15, y, x) == s
}

/// Cell `(y, x)` of the attack range kernel: within Manhattan distance 4
/// of the kernel origin `(4, 4)`.
pub open spec fn torpedo_range_bit(y: int, x: int) -> bool {
    in_side(y, x) && manhattan(y, x, 4, 4) <= 4
}

/// Cell `(y, x)` of the glancing-hit kernel: the 3 x 3 block around the
/// kernel origin `(1, 1)`, without the origin itself.
pub open spec fn side_hit_bit(y: int, x: int) -> bool {
    0 <= y < 3 && 0 <= x < 3 && !(y == 1 && x == 1)
}

/// Cell `(y, x)` of the stealth range kernel: reachable from the kernel
/// origin `(4, 4)` by moving up to 4 steps along one axis — a cross, not a
/// diamond. Whether the origin itself (a move of zero steps) belongs to
/// the kernel is a convention the caller picks.
pub open spec fn silence_bit(stay_allowed: bool, y: int, x: int) -> bool {
    ((y == 4 && 0 <= x <= 8) || (x == 4 && 0 <= y <= 8)) && (stay_allowed || !(y == 4 && x == 4))
}

fn build_sector_mask(s: usize) -> (r: NewMap)
    requires
        1 <= s <= 9,
    ensures
        r.wf(),
        forall|y: int, x: int| #[trigger] r.bit(y, x) == sector_bit(s as int, y, x),
{
    let sy: usize = (s - 1) / 3;
    let sx: usize = (s - 1) % 3;
    let mut m = NewMap::new();
    let mut y: usize = 0;
    while y < 15
        invariant
            m.wf(),
            y <= 15,
            1 <= s <= 9,
            sy == (s - 1) / 3,
            sx == (s - 1) % 3,
            forall|yy: int, xx: int|
                #[trigger] m.bit(yy, xx) == (yy < y && sector_bit(s as int, yy, xx)),
        decreases 15 - y,
    {
        let mut x: usize = 0;
        while x < 15
            invariant
                m.wf(),
                y < 15,
                x <= 15,
                1 <= s <= 9,
                sy == (s - 1) / 3,
                sx == (s - 1) % 3,
                forall|yy: int, xx: int|
                    #[trigger] m.bit(yy, xx) == ((yy < y || (yy == y && xx < x)) && sector_bit(
                        s as int,
                        yy,
                        xx,
                    )),
            decreases 15 - x,
        {
            let v: bool = y / 5 == sy && x / 5 == sx;
            m.set(Pos { x, y }, v);
            x = x + 1;
        }
        y = y + 1;
    }
    m
}

fn build_torpedo_range() -> (r: NewMap)
    ensures
        r.wf(),
        forall|y: int, x: int| #[trigger] r.bit(y, x) == torpedo_range_bit(y, x),
{
    let mut m = NewMap::new();
    let mut y: usize = 0;
    while y < 15
        invariant
            m.wf(),
            y <= 15,
            forall|yy: int, xx: int|
                #[trigger] m.bit(yy, xx) == (yy < y && torpedo_range_bit(yy, xx)),
        decreases 15 - y,
    {
        let mut x: usize = 0;
        while x < 15
            invariant
                m.wf(),
                y < 15,
                x <= 15,
                forall|yy: int, xx: int|
                    #[trigger] m.bit(yy, xx) == ((yy < y || (yy == y && xx < x))
                        && torpedo_range_bit(yy, xx)),
            decreases 15 - x,
        {
            let dy: usize = if y >= 4 {
                y - 4
            } else {
                4 - y
            };
            let dx: usize = if x >= 4 {
                x - 4
            } else {
                4 - x
            };
            let v: bool = dy + dx <= 4;
            m.set(Pos { x, y }, v);
            x = x + 1;
        }
        y = y + 1;
    }
    m
}

fn build_side_hit() -> (r: NewMap)
    ensures
        r.wf(),
        forall|y: int, x: int| #[trigger] r.bit(y, x) == side_hit_bit(y, x),
{
    let mut m = NewMap::new();
    let mut y: usize = 0;
    while y < 15
        invariant
            m.wf(),
            y <= 15,
            forall|yy: int, xx: int| #[trigger] m.bit(yy, xx) == (yy < y && side_hit_bit(yy, xx)),
        decreases 15 - y,
    {
        let mut x: usize = 0;
        while x < 15
            invariant
                m.wf(),
                y < 15,
                x <= 15,
                forall|yy: int, xx: int|
                    #[trigger] m.bit(yy, xx) == ((yy < y || (yy == y && xx < x)) && side_hit_bit(
                        yy,
                        xx,
                    )),
            decreases 15 - x,
        {
            let v: bool = y < 3 && x < 3 && !(y == 1 && x == 1);
            m.set(Pos { x, y }, v);
            x = x + 1;
        }
        y = y + 1;
    }
    m
}

fn build_silence_range(stay_allowed: bool) -> (r: NewMap)
    ensures
        r.wf(),
        forall|y: int, x: int| #[trigger] r.bit(y, x) == silence_bit(stay_allowed, y, x),
{
    let mut m = NewMap::new();
    let mut y: usize = 0;
    while y < 15
        invariant
            m.wf(),
            y <= 15,
            forall|yy: int, xx: int|
                #[trigger] m.bit(yy, xx) == (yy < y && silence_bit(stay_allowed, yy, xx)),
        decreases 15 - y,
    {
        let mut x: usize = 0;
        while x < 15
            invariant
                m.wf(),
                y < 15,
                x <= 15,
                forall|yy: int, xx: int|
                    #[trigger] m.bit(yy, xx) == ((yy < y || (yy == y && xx < x)) && silence_bit(
                        stay_allowed,
                        yy,
                        xx,
                    )),
            decreases 15 - x,
        {
            let cross: bool = (y == 4 && x <= 8) || (x == 4 && y <= 8);
            let v: bool = cross && (stay_allowed || !(y == 4 && x == 4));
            m.set(Pos { x, y }, v);
            x = x + 1;
        }
        y = y + 1;
    }
    m
}

/// The fixed mask tables every transition rule reads. Built once by
/// [`MaskTables::new`] and then treated as read-only: nothing here is ever
/// written again.
#[derive(Debug, Clone)]
pub struct MaskTables {
    pub sector_mask: Vec<NewMap>,
    pub torpedo_range: OffCenteredMap,
    pub torpedo_side_hit: OffCenteredMap,
    pub silence_range: OffCenteredMap,
    pub stay_allowed: bool,
}

impl MaskTables {
    /// The tables hold exactly the masks the rules describe.
    pub open spec fn wf(self) -> bool {
        &&& self.sector_mask.len() == 9
        &&& forall|s: int, y: int, x: int|
            1 <= s <= 9 ==> (#[trigger] self.sector_mask[s - 1].bit(y, x)) == sector_bit(s, y, x)
        &&& forall|s: int| 0 <= s < 9 ==> (#[trigger] self.sector_mask[s]).wf()
        &&& self.torpedo_range.map.wf()
        &&& self.torpedo_range.offset == (Pos { y: 4, x: 4 })
        &&& forall|y: int, x: int|
            #[trigger] self.torpedo_range.map.bit(y, x) == torpedo_range_bit(y, x)
        &&& self.torpedo_side_hit.map.wf()
        &&& self.torpedo_side_hit.offset == (Pos { y: 1, x: 1 })
        &&& forall|y: int, x: int|
            #[trigger] self.torpedo_side_hit.map.bit(y, x) == side_hit_bit(y, x)
        &&& self.silence_range.map.wf()
        &&& self.silence_range.offset == (Pos { y: 4, x: 4 })
        &&& forall|y: int, x: int|
            #[trigger] self.silence_range.map.bit(y, x) == silence_bit(self.stay_allowed, y, x)
    }

    /// Build every static mask. `stay_allowed` picks the convention for
    /// the stealth kernel: whether a stealth move of zero steps keeps the
    /// mover on its own cell.
    pub fn new(stay_allowed: bool) -> (r: MaskTables)
        ensures
            r.wf(),
            r.stay_allowed == stay_allowed,
    {
        let mut sector_mask: Vec<NewMap> = Vec::new();
        let mut s: usize = 1;
        while s <= NB_SECTORS
            invariant
                1 <= s <= 10,
                sector_mask.len() == s - 1,
                forall|j: int, y: int, x: int|
                    1 <= j < s ==> (#[trigger] sector_mask[j - 1].bit(y, x)) == sector_bit(j, y, x),
                forall|j: int| 0 <= j < s - 1 ==> (#[trigger] sector_mask[j]).wf(),
            decreases 10 - s,
        {
            let m = build_sector_mask(s);
            sector_mask.push(m);
            s = s + 1;
        }
        let torpedo_range = OffCenteredMap { map: build_torpedo_range(), offset: Pos { y: 4, x: 4 } };
        let torpedo_side_hit = OffCenteredMap { map: build_side_hit(), offset: Pos { y: 1, x: 1 } };
        let silence_range = OffCenteredMap {
            map: build_silence_range(stay_allowed),
            offset: Pos { y: 4, x: 4 },
        };
        MaskTables { sector_mask, torpedo_range, torpedo_side_hit, silence_range, stay_allowed }
    }
}

} // verus!
