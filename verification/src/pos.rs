//! Positions, signed offsets, and the four axis directions.

use vstd::prelude::*;

verus! {

/// A cell of the map: column `x`, row `y`. Both grow to the east and south.
#[derive(Debug, Clone, PartialEq, Eq, Structural, Copy)]
pub struct Pos {
    pub x: usize,
    pub y: usize,
}

/// A signed offset between two positions.
#[derive(Debug, Clone, PartialEq, Eq, Structural, Copy)]
pub struct IPos {
    pub x: isize,
    pub y: isize,
}

/// One of the four axis directions an announced move can take.
#[derive(Debug, Clone, PartialEq, Eq, Structural, Copy)]
pub enum Direction {
    N,
    E,
    S,
    W,
}

/// Absolute value of a mathematical integer.
pub open spec fn abs_int(v: int) -> int {
    if v < 0 {
        -v
    } else {
        v
    }
}

/// Manhattan distance between two cells, on mathematical integers.
pub open spec fn manhattan(ay: int, ax: int, by: int, bx: int) -> int {
    abs_int(ay - by) + abs_int(ax - bx)
}

impl Pos {
    /// Manhattan distance to `rhs`.
    pub fn dist(&self, rhs: &Pos) -> (r: usize)
        requires
            self.x <= isize::MAX,
            self.y <= isize::MAX,
            rhs.x <= isize::MAX,
            rhs.y <= isize::MAX,
            manhattan(self.y as int, self.x as int, rhs.y as int, rhs.x as int) <= isize::MAX,
        ensures
            r == manhattan(self.y as int, self.x as int, rhs.y as int, rhs.x as int),
    {
        let dx: usize = if self.x >= rhs.x {
            self.x - rhs.x
        } else {
            rhs.x - self.x
        };
        let dy: usize = if self.y >= rhs.y {
            self.y - rhs.y
        } else {
            rhs.y - self.y
        };
        dx + dy
    }

    /// Componentwise difference, requiring the result to stay non-negative.
    pub fn sub(self, rhs: Self) -> (r: Pos)
        requires
            rhs.x <= self.x,
            rhs.y <= self.y,
        ensures
            r.x == self.x - rhs.x,
            r.y == self.y - rhs.y,
    {
        Pos { x: self.x - rhs.x, y: self.y - rhs.y }
    }

    /// Componentwise signed difference.
    pub fn isub(&self, rhs: &Self) -> (r: IPos)
        requires
            self.x <= isize::MAX,
            self.y <= isize::MAX,
            rhs.x <= isize::MAX,
            rhs.y <= isize::MAX,
        ensures
            r.x == self.x - rhs.x,
            r.y == self.y - rhs.y,
    {
        IPos { x: self.x as isize - rhs.x as isize, y: self.y as isize - rhs.y as isize }
    }
}

/// Manhattan length of the offset `(dy, dx)`.
pub fn dist1(dy: isize, dx: isize) -> (r: usize)
    requires
        dy > isize::MIN,
        dx > isize::MIN,
    ensures
        r == abs_int(dy as int) + abs_int(dx as int),
{
    let ay: usize = if dy < 0 {
        (-dy) as usize
    } else {
        dy as usize
    };
    let ax: usize = if dx < 0 {
        (-dx) as usize
    } else {
        dx as usize
    };
    ay + ax
}

impl Direction {
    /// Where one step in this direction leads, or `None` against the
    /// north or west edge. Stepping south or east is always representable;
    /// the caller checks the map size.
    pub open spec fn spec_apply(self, p: Pos) -> Option<Pos> {
        match self {
            Direction::N => if p.y == 0 {
                None
            } else {
                Some(Pos { x: p.x, y: (p.y - 1) as usize })
            },
            Direction::S => Some(Pos { x: p.x, y: (p.y + 1) as usize }),
            Direction::W => if p.x == 0 {
                None
            } else {
                Some(Pos { x: (p.x - 1) as usize, y: p.y })
            },
            Direction::E => Some(Pos { x: (p.x + 1) as usize, y: p.y }),
        }
    }

    /// One step in this direction; `Err` against the north or west edge.
    pub fn apply(&self, pos: &Pos) -> (r: Result<Pos, ()>)
        requires
            pos.x < usize::MAX,
            pos.y < usize::MAX,
        ensures
            r == (match self.spec_apply(*pos) {
                Some(p) => Ok::<Pos, ()>(p),
                None => Err::<Pos, ()>(()),
            }),
    {
        match self {
            Direction::N => {
                if pos.y == 0 {
                    Err(())
                } else {
                    Ok(Pos { x: pos.x, y: pos.y - 1 })
                }
            },
            Direction::S => Ok(Pos { x: pos.x, y: pos.y + 1 }),
            Direction::W => {
                if pos.x == 0 {
                    Err(())
                } else {
                    Ok(Pos { x: pos.x - 1, y: pos.y })
                }
            },
            Direction::E => Ok(Pos { x: pos.x + 1, y: pos.y }),
        }
    }
}

} // verus!
