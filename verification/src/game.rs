//! The game state both sides share: the obstacle map, the own submarine,
//! the tracked opponent with its grid-sized belief, and the order book of
//! the turn. The opponent belief here runs over the sized [`Grid`], with
//! the same transition rules and the damage-feedback refinement.

use vstd::prelude::*;

use crate::MAX_LIFE;
use crate::COOLDOWN_MINE;
use crate::COOLDOWN_SILENCE;
use crate::COOLDOWN_SONAR;
use crate::COOLDOWN_TORPEDO;
use crate::actions::{Action, InputError, System};
use crate::belief::cross_step;
use crate::grid::{Grid, count_val, near_cell, open_cell, spec_sector};
use crate::pos::{Direction, Pos, manhattan};

verus! {

/// The own submarine.
#[derive(Debug, Clone)]
pub struct MePlayer {
    pub forbidden_map: Grid,
    pub pos: Pos,
    pub life: i32,
    pub torpedo: usize,
    pub sonar: usize,
    pub silence: usize,
    pub mine: usize,
}

impl MePlayer {
    /// A fresh own submarine: nothing visited yet beyond the land cells.
    pub fn new(map: &Grid) -> (r: MePlayer)
        requires
            map.wf(),
        ensures
            r.forbidden_map.wf(),
            r.forbidden_map.same_dims(*map),
            forall|y: int, x: int| #[trigger] r.forbidden_map.cell(y, x) == map.cell(y, x),
            r.pos == (Pos { y: 0, x: 0 }),
            r.life == MAX_LIFE,
            r.torpedo == COOLDOWN_TORPEDO,
            r.sonar == COOLDOWN_SONAR,
            r.silence == COOLDOWN_SILENCE,
            r.mine == COOLDOWN_MINE,
    {
        MePlayer {
            forbidden_map: map.clone(),
            pos: Pos { y: 0, x: 0 },
            life: MAX_LIFE,
            torpedo: COOLDOWN_TORPEDO,
            sonar: COOLDOWN_SONAR,
            silence: COOLDOWN_SILENCE,
            mine: COOLDOWN_MINE,
        }
    }
}

/// The belief about the opponent's position over the sized grid.
#[derive(Debug, Clone)]
pub enum OppPos {
    Exact(Pos),
    Area(Grid),
}

/// The candidate cells an opponent belief admits.
pub open spec fn opp_cells(b: OppPos) -> Set<(int, int)> {
    match b {
        OppPos::Exact(q) => crate::belief::singleton_cell(q.y as int, q.x as int),
        OppPos::Area(m) => m.cells(),
    }
}

/// Structural well-formedness of an opponent belief on an `h` by `w` map.
pub open spec fn opp_wf(h: int, w: int, b: OppPos) -> bool {
    match b {
        OppPos::Exact(q) => q.y < h && q.x < w,
        OppPos::Area(m) => m.wf() && m.h == h && m.w == w,
    }
}

/// The collapse invariant for the sized engine.
pub open spec fn opp_collapsed(b: OppPos) -> bool {
    match b {
        OppPos::Exact(_) => true,
        OppPos::Area(m) => count_val(m.data@, true) != 1,
    }
}

/// The open-water cells of an obstacle map.
pub open spec fn water_cells(map: Grid) -> Set<(int, int)> {
    Set::new(|p: (int, int)| open_cell(map, p.0, p.1))
}

/// The desync invariant for the sized engine.
pub open spec fn opp_live(map: Grid, b: OppPos) -> bool {
    match b {
        OppPos::Exact(_) => true,
        OppPos::Area(m) => !m.cells().is_empty() || water_cells(map).is_empty(),
    }
}

/// Candidate positions after every candidate moves one step in `d` on an
/// `h` by `w` map.
pub open spec fn gshift_cells(h: int, w: int, a: Set<(int, int)>, d: Direction) -> Set<(int, int)> {
    Set::new(
        |p: (int, int)|
            0 <= p.0 < h && 0 <= p.1 < w && match d {
                Direction::N => a.contains((p.0 + 1, p.1)),
                Direction::S => a.contains((p.0 - 1, p.1)),
                Direction::E => a.contains((p.0, p.1 - 1)),
                Direction::W => a.contains((p.0, p.1 + 1)),
            },
    )
}

/// The cells of sector `s` of an `h` by `w` map.
pub open spec fn gsector_cells(h: int, w: int, s: int) -> Set<(int, int)> {
    Set::new(|p: (int, int)| 0 <= p.0 < h && 0 <= p.1 < w && spec_sector(h, w, p.0, p.1) == s)
}

/// The cells strictly within the attack blast's Manhattan radius of the
/// target.
pub open spec fn gtorpedo_cells(h: int, w: int, ty: int, tx: int) -> Set<(int, int)> {
    Set::new(|p: (int, int)| 0 <= p.0 < h && 0 <= p.1 < w && manhattan(p.0, p.1, ty, tx) < 4)
}

/// Candidate positions after one stealth move from any candidate: the
/// sized engine keeps the zero-step stay as a candidate.
pub open spec fn gsilence_cells(h: int, w: int, a: Set<(int, int)>) -> Set<(int, int)> {
    Set::new(
        |p: (int, int)|
            0 <= p.0 < h && 0 <= p.1 < w && exists|q: (int, int)|
                #[trigger] a.contains(q) && cross_step(true, q, p),
    )
}

/// An emptied candidate set falls back to full open water.
pub open spec fn g_reset(map: Grid, s: Set<(int, int)>) -> Set<(int, int)> {
    if s.is_empty() {
        water_cells(map)
    } else {
        s
    }
}

/// One announced order applied to a candidate area, before the desync
/// fallback.
pub open spec fn garea_step(map: Grid, a: Set<(int, int)>, action: Action) -> Result<
    Set<(int, int)>,
    InputError,
> {
    let h = map.h as int;
    let w = map.w as int;
    match action {
        Action::Move(d, sys) => Ok(gshift_cells(h, w, a, d).intersect(water_cells(map))),
        Action::Surface(s) => if 1 <= s <= 9 && h % 3 == 0 && w % 3 == 0 && h >= 3 && w >= 3 {
            Ok(a.intersect(gsector_cells(h, w, s as int)))
        } else {
            Err(InputError::BadSector)
        },
        Action::Torpedo(t) => if t.y < map.h && t.x < map.w {
            Ok(a.intersect(gtorpedo_cells(h, w, t.y as int, t.x as int)))
        } else {
            Err(InputError::BadPosition)
        },
        Action::Sonar(s) => if 1 <= s <= 9 {
            Ok(a)
        } else {
            Err(InputError::BadSector)
        },
        Action::Silence(d, n) => Ok(gsilence_cells(h, w, a).intersect(water_cells(map))),
    }
}

/// One announced order applied to an exactly known position, before the
/// desync fallback.
pub open spec fn gexact_step(map: Grid, q: (int, int), action: Action) -> Result<
    Set<(int, int)>,
    InputError,
> {
    let h = map.h as int;
    let w = map.w as int;
    match action {
        Action::Move(d, sys) => {
            let p2 = crate::belief::step_pos(q, d);
            if 0 <= p2.0 < h && 0 <= p2.1 < w {
                Ok(crate::belief::singleton_cell(p2.0, p2.1))
            } else {
                Err(InputError::OffMap)
            }
        },
        Action::Surface(s) => if 1 <= s <= 9 && h % 3 == 0 && w % 3 == 0 && h >= 3 && w >= 3 {
            Ok(crate::belief::singleton_cell(q.0, q.1))
        } else {
            Err(InputError::BadSector)
        },
        Action::Torpedo(t) => if t.y < map.h && t.x < map.w {
            Ok(crate::belief::singleton_cell(q.0, q.1))
        } else {
            Err(InputError::BadPosition)
        },
        Action::Sonar(s) => if 1 <= s <= 9 {
            Ok(crate::belief::singleton_cell(q.0, q.1))
        } else {
            Err(InputError::BadSector)
        },
        Action::Silence(d, n) => Ok(
            gsilence_cells(h, w, crate::belief::singleton_cell(q.0, q.1)).intersect(
                water_cells(map),
            ).remove(q),
        ),
    }
}

/// One announced order applied to a candidate set, desync fallback
/// included.
#[verifier::opaque]
pub open spec fn gstep_cells(map: Grid, s: Set<(int, int)>, action: Action) -> Result<
    Set<(int, int)>,
    InputError,
> {
    let raw = if crate::belief::is_singleton(s) {
        gexact_step(map, choose|q: (int, int)| s.contains(q), action)
    } else {
        garea_step(map, s, action)
    };
    match raw {
        Ok(s2) => Ok(g_reset(map, s2)),
        Err(e) => Err(e),
    }
}

/// The candidate set after the longest prefix of `actions` that applies
/// without error.
#[verifier::opaque]
pub open spec fn grun_cells(map: Grid, s: Set<(int, int)>, actions: Seq<Action>) -> Set<(int, int)>
    decreases actions.len(),
{
    if actions.len() == 0 {
        s
    } else {
        match gstep_cells(map, s, actions[0]) {
            Ok(s2) => grun_cells(map, s2, actions.skip(1)),
            Err(_) => s,
        }
    }
}

/// `Ok` when every order of `actions` applies in order; otherwise the
/// first error met.
#[verifier::opaque]
pub open spec fn grun_result(map: Grid, s: Set<(int, int)>, actions: Seq<Action>) -> Result<
    (),
    InputError,
>
    decreases actions.len(),
{
    if actions.len() == 0 {
        Ok(())
    } else {
        match gstep_cells(map, s, actions[0]) {
            Ok(s2) => grun_result(map, s2, actions.skip(1)),
            Err(e) => Err(e),
        }
    }
}

/// The cells a glancing hit at `(py, px)` allows: adjacent to the blast
/// cell, but not on it.
pub open spec fn splash_cells(py: int, px: int) -> Set<(int, int)> {
    Set::new(|p: (int, int)| near_cell(py, px, p.0, p.1) && p != (py, px))
}

/// What the damage feedback of the last own attack does to a candidate
/// set. No life change: nothing. A loss of exactly one: a glancing hit,
/// so an area is cut to the blast's surroundings (an exact position is
/// already sharper knowledge). A larger loss: a direct hit, the position
/// is certain.
pub open spec fn refined_cells(s: Set<(int, int)>, py: int, px: int, delta: int) -> Set<(int, int)> {
    if delta == 0 {
        s
    } else if delta == 1 {
        if crate::belief::is_singleton(s) {
            s
        } else {
            s.intersect(splash_cells(py, px))
        }
    } else {
        crate::belief::singleton_cell(py, px)
    }
}

/// The refinement step applied after a turn's orders, when an attack was
/// issued last turn.
pub open spec fn post_refine(
    map: Grid,
    s: Set<(int, int)>,
    torp: Option<Pos>,
    last_life: int,
    life: int,
) -> Set<(int, int)> {
    match torp {
        Option::None => s,
        Option::Some(p) => g_reset(map, refined_cells(s, p.y as int, p.x as int, last_life - life)),
    }
}

/// The tracked opponent.
#[derive(Debug, Clone)]
pub struct OppPlayer {
    pub life: i32,
    pub forbidden_map: Option<Grid>,
    pub pos: OppPos,
    pub torpedo: usize,
    pub sonar: usize,
    pub silence: usize,
    pub mine: usize,
}

/// What the own side remembers across one turn boundary, for the damage
/// refinement: the last attack it fired and the opponent life seen before
/// that attack.
#[derive(Debug, Clone)]
pub struct LastTurn {
    pub opp_life: i32,
    pub torpedo: Option<Pos>,
}

impl LastTurn {
    /// A turn with no attack issued yet.
    pub fn new() -> (r: LastTurn)
        ensures
            r.opp_life == MAX_LIFE,
            r.torpedo is None,
    {
        LastTurn { opp_life: MAX_LIFE, torpedo: None }
    }
}

/// Collapse a freshly computed sized area: an empty one falls back to
/// full open water, a one-cell one becomes an exact position.
fn gnormalize(map: &Grid, m: Grid) -> (r: OppPos)
    requires
        map.wf(),
        m.wf(),
        m.same_dims(*map),
    ensures
        opp_wf(map.h as int, map.w as int, r),
        opp_collapsed(r),
        opp_live(*map, r),
        opp_cells(r) == g_reset(*map, m.cells()),
{
    let ghost cells0 = m.cells();
    let n: usize = m.data.len();
    let nf: usize = m.nb_false();
    proof {
        crate::grid::lemma_count_val_complement(m.data@);
        crate::grid::lemma_grid_count_zero(m);
    }
    let c0: usize = n - nf;
    let m2: Grid = if c0 == 0 {
        let mut w = map.clone();
        w.invert();
        w
    } else {
        m
    };
    proof {
        if c0 == 0 {
            assert(cells0 =~= Set::<(int, int)>::empty());
            assert(m2.cells() =~= water_cells(*map));
            assert(m2.cells() == g_reset(*map, cells0));
        } else {
            assert(!(cells0 =~= Set::<(int, int)>::empty())) by {
                if cells0 =~= Set::<(int, int)>::empty() {
                    assert forall|y: int, x: int| !(#[trigger] m2.cell(y, x)) by {
                        assert(!cells0.contains((y, x)));
                    }
                }
            }
            assert(m2.cells() == g_reset(*map, cells0));
        }
    }
    let n2: usize = m2.data.len();
    let nf2: usize = m2.nb_false();
    proof {
        crate::grid::lemma_count_val_complement(m2.data@);
        crate::grid::lemma_grid_count_zero(m2);
    }
    let c: usize = n2 - nf2;
    if c == 1 {
        let p: Pos = match m2.first_match(true) {
            Some(p) => p,
            None => {
                proof {
                    crate::grid::lemma_count_val_none(m2.data@, true);
                }
                vstd::pervasive::unreached::<Pos>()
            },
        };
        proof {
            crate::grid::lemma_grid_count_one(m2, p.y as int, p.x as int);
            assert(m2.cells() =~= crate::belief::singleton_cell(p.y as int, p.x as int));
        }
        OppPos::Exact(p)
    } else {
        proof {
            if c == 0 {
                assert(m2.cells() =~= Set::<(int, int)>::empty());
                assert(water_cells(*map) =~= Set::<(int, int)>::empty()) by {
                    if c0 == 0 {
                        assert forall|p: (int, int)| !water_cells(*map).contains(p) by {
                            if open_cell(*map, p.0, p.1) {
                                assert(m2.cell(p.0, p.1));
                            }
                        }
                    } else {
                        assert(cells0 =~= Set::<(int, int)>::empty());
                    }
                }
            }
        }
        OppPos::Area(m2)
    }
}

/// The cell a content move of `k` steps in `d` brings onto `(y, x)`.
pub open spec fn arm_src(d: Direction, k: int, y: int, x: int) -> (int, int) {
    match d {
        Direction::N => (y + k, x),
        Direction::S => (y - k, x),
        Direction::E => (y, x - k),
        Direction::W => (y, x + k),
    }
}

/// Whether a set cell of `a` reaches `(y, x)` in 1 to `kmax` steps along
/// direction `d`.
pub open spec fn arm_reach(a: Grid, d: Direction, kmax: int, y: int, x: int) -> bool {
    exists|k: int|
        1 <= k <= kmax && #[trigger] a.cell(arm_src(d, k, y, x).0, arm_src(d, k, y, x).1)
}

/// The union of the first four shifts of `a` along `d`: one arm of the
/// stealth cross.
fn cross_arm(a: &Grid, d: &Direction) -> (r: Grid)
    requires
        a.wf(),
        a.h >= 1,
        a.w >= 1,
        a.h * a.w <= usize::MAX,
    ensures
        r.wf(),
        r.same_dims(*a),
        forall|y: int, x: int|
            #[trigger] r.cell(y, x) == (a.in_bounds(y, x) && arm_reach(*a, *d, 4, y, x)),
{
    let mut acc = Grid::new(a.h, a.w);
    let mut tmp = a.clone();
    let mut k: usize = 0;
    while k < 4
        invariant
            a.wf(),
            tmp.wf(),
            acc.wf(),
            tmp.same_dims(*a),
            acc.same_dims(*a),
            k <= 4,
            forall|y: int, x: int|
                #[trigger] tmp.cell(y, x) == (a.in_bounds(y, x) && a.cell(
                    arm_src(*d, k as int, y, x).0,
                    arm_src(*d, k as int, y, x).1,
                )),
            forall|y: int, x: int|
                #[trigger] acc.cell(y, x) == (a.in_bounds(y, x) && arm_reach(*a, *d, k as int, y, x)),
        decreases 4 - k,
    {
        tmp.eq_shift(d);
        acc.eq_or(&tmp);
        proof {
            assert forall|y: int, x: int| #[trigger] acc.cell(y, x) == (a.in_bounds(y, x)
                && arm_reach(*a, *d, k + 1, y, x)) by {
                if acc.cell(y, x) {
                    if arm_reach(*a, *d, k as int, y, x) {
                        let kk = choose|kk: int|
                            1 <= kk <= k && #[trigger] a.cell(
                                arm_src(*d, kk, y, x).0,
                                arm_src(*d, kk, y, x).1,
                            );
                        assert(1 <= kk <= k + 1 && a.cell(
                            arm_src(*d, kk, y, x).0,
                            arm_src(*d, kk, y, x).1,
                        ));
                    } else {
                        let kk: int = k + 1;
                        assert(1 <= kk <= k + 1 && a.cell(
                            arm_src(*d, kk, y, x).0,
                            arm_src(*d, kk, y, x).1,
                        ));
                    }
                } else {
                    if a.in_bounds(y, x) && arm_reach(*a, *d, k + 1, y, x) {
                        let kk = choose|kk: int|
                            1 <= kk <= k + 1 && #[trigger] a.cell(
                                arm_src(*d, kk, y, x).0,
                                arm_src(*d, kk, y, x).1,
                            );
                        if kk <= k {
                            assert(arm_reach(*a, *d, k as int, y, x));
                        }
                        assert(false);
                    }
                }
            }
        }
        k = k + 1;
    }
    acc
}

/// The stealth reach of a candidate area: the area itself (a stay is a
/// candidate here) unioned with all four cross arms.
fn silence_area(a: &Grid) -> (r: Grid)
    requires
        a.wf(),
        a.h >= 1,
        a.w >= 1,
        a.h * a.w <= usize::MAX,
    ensures
        r.wf(),
        r.same_dims(*a),
        r.cells() == gsilence_cells(a.h as int, a.w as int, a.cells()),
{
    let mut acc = a.clone();
    let north = cross_arm(a, &Direction::N);
    acc.eq_or(&north);
    let south = cross_arm(a, &Direction::S);
    acc.eq_or(&south);
    let east = cross_arm(a, &Direction::E);
    acc.eq_or(&east);
    let west = cross_arm(a, &Direction::W);
    acc.eq_or(&west);
    proof {
        assert forall|p: (int, int)| acc.cells().contains(p) == gsilence_cells(
            a.h as int,
            a.w as int,
            a.cells(),
        ).contains(p) by {
            if acc.cell(p.0, p.1) {
                if a.cell(p.0, p.1) {
                    assert(a.cells().contains(p) && cross_step(true, p, p));
                } else {
                    let d: Direction = if north.cell(p.0, p.1) {
                        Direction::N
                    } else if south.cell(p.0, p.1) {
                        Direction::S
                    } else if east.cell(p.0, p.1) {
                        Direction::E
                    } else {
                        Direction::W
                    };
                    let kk = choose|kk: int|
                        1 <= kk <= 4 && #[trigger] a.cell(
                            arm_src(d, kk, p.0, p.1).0,
                            arm_src(d, kk, p.0, p.1).1,
                        );
                    let q = arm_src(d, kk, p.0, p.1);
                    assert(a.cells().contains(q) && cross_step(true, q, p));
                }
            }
            if gsilence_cells(a.h as int, a.w as int, a.cells()).contains(p) && !acc.cell(
                p.0,
                p.1,
            ) {
                let q = choose|q: (int, int)|
                    #[trigger] a.cells().contains(q) && cross_step(true, q, p);
                if q == p {
                    assert(a.cell(p.0, p.1));
                } else if q.0 == p.0 && q.1 > p.1 {
                    let kk = q.1 - p.1;
                    assert(a.cell(arm_src(Direction::W, kk, p.0, p.1).0, arm_src(Direction::W, kk, p.0, p.1).1));
                    assert(arm_reach(*a, Direction::W, 4, p.0, p.1));
                } else if q.0 == p.0 {
                    let kk = p.1 - q.1;
                    assert(a.cell(arm_src(Direction::E, kk, p.0, p.1).0, arm_src(Direction::E, kk, p.0, p.1).1));
                    assert(arm_reach(*a, Direction::E, 4, p.0, p.1));
                } else if q.0 > p.0 {
                    let kk = q.0 - p.0;
                    assert(a.cell(arm_src(Direction::N, kk, p.0, p.1).0, arm_src(Direction::N, kk, p.0, p.1).1));
                    assert(arm_reach(*a, Direction::N, 4, p.0, p.1));
                } else {
                    let kk = p.0 - q.0;
                    assert(a.cell(arm_src(Direction::S, kk, p.0, p.1).0, arm_src(Direction::S, kk, p.0, p.1).1));
                    assert(arm_reach(*a, Direction::S, 4, p.0, p.1));
                }
                assert(false);
            }
        }
        assert(acc.cells() =~= gsilence_cells(a.h as int, a.w as int, a.cells()));
    }
    acc
}

impl OppPlayer {
    /// A fresh tracked opponent: it can be anywhere in open water.
    pub fn new(map: &Grid) -> (r: OppPlayer)
        requires
            map.wf(),
        ensures
            opp_wf(map.h as int, map.w as int, r.pos),
            opp_collapsed(r.pos),
            opp_live(*map, r.pos),
            opp_cells(r.pos) == water_cells(*map),
            r.life == MAX_LIFE,
            r.forbidden_map is None,
            r.torpedo == COOLDOWN_TORPEDO,
            r.sonar == COOLDOWN_SONAR,
            r.silence == COOLDOWN_SILENCE,
            r.mine == COOLDOWN_MINE,
    {
        let mut pos_map = map.clone();
        pos_map.invert();
        proof {
            assert(pos_map.cells() =~= water_cells(*map));
        }
        let pos = gnormalize(map, pos_map);
        proof {
            assert(g_reset(*map, water_cells(*map)) == water_cells(*map));
        }
        OppPlayer {
            forbidden_map: None,
            pos,
            life: MAX_LIFE,
            torpedo: COOLDOWN_TORPEDO,
            sonar: COOLDOWN_SONAR,
            silence: COOLDOWN_SILENCE,
            mine: COOLDOWN_MINE,
        }
    }
}

/// What one announced order does to an opponent belief: the area or
/// exact rule, then the desync fallback.
pub open spec fn gnext(map: Grid, b: OppPos, action: Action) -> Result<Set<(int, int)>, InputError> {
    let raw = match b {
        OppPos::Exact(q) => gexact_step(map, (q.y as int, q.x as int), action),
        OppPos::Area(m) => garea_step(map, m.cells(), action),
    };
    match raw {
        Ok(s2) => Ok(g_reset(map, s2)),
        Err(e) => Err(e),
    }
}

/// With no orders left, a run changes nothing and succeeds.
pub proof fn lemma_grun_nil(map: Grid, s: Set<(int, int)>, actions: Seq<Action>)
    requires
        actions.len() == 0,
    ensures
        grun_cells(map, s, actions) == s,
        grun_result(map, s, actions) == Ok::<(), InputError>(()),
{
    reveal(grun_cells);
    reveal(grun_result);
}

/// Peeling the first order off a run: the run continues from that
/// order's result, or stops at its error.
pub proof fn lemma_grun_peel(map: Grid, s: Set<(int, int)>, actions: Seq<Action>)
    requires
        actions.len() > 0,
    ensures
        (match gstep_cells(map, s, actions[0]) {
            Ok(s2) => grun_cells(map, s, actions) == grun_cells(map, s2, actions.skip(1))
                && grun_result(map, s, actions) == grun_result(map, s2, actions.skip(1)),
            Err(e) => grun_cells(map, s, actions) == s && grun_result(map, s, actions) == Err::<
                (),
                InputError,
            >(e),
        }),
{
    reveal(grun_cells);
    reveal(grun_result);
}

/// Under the collapse invariant, the representation of an opponent
/// belief is determined by its candidate set.
pub proof fn lemma_gnext_is_step(map: Grid, b: OppPos, action: Action)
    requires
        opp_wf(map.h as int, map.w as int, b),
        opp_collapsed(b),
    ensures
        gnext(map, b, action) == gstep_cells(map, opp_cells(b), action),
{
    reveal(gstep_cells);
    match b {
        OppPos::Exact(q) => {
            let qq: (int, int) = (q.y as int, q.x as int);
            let s = crate::belief::singleton_cell(qq.0, qq.1);
            assert(s.contains(qq));
            assert(crate::belief::is_singleton(s));
            let c = choose|p: (int, int)| s.contains(p);
            assert(s.contains(c));
            assert(c == qq);
        },
        OppPos::Area(m) => {
            if crate::belief::is_singleton(m.cells()) {
                let p = choose|p: (int, int)|
                    #[trigger] m.cells().contains(p) && forall|q: (int, int)|
                        m.cells().contains(q) ==> q == p;
                assert(m.cell(p.0, p.1));
                assert forall|y: int, x: int| (y, x) != (p.0, p.1) implies !(#[trigger] m.cell(
                    y,
                    x,
                )) by {
                    if m.cell(y, x) {
                        assert(m.cells().contains((y, x)));
                    }
                }
                crate::grid::lemma_grid_count_singleton(m, p.0, p.1);
            }
        },
    }
}

/// The bookkeeping of one engine step inside a run of orders.
proof fn lemma_gadvance(
    map: Grid,
    s0: Set<(int, int)>,
    actions: Seq<Action>,
    i: int,
    bcur: OppPos,
    res: Result<(), InputError>,
    bnew: OppPos,
)
    requires
        0 <= i < actions.len(),
        opp_wf(map.h as int, map.w as int, bcur),
        opp_collapsed(bcur),
        grun_cells(map, opp_cells(bcur), actions.skip(i)) == grun_cells(map, s0, actions),
        grun_result(map, opp_cells(bcur), actions.skip(i)) == grun_result(map, s0, actions),
        (res is Ok) == (gnext(map, bcur, actions[i]) is Ok),
        res matches Err(e) ==> gnext(map, bcur, actions[i]) == Err::<Set<(int, int)>, InputError>(
            e,
        ) && bnew == bcur,
        res is Ok ==> Ok::<Set<(int, int)>, InputError>(opp_cells(bnew)) == gnext(
            map,
            bcur,
            actions[i],
        ),
    ensures
        res is Ok ==> grun_cells(map, opp_cells(bnew), actions.skip(i + 1)) == grun_cells(
            map,
            s0,
            actions,
        ) && grun_result(map, opp_cells(bnew), actions.skip(i + 1)) == grun_result(
            map,
            s0,
            actions,
        ),
        res matches Err(e) ==> grun_cells(map, s0, actions) == opp_cells(bnew) && grun_result(
            map,
            s0,
            actions,
        ) == Err::<(), InputError>(e),
{
    lemma_gnext_is_step(map, bcur, actions[i]);
    lemma_grun_peel(map, opp_cells(bcur), actions.skip(i));
    assert(actions.skip(i)[0] == actions[i]);
    assert(actions.skip(i).skip(1) =~= actions.skip(i + 1));
}

/// The whole game state of the tracking side.
#[derive(Debug, Clone)]
pub struct Game {
    pub map: Grid,
    pub my_id: usize,
    pub me: MePlayer,
    pub opp: OppPlayer,
    pub actions: Vec<Action>,
    pub last_turn: LastTurn,
}

impl Game {
    /// The obstacle map never changes, the own position stays on it, the
    /// opponent belief keeps the collapse and desync invariants, and the
    /// remembered life values stay in their game range.
    pub open spec fn wf(self) -> bool {
        &&& self.map.wf()
        &&& self.map.h >= 1
        &&& self.map.w >= 1
        &&& self.map.h <= isize::MAX
        &&& self.map.w <= isize::MAX
        &&& self.me.forbidden_map.wf()
        &&& self.me.forbidden_map.same_dims(self.map)
        &&& self.me.pos.y < self.map.h
        &&& self.me.pos.x < self.map.w
        &&& opp_wf(self.map.h as int, self.map.w as int, self.opp.pos)
        &&& opp_collapsed(self.opp.pos)
        &&& opp_live(self.map, self.opp.pos)
        &&& 0 <= self.opp.life <= MAX_LIFE
        &&& 0 <= self.last_turn.opp_life <= MAX_LIFE
        &&& (self.last_turn.torpedo matches Some(p) ==> p.y < self.map.h && p.x < self.map.w)
    }

    /// A fresh game on the given obstacle map.
    pub fn new(map: Grid, my_id: usize) -> (r: Game)
        requires
            map.wf(),
            map.h >= 1,
            map.w >= 1,
            map.h <= isize::MAX,
            map.w <= isize::MAX,
        ensures
            r.wf(),
            r.map == map,
            r.my_id == my_id,
            opp_cells(r.opp.pos) == water_cells(map),
            r.actions.len() == 0,
            r.last_turn.opp_life == MAX_LIFE,
            r.last_turn.torpedo is None,
    {
        let me = MePlayer::new(&map);
        let opp = OppPlayer::new(&map);
        Game { me, opp, map, my_id, actions: Vec::new(), last_turn: LastTurn::new() }
    }

    /// Apply one announced opponent order to the tracked belief.
    fn opp_step(&mut self, action: &Action) -> (r: Result<(), InputError>)
        requires
            old(self).wf(),
        ensures
            final(self).wf(),
            final(self).map == old(self).map,
            final(self).me == old(self).me,
            final(self).my_id == old(self).my_id,
            final(self).actions == old(self).actions,
            final(self).last_turn == old(self).last_turn,
            final(self).opp.life == old(self).opp.life,
            final(self).opp.forbidden_map == old(self).opp.forbidden_map,
            final(self).opp.torpedo == old(self).opp.torpedo,
            final(self).opp.sonar == old(self).opp.sonar,
            final(self).opp.silence == old(self).opp.silence,
            final(self).opp.mine == old(self).opp.mine,
            (r is Ok) == (gnext(old(self).map, old(self).opp.pos, *action) is Ok),
            r matches Err(e) ==> gnext(old(self).map, old(self).opp.pos, *action) == Err::<
                Set<(int, int)>,
                InputError,
            >(e) && final(self).opp.pos == old(self).opp.pos,
            r is Ok ==> Ok::<Set<(int, int)>, InputError>(opp_cells(final(self).opp.pos)) == gnext(
                old(self).map,
                old(self).opp.pos,
                *action,
            ),
    {
        let ghost b0 = self.opp.pos;
        let ghost h = self.map.h as int;
        let ghost w = self.map.w as int;
        let new_pos: OppPos = match &self.opp.pos {
            OppPos::Area(area) => {
                let m2: Grid = match action {
                    Action::Move(dir, _) => {
                        let mut m = area.clone();
                        m.eq_shift(dir);
                        m.eq_and_not(&self.map);
                        proof {
                            assert(m.cells() =~= gshift_cells(h, w, opp_cells(b0), *dir).intersect(
                                water_cells(self.map),
                            ));
                        }
                        m
                    },
                    Action::Surface(sector) => {
                        if *sector < 1 || *sector > 9 || self.map.h % 3 != 0 || self.map.w % 3 != 0
                            || self.map.h < 3 || self.map.w < 3 {
                            return Err(InputError::BadSector);
                        }
                        let mask = self.map.sector_mask(*sector);
                        let mut m = area.clone();
                        m.eq_and(&mask);
                        proof {
                            assert(m.cells() =~= opp_cells(b0).intersect(
                                gsector_cells(h, w, *sector as int),
                            ));
                        }
                        m
                    },
                    Action::Torpedo(t) => {
                        if t.y >= self.map.h || t.x >= self.map.w {
                            return Err(InputError::BadPosition);
                        }
                        let mask = self.map.torpedo_mask(t);
                        let mut m = area.clone();
                        m.eq_and(&mask);
                        proof {
                            assert(m.cells() =~= opp_cells(b0).intersect(
                                gtorpedo_cells(h, w, t.y as int, t.x as int),
                            ));
                        }
                        m
                    },
                    Action::Sonar(sector) => {
                        if *sector < 1 || *sector > 9 {
                            return Err(InputError::BadSector);
                        }
                        let m = area.clone();
                        proof {
                            assert(m.cells() =~= opp_cells(b0));
                        }
                        m
                    },
                    Action::Silence(_, _) => {
                        let mut m = silence_area(area);
                        m.eq_and_not(&self.map);
                        proof {
                            assert(m.cells() =~= gsilence_cells(h, w, opp_cells(b0)).intersect(
                                water_cells(self.map),
                            ));
                        }
                        m
                    },
                };
                gnormalize(&self.map, m2)
            },
            OppPos::Exact(pos) => {
                let ghost q: (int, int) = (pos.y as int, pos.x as int);
                match action {
                    Action::Move(dir, _) => {
                        let p2: Pos = match dir.apply(pos) {
                            Ok(p2) => p2,
                            Err(_) => {
                                return Err(InputError::OffMap);
                            },
                        };
                        if p2.y >= self.map.h || p2.x >= self.map.w {
                            return Err(InputError::OffMap);
                        }
                        proof {
                            assert(crate::belief::step_pos(q, *dir) == (p2.y as int, p2.x as int));
                            assert(!crate::belief::singleton_cell(
                                p2.y as int,
                                p2.x as int,
                            ).is_empty());
                        }
                        OppPos::Exact(p2)
                    },
                    Action::Surface(sector) => {
                        if *sector < 1 || *sector > 9 || self.map.h % 3 != 0 || self.map.w % 3 != 0
                            || self.map.h < 3 || self.map.w < 3 {
                            return Err(InputError::BadSector);
                        }
                        proof {
                            assert(!crate::belief::singleton_cell(q.0, q.1).is_empty());
                        }
                        OppPos::Exact(*pos)
                    },
                    Action::Torpedo(t) => {
                        if t.y >= self.map.h || t.x >= self.map.w {
                            return Err(InputError::BadPosition);
                        }
                        proof {
                            assert(!crate::belief::singleton_cell(q.0, q.1).is_empty());
                        }
                        OppPos::Exact(*pos)
                    },
                    Action::Sonar(sector) => {
                        if *sector < 1 || *sector > 9 {
                            return Err(InputError::BadSector);
                        }
                        proof {
                            assert(!crate::belief::singleton_cell(q.0, q.1).is_empty());
                        }
                        OppPos::Exact(*pos)
                    },
                    Action::Silence(_, _) => {
                        let mut single = Grid::new(self.map.h, self.map.w);
                        single.set(pos.y, pos.x, true);
                        proof {
                            assert(single.cells() =~= crate::belief::singleton_cell(q.0, q.1));
                        }
                        let mut m = silence_area(&single);
                        m.eq_and_not(&self.map);
                        m.set(pos.y, pos.x, false);
                        proof {
                            assert(m.cells() =~= gsilence_cells(
                                h,
                                w,
                                crate::belief::singleton_cell(q.0, q.1),
                            ).intersect(water_cells(self.map)).remove(q));
                        }
                        gnormalize(&self.map, m)
                    },
                }
            },
        };
        self.opp.pos = new_pos;
        Ok(())
    }

    /// Consume one turn's announced opponent orders, in order, then apply
    /// the damage feedback of the last own attack. The first ill-formed
    /// order aborts the turn with an error, leaving the belief as the
    /// orders before it made it and skipping the refinement.
    pub fn update_opponent(&mut self, actions: &[Action]) -> (r: Result<(), InputError>)
        requires
            old(self).wf(),
        ensures
            final(self).wf(),
            final(self).map == old(self).map,
            final(self).me == old(self).me,
            final(self).my_id == old(self).my_id,
            final(self).actions == old(self).actions,
            final(self).last_turn == old(self).last_turn,
            final(self).opp.life == old(self).opp.life,
            r == grun_result(old(self).map, opp_cells(old(self).opp.pos), actions@),
            r matches Err(e) ==> opp_cells(final(self).opp.pos) == grun_cells(
                old(self).map,
                opp_cells(old(self).opp.pos),
                actions@,
            ),
            r is Ok ==> opp_cells(final(self).opp.pos) == post_refine(
                old(self).map,
                grun_cells(old(self).map, opp_cells(old(self).opp.pos), actions@),
                old(self).last_turn.torpedo,
                old(self).last_turn.opp_life as int,
                old(self).opp.life as int,
            ),
    {
        let ghost map0 = self.map;
        let ghost s0 = opp_cells(self.opp.pos);
        let n: usize = actions.len();
        proof {
            assert(actions@.skip(0) =~= actions@);
        }
        let mut i: usize = 0;
        while i < n
            invariant
                self.wf(),
                self.map == old(self).map,
                self.me == old(self).me,
                self.my_id == old(self).my_id,
                self.actions == old(self).actions,
                self.last_turn == old(self).last_turn,
                self.opp.life == old(self).opp.life,
                map0 == old(self).map,
                s0 == opp_cells(old(self).opp.pos),
                n == actions.len(),
                i <= n,
                grun_cells(map0, opp_cells(self.opp.pos), actions@.skip(i as int)) == grun_cells(
                    map0,
                    s0,
                    actions@,
                ),
                grun_result(map0, opp_cells(self.opp.pos), actions@.skip(i as int)) == grun_result(
                    map0,
                    s0,
                    actions@,
                ),
            decreases n - i,
        {
            let ghost bcur = self.opp.pos;
            let a = &actions[i];
            let res = self.opp_step(a);
            proof {
                lemma_gadvance(map0, s0, actions@, i as int, bcur, res, self.opp.pos);
            }
            if let Err(e) = res {
                return Err(e);
            }
            i = i + 1;
        }
        proof {
            assert(actions@.skip(n as int) =~= Seq::<Action>::empty());
            lemma_grun_nil(map0, opp_cells(self.opp.pos), actions@.skip(n as int));
        }
        let ghost srun = opp_cells(self.opp.pos);
        if let Some(p) = self.last_turn.torpedo {
            if self.last_turn.opp_life != self.opp.life {
                let delta: i32 = self.last_turn.opp_life - self.opp.life;
                if delta == 1 {
                    let ghost bpre = self.opp.pos;
                    let new_pos: OppPos = match &self.opp.pos {
                        OppPos::Area(area) => {
                            let mut splash = self.map.square(&p);
                            splash.set(p.y, p.x, false);
                            let mut m = area.clone();
                            m.eq_and(&splash);
                            proof {
                                lemma_gnot_singleton(bpre);
                                assert(m.cells() =~= srun.intersect(
                                    splash_cells(p.y as int, p.x as int),
                                ));
                            }
                            gnormalize(&self.map, m)
                        },
                        OppPos::Exact(e) => {
                            proof {
                                let qq: (int, int) = (e.y as int, e.x as int);
                                let s = crate::belief::singleton_cell(qq.0, qq.1);
                                assert(s.contains(qq));
                                assert(crate::belief::is_singleton(s));
                                assert(!s.is_empty());
                            }
                            OppPos::Exact(*e)
                        },
                    };
                    self.opp.pos = new_pos;
                } else {
                    proof {
                        let qq: (int, int) = (p.y as int, p.x as int);
                        let s = crate::belief::singleton_cell(qq.0, qq.1);
                        assert(s.contains(qq));
                        assert(!s.is_empty());
                    }
                    self.opp.pos = OppPos::Exact(p);
                }
            }
        }
        Ok(())
    }
}

/// Whether one step from the own position in `d` lands on a map cell not
/// yet visited.
pub open spec fn spec_can_move(g: Game, d: Direction) -> bool {
    match d.spec_apply(g.me.pos) {
        Some(p) => p.y < g.map.h && p.x < g.map.w && !g.me.forbidden_map.cell(
            p.y as int,
            p.x as int,
        ),
        None => false,
    }
}

/// Whether `k` silent steps from `p` in `d` all land on unvisited map
/// cells.
pub open spec fn spec_silence_ok(g: Game, p: Pos, d: Direction, k: nat) -> bool
    decreases k,
{
    if k == 0 {
        true
    } else {
        match d.spec_apply(p) {
            Some(p2) => p2.y < g.map.h && p2.x < g.map.w && !g.me.forbidden_map.cell(
                p2.y as int,
                p2.x as int,
            ) && spec_silence_ok(g, p2, d, (k - 1) as nat),
            None => false,
        }
    }
}

impl Game {
    /// Whether the own submarine can move one step in `direction`.
    pub fn can_move_to(&self, direction: &Direction) -> (r: Result<(), ()>)
        requires
            self.wf(),
        ensures
            (r is Ok) == spec_can_move(*self, *direction),
    {
        let me_pos = &self.me.pos;
        let next_pos = match direction.apply(me_pos) {
            Ok(p) => p,
            Err(_) => {
                return Err(());
            },
        };
        if next_pos.x >= self.map.w || next_pos.y >= self.map.h {
            return Err(());
        }
        if self.me.forbidden_map.get(next_pos.y, next_pos.x) {
            return Err(());
        }
        Ok(())
    }

    /// Order a move in `direction`, charging `system`.
    pub fn move_to(&mut self, direction: &Direction, system: &System) -> (r: Result<(), ()>)
        requires
            old(self).wf(),
        ensures
            final(self).wf(),
            (r is Ok) == spec_can_move(*old(self), *direction),
            r is Ok ==> final(self).actions@ == old(self).actions@.push(
                Action::Move(*direction, *system),
            ),
            r is Err ==> final(self).actions == old(self).actions,
            final(self).map == old(self).map,
            final(self).me == old(self).me,
            final(self).opp == old(self).opp,
            final(self).last_turn == old(self).last_turn,
    {
        if let Err(e) = self.can_move_to(direction) {
            return Err(e);
        }
        self.actions.push(Action::Move(*direction, *system));
        Ok(())
    }

    /// Order a surface: the sector is announced and the visited-cells map
    /// starts over.
    pub fn surface(&mut self)
        requires
            old(self).wf(),
            old(self).map.h % 3 == 0,
            old(self).map.w % 3 == 0,
            old(self).map.h >= 3,
            old(self).map.w >= 3,
        ensures
            final(self).wf(),
            final(self).actions@ == old(self).actions@.push(
                Action::Surface(
                    spec_sector(
                        old(self).map.h as int,
                        old(self).map.w as int,
                        old(self).me.pos.y as int,
                        old(self).me.pos.x as int,
                    ) as usize,
                ),
            ),
            forall|y: int, x: int|
                #[trigger] final(self).me.forbidden_map.cell(y, x) == old(self).map.cell(y, x),
            final(self).map == old(self).map,
            final(self).me.pos == old(self).me.pos,
            final(self).opp == old(self).opp,
            final(self).last_turn == old(self).last_turn,
    {
        let sector: usize = self.map.sector(&self.me.pos);
        self.actions.push(Action::Surface(sector));
        self.me.forbidden_map.copy_from(&self.map);
    }

    /// Order a torpedo shot at `pos`, remembering it and the opponent
    /// life seen now for next turn's damage refinement. Rejected while
    /// the torpedo is still charging or when `pos` lies off the map.
    pub fn torpedo(&mut self, pos: Pos) -> (r: Result<(), ()>)
        requires
            old(self).wf(),
        ensures
            final(self).wf(),
            (r is Ok) == (old(self).me.torpedo == 0 && pos.y < old(self).map.h && pos.x < old(
                self,
            ).map.w),
            r is Ok ==> final(self).actions@ == old(self).actions@.push(Action::Torpedo(pos))
                && final(self).last_turn.torpedo == Some(pos) && final(self).last_turn.opp_life
                == old(self).opp.life,
            r is Err ==> final(self).actions == old(self).actions && final(self).last_turn == old(
                self,
            ).last_turn,
            final(self).map == old(self).map,
            final(self).me == old(self).me,
            final(self).opp == old(self).opp,
    {
        if self.me.torpedo > 0 {
            return Err(());
        }
        if pos.y >= self.map.h || pos.x >= self.map.w {
            return Err(());
        }
        self.last_turn = LastTurn { opp_life: self.opp.life, torpedo: Some(pos) };
        self.actions.push(Action::Torpedo(pos));
        Ok(())
    }

    /// Order a silent move of `dist` steps in `dir`, checked step by
    /// step against the map edge and the visited cells.
    pub fn silence(&mut self, dir: &Direction, dist: usize) -> (r: Result<(), ()>)
        requires
            old(self).wf(),
        ensures
            final(self).wf(),
            (r is Ok) == spec_silence_ok(*old(self), old(self).me.pos, *dir, dist as nat),
            r is Ok ==> final(self).actions@ == old(self).actions@.push(
                Action::Silence(*dir, dist),
            ),
            r is Err ==> final(self).actions == old(self).actions,
            final(self).map == old(self).map,
            final(self).me == old(self).me,
            final(self).opp == old(self).opp,
            final(self).last_turn == old(self).last_turn,
    {
        let ghost g = *self;
        let mut me_pos: Pos = self.me.pos;
        let mut j: usize = 0;
        while j < dist
            invariant
                *self == g,
                g == *old(self),
                self.wf(),
                j <= dist,
                me_pos.y < self.map.h,
                me_pos.x < self.map.w,
                spec_silence_ok(g, g.me.pos, *dir, dist as nat) == spec_silence_ok(
                    g,
                    me_pos,
                    *dir,
                    (dist - j) as nat,
                ),
            decreases dist - j,
        {
            let next = match dir.apply(&me_pos) {
                Ok(p) => p,
                Err(_) => {
                    return Err(());
                },
            };
            if next.x >= self.map.w || next.y >= self.map.h {
                return Err(());
            }
            if self.me.forbidden_map.get(next.y, next.x) {
                return Err(());
            }
            me_pos = next;
            j = j + 1;
        }
        self.actions.push(Action::Silence(*dir, dist));
        Ok(())
    }

    /// Take over one turn's observed values: the own position and life,
    /// the opponent's life, the charge counters, and the opponent's
    /// announced orders — `None` when no order information came at all,
    /// as opposed to an empty list. The own position is marked visited,
    /// the orders drive the belief update and the damage refinement, and
    /// the turn memory starts over.
    pub fn sync(
        &mut self,
        x: usize,
        y: usize,
        my_life: i32,
        opp_life: i32,
        torpedo_charge: usize,
        sonar_charge: usize,
        silence_charge: usize,
        opponent_orders: Option<&[Action]>,
    ) -> (r: Result<(), InputError>)
        requires
            old(self).wf(),
            y < old(self).map.h,
            x < old(self).map.w,
            0 <= opp_life <= MAX_LIFE,
        ensures
            final(self).wf(),
            final(self).map == old(self).map,
            final(self).me.pos == (Pos { y, x }),
            final(self).me.life == my_life,
            final(self).opp.life == opp_life,
            final(self).me.torpedo == torpedo_charge,
            final(self).me.sonar == sonar_charge,
            final(self).me.silence == silence_charge,
            final(self).me.forbidden_map.cell(y as int, x as int),
            forall|yy: int, xx: int|
                (yy, xx) != (y as int, x as int) ==> #[trigger] final(self).me.forbidden_map.cell(
                    yy,
                    xx,
                ) == old(self).me.forbidden_map.cell(yy, xx),
            opponent_orders matches Some(acts) ==> (r is Ok) == (grun_result(
                old(self).map,
                opp_cells(old(self).opp.pos),
                acts@,
            ) is Ok),
            opponent_orders is None ==> r is Ok,
            r is Ok ==> final(self).actions.len() == 0 && final(self).last_turn.opp_life
                == MAX_LIFE && final(self).last_turn.torpedo is None,
            opponent_orders matches Some(acts) ==> (r is Ok ==> opp_cells(final(self).opp.pos)
                == post_refine(
                old(self).map,
                grun_cells(old(self).map, opp_cells(old(self).opp.pos), acts@),
                old(self).last_turn.torpedo,
                old(self).last_turn.opp_life as int,
                opp_life as int,
            )),
            r is Ok && opponent_orders is None ==> opp_cells(final(self).opp.pos) == opp_cells(
                old(self).opp.pos,
            ),
            r matches Err(e) ==> opponent_orders matches Some(acts) && grun_result(
                old(self).map,
                opp_cells(old(self).opp.pos),
                acts@,
            ) == Err::<(), InputError>(e) && opp_cells(final(self).opp.pos) == grun_cells(
                old(self).map,
                opp_cells(old(self).opp.pos),
                acts@,
            ),
    {
        self.me.pos = Pos { y, x };
        self.me.life = my_life;
        self.opp.life = opp_life;
        self.me.torpedo = torpedo_charge;
        self.me.sonar = sonar_charge;
        self.me.silence = silence_charge;
        self.me.forbidden_map.set(y, x, true);
        match opponent_orders {
            Some(orders) => {
                let res = self.update_opponent(orders);
                match res {
                    Err(e) => {
                        return Err(e);
                    },
                    Ok(()) => {},
                }
                self.actions = Vec::new();
                self.last_turn = LastTurn::new();
                Ok(())
            },
            None => {
                self.actions = Vec::new();
                self.last_turn = LastTurn::new();
                Ok(())
            },
        }
    }
}

/// An area under the collapse invariant never holds exactly one
/// candidate, so its candidate set is no singleton.
proof fn lemma_gnot_singleton(b: OppPos)
    requires
        b matches OppPos::Area(m) && m.wf(),
        opp_collapsed(b),
    ensures
        b matches OppPos::Area(m) ==> !crate::belief::is_singleton(m.cells()),
{
    if let OppPos::Area(m) = b {
        if crate::belief::is_singleton(m.cells()) {
            let p = choose|p: (int, int)|
                #[trigger] m.cells().contains(p) && forall|q: (int, int)|
                    m.cells().contains(q) ==> q == p;
            assert(m.cell(p.0, p.1));
            assert forall|y: int, x: int| (y, x) != (p.0, p.1) implies !(#[trigger] m.cell(
                y,
                x,
            )) by {
                if m.cell(y, x) {
                    assert(m.cells().contains((y, x)));
                }
            }
            crate::grid::lemma_grid_count_singleton(m, p.0, p.1);
        }
    }
}

} // verus!
