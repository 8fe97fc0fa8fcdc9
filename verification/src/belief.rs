//! The belief state: where the opponent could be, and how each announced
//! action narrows it. The state is either one exactly known cell or a
//! candidate area; every transition is specified over the set of candidate
//! cells.

use vstd::prelude::*;

use crate::actions::{InputError, OppAction};
use crate::bitgrid::{
    NewMap, in_side, lemma_spec_count_one, lemma_spec_count_singleton, lemma_spec_count_zero,
    spec_count,
};
use crate::masks::MaskTables;
use crate::pos::{Direction, Pos, abs_int, manhattan};

verus! {

/// The set holding exactly the cell `(y, x)`.
pub open spec fn singleton_cell(y: int, x: int) -> Set<(int, int)> {
    Set::empty().insert((y, x))
}

/// Whether `s` holds exactly one cell.
pub open spec fn is_singleton(s: Set<(int, int)>) -> bool {
    exists|p: (int, int)|
        #[trigger] s.contains(p) && forall|q: (int, int)| s.contains(q) ==> q == p
}

/// Candidate positions after every candidate moves one step in `d`,
/// dropping those that leave the map.
pub open spec fn shift_cells(a: Set<(int, int)>, d: Direction) -> Set<(int, int)> {
    Set::new(
        |p: (int, int)|
            in_side(p.0, p.1) && match d {
                Direction::N => a.contains((p.0 + 1, p.1)),
                Direction::S => a.contains((p.0 - 1, p.1)),
                Direction::E => a.contains((p.0, p.1 - 1)),
                Direction::W => a.contains((p.0, p.1 + 1)),
            },
    )
}

/// The cells of sector `s`.
pub open spec fn sector_cells(s: int) -> Set<(int, int)> {
    Set::new(|p: (int, int)| crate::masks::sector_bit(s, p.0, p.1))
}

/// The cells within the attack's Manhattan range of its target.
pub open spec fn torpedo_cells(ty: int, tx: int) -> Set<(int, int)> {
    Set::new(|p: (int, int)| in_side(p.0, p.1) && manhattan(p.0, p.1, ty, tx) <= 4)
}

/// Whether one stealth move can take a ship from `q` to `p`: up to 4
/// steps along exactly one axis, staying put only if the convention
/// allows it.
pub open spec fn cross_step(stay: bool, q: (int, int), p: (int, int)) -> bool {
    ((p.0 == q.0 && abs_int(p.1 - q.1) <= 4) || (p.1 == q.1 && abs_int(p.0 - q.0) <= 4)) && (stay
        || p != q)
}

/// Candidate positions after one stealth move from any candidate in `a`.
pub open spec fn silence_cells(a: Set<(int, int)>, stay: bool) -> Set<(int, int)> {
    Set::new(
        |p: (int, int)|
            in_side(p.0, p.1) && exists|q: (int, int)| #[trigger] a.contains(q) && cross_step(
                stay,
                q,
                p,
            ),
    )
}

/// An empty candidate set marks a tracking desync: the engine falls back
/// to "anywhere in open water" rather than abort.
pub open spec fn area_or_reset(water: NewMap, s: Set<(int, int)>) -> Set<(int, int)> {
    if s.is_empty() {
        water.cells()
    } else {
        s
    }
}

/// One action applied to a candidate area, before the desync fallback.
pub open spec fn area_step(
    water: NewMap,
    a: Set<(int, int)>,
    action: OppAction,
    stay: bool,
) -> Result<Set<(int, int)>, InputError> {
    match action {
        OppAction::Move(d) => Ok(shift_cells(a, d).intersect(water.cells())),
        OppAction::Surface(s) => if 1 <= s <= 9 {
            Ok(a.intersect(sector_cells(s as int)))
        } else {
            Err(InputError::BadSector)
        },
        OppAction::Torpedo(t) => if t.y < 15 && t.x < 15 {
            Ok(a.intersect(torpedo_cells(t.y as int, t.x as int)))
        } else {
            Err(InputError::BadPosition)
        },
        OppAction::Sonar(s) => if 1 <= s <= 9 {
            Ok(a)
        } else {
            Err(InputError::BadSector)
        },
        OppAction::Silence => Ok(silence_cells(a, stay).intersect(water.cells())),
    }
}

/// Where one step in `d` takes the cell `q`.
pub open spec fn step_pos(q: (int, int), d: Direction) -> (int, int) {
    match d {
        Direction::N => (q.0 - 1, q.1),
        Direction::S => (q.0 + 1, q.1),
        Direction::E => (q.0, q.1 + 1),
        Direction::W => (q.0, q.1 - 1),
    }
}

/// One action applied to an exactly known position `q`, before the
/// desync fallback. A declared move is trusted (the opponent could only
/// announce a legal one), but walking off the map is rejected. A stealth
/// move degrades the state to an area around `q`, with `q` itself marked
/// as just left.
pub open spec fn exact_step(
    water: NewMap,
    q: (int, int),
    action: OppAction,
    stay: bool,
) -> Result<Set<(int, int)>, InputError> {
    match action {
        OppAction::Move(d) => {
            let p2 = step_pos(q, d);
            if in_side(p2.0, p2.1) {
                Ok(singleton_cell(p2.0, p2.1))
            } else {
                Err(InputError::OffMap)
            }
        },
        OppAction::Surface(s) => if 1 <= s <= 9 {
            Ok(singleton_cell(q.0, q.1))
        } else {
            Err(InputError::BadSector)
        },
        OppAction::Torpedo(t) => if t.y < 15 && t.x < 15 {
            Ok(singleton_cell(q.0, q.1))
        } else {
            Err(InputError::BadPosition)
        },
        OppAction::Sonar(s) => if 1 <= s <= 9 {
            Ok(singleton_cell(q.0, q.1))
        } else {
            Err(InputError::BadSector)
        },
        OppAction::Silence => Ok(
            silence_cells(singleton_cell(q.0, q.1), stay).intersect(water.cells()).remove(q),
        ),
    }
}

/// One action applied to a candidate set, desync fallback included. The
/// exactly-known case is the one where a single candidate remains.
#[verifier::opaque]
pub open spec fn step_cells(
    water: NewMap,
    s: Set<(int, int)>,
    action: OppAction,
    stay: bool,
) -> Result<Set<(int, int)>, InputError> {
    let raw = if is_singleton(s) {
        exact_step(water, choose|q: (int, int)| s.contains(q), action, stay)
    } else {
        area_step(water, s, action, stay)
    };
    match raw {
        Ok(s2) => Ok(area_or_reset(water, s2)),
        Err(e) => Err(e),
    }
}

/// The candidate set after the longest prefix of `actions` that applies
/// without error.
#[verifier::opaque]
pub open spec fn run_cells(
    water: NewMap,
    s: Set<(int, int)>,
    actions: Seq<OppAction>,
    stay: bool,
) -> Set<(int, int)>
    decreases actions.len(),
{
    if actions.len() == 0 {
        s
    } else {
        match step_cells(water, s, actions[0], stay) {
            Ok(s2) => run_cells(water, s2, actions.skip(1), stay),
            Err(_) => s,
        }
    }
}

/// `Ok` when every action of `actions` applies in order; otherwise the
/// first error met.
#[verifier::opaque]
pub open spec fn run_result(
    water: NewMap,
    s: Set<(int, int)>,
    actions: Seq<OppAction>,
    stay: bool,
) -> Result<(), InputError>
    decreases actions.len(),
{
    if actions.len() == 0 {
        Ok(())
    } else {
        match step_cells(water, s, actions[0], stay) {
            Ok(s2) => run_result(water, s2, actions.skip(1), stay),
            Err(e) => Err(e),
        }
    }
}

/// The belief about an unseen position: known exactly, or narrowed to a
/// candidate area.
#[derive(Debug, Clone)]
pub enum FuzzyPos {
    Exact(Pos),
    Area(NewMap),
}

/// The candidate cells a belief admits.
pub open spec fn belief_cells(b: FuzzyPos) -> Set<(int, int)> {
    match b {
        FuzzyPos::Exact(q) => singleton_cell(q.y as int, q.x as int),
        FuzzyPos::Area(m) => m.cells(),
    }
}

/// Structural well-formedness of a belief.
pub open spec fn belief_wf(b: FuzzyPos) -> bool {
    match b {
        FuzzyPos::Exact(q) => q.y < 15 && q.x < 15,
        FuzzyPos::Area(m) => m.wf(),
    }
}

/// The collapse invariant: an area never holds exactly one candidate —
/// such a state is always represented exactly.
pub open spec fn belief_collapsed(b: FuzzyPos) -> bool {
    match b {
        FuzzyPos::Exact(_) => true,
        FuzzyPos::Area(m) => spec_count(m, true) != 1,
    }
}

/// The desync invariant: an empty area never persists; it can only be
/// seen when the map has no open water at all.
pub open spec fn belief_live(water: NewMap, b: FuzzyPos) -> bool {
    match b {
        FuzzyPos::Exact(_) => true,
        FuzzyPos::Area(m) => spec_count(m, true) != 0 || spec_count(water, true) == 0,
    }
}

/// What one action does to a belief: the area or exact rule, then the
/// desync fallback.
pub open spec fn next_belief(
    water: NewMap,
    b: FuzzyPos,
    action: OppAction,
    stay: bool,
) -> Result<Set<(int, int)>, InputError> {
    let raw = match b {
        FuzzyPos::Exact(q) => exact_step(water, (q.y as int, q.x as int), action, stay),
        FuzzyPos::Area(m) => area_step(water, m.cells(), action, stay),
    };
    match raw {
        Ok(s2) => Ok(area_or_reset(water, s2)),
        Err(e) => Err(e),
    }
}

/// The tracked belief about the opponent, with the open-water context it
/// was built from.
#[derive(Debug, Clone)]
pub struct PosData {
    pub water_map: NewMap,
    pub pos: FuzzyPos,
    pub forbidden_map: NewMap,
    pub last_moves_since_lost: Vec<Direction>,
}

impl PosData {
    /// The water context is fixed and the belief always satisfies the
    /// collapse and desync invariants.
    pub open spec fn wf(self) -> bool {
        &&& self.water_map.wf()
        &&& belief_wf(self.pos)
        &&& belief_collapsed(self.pos)
        &&& belief_live(self.water_map, self.pos)
    }

    /// Collapse a freshly computed area: an empty one falls back to full
    /// open water, a one-cell one becomes an exact position.
    fn normalize(water: &NewMap, m: NewMap) -> (r: FuzzyPos)
        requires
            water.wf(),
            m.wf(),
        ensures
            belief_wf(r),
            belief_collapsed(r),
            belief_live(*water, r),
            belief_cells(r) == area_or_reset(*water, m.cells()),
    {
        let ghost cells0 = m.cells();
        let c0: usize = m.count(true);
        proof {
            lemma_spec_count_zero(m, true);
        }
        let m2: NewMap = if c0 == 0 {
            water.clone()
        } else {
            m
        };
        proof {
            if c0 == 0 {
                assert(cells0 =~= Set::<(int, int)>::empty());
                assert(m2.cells() =~= water.cells());
                assert(crate::bitgrid::bits_seq(m2) =~= crate::bitgrid::bits_seq(*water));
                assert(m2.cells() == area_or_reset(*water, cells0));
            } else {
                assert(!(cells0 =~= Set::<(int, int)>::empty())) by {
                    if cells0 =~= Set::<(int, int)>::empty() {
                        assert forall|y: int, x: int| in_side(y, x) implies #[trigger] m2.bit(y, x)
                            != true by {
                            assert(!cells0.contains((y, x)));
                        }
                    }
                }
                assert(m2.cells() == area_or_reset(*water, cells0));
            }
        }
        let c: usize = m2.count(true);
        if c == 1 {
            let p: Pos = match m2.first_match(true) {
                Ok(p) => p,
                Err(_) => {
                    proof {
                        lemma_spec_count_zero(m2, true);
                    }
                    vstd::pervasive::unreached::<Pos>()
                },
            };
            proof {
                lemma_spec_count_one(m2, true, p.y as int, p.x as int);
                assert(m2.cells() =~= singleton_cell(p.y as int, p.x as int));
            }
            FuzzyPos::Exact(p)
        } else {
            FuzzyPos::Area(m2)
        }
    }

    /// Start tracking: the opponent can be anywhere in open water.
    pub fn new(water_map: NewMap) -> (r: PosData)
        requires
            water_map.wf(),
        ensures
            r.wf(),
            r.water_map == water_map,
            belief_cells(r.pos) == water_map.cells(),
            forall|y: int, x: int|
                #[trigger] r.forbidden_map.bit(y, x) == (in_side(y, x) && !water_map.bit(y, x)),
            r.last_moves_since_lost.len() == 0,
    {
        let forbidden_map = water_map.not();
        let start = water_map.clone();
        proof {
            assert(start.cells() =~= water_map.cells());
        }
        let pos = Self::normalize(&water_map, start);
        proof {
            assert(belief_cells(pos) == water_map.cells());
        }
        PosData { water_map, pos, forbidden_map, last_moves_since_lost: Vec::new() }
    }

    /// Apply one announced opponent action to the belief, per the
    /// transition table. Afterwards the collapse and desync invariants
    /// hold again: an area of one candidate has become exact, an emptied
    /// area has been reset to full open water. Ill-formed input is
    /// rejected and leaves the belief unchanged.
    pub fn analyse_action(&mut self, action: &OppAction, tables: &MaskTables) -> (r: Result<
        (),
        InputError,
    >)
        requires
            old(self).wf(),
            tables.wf(),
        ensures
            final(self).wf(),
            final(self).water_map == old(self).water_map,
            final(self).forbidden_map == old(self).forbidden_map,
            final(self).last_moves_since_lost == old(self).last_moves_since_lost,
            (r is Ok) == (next_belief(
                old(self).water_map,
                old(self).pos,
                *action,
                tables.stay_allowed,
            ) is Ok),
            r matches Err(e) ==> next_belief(
                old(self).water_map,
                old(self).pos,
                *action,
                tables.stay_allowed,
            ) == Err::<Set<(int, int)>, InputError>(e) && final(self).pos == old(self).pos,
            r is Ok ==> Ok::<Set<(int, int)>, InputError>(belief_cells(final(self).pos))
                == next_belief(old(self).water_map, old(self).pos, *action, tables.stay_allowed),
    {
        let ghost water = self.water_map;
        let ghost b0 = self.pos;
        let ghost stay = tables.stay_allowed;
        let new_pos: FuzzyPos = match &self.pos {
            FuzzyPos::Area(map) => {
                let m2: NewMap = match action {
                    OppAction::Move(dir) => {
                        let mut m = map.clone();
                        m.shift(dir, 1);
                        let m2 = m.and(&self.water_map);
                        proof {
                            assert(m2.cells() =~= shift_cells(belief_cells(b0), *dir).intersect(
                                water.cells(),
                            ));
                        }
                        m2
                    },
                    OppAction::Surface(sector) => {
                        if *sector < 1 || *sector > 9 {
                            return Err(InputError::BadSector);
                        }
                        let m2 = map.and(&tables.sector_mask[*sector - 1]);
                        proof {
                            assert(m2.cells() =~= belief_cells(b0).intersect(
                                sector_cells(*sector as int),
                            ));
                        }
                        m2
                    },
                    OppAction::Torpedo(t) => {
                        if t.y >= 15 || t.x >= 15 {
                            return Err(InputError::BadPosition);
                        }
                        let sh = t.isub(&tables.torpedo_range.offset);
                        let mask = tables.torpedo_range.map.ipos_shift(sh);
                        let m2 = map.and(&mask);
                        proof {
                            assert forall|p: (int, int)| mask.cells().contains(p)
                                == torpedo_cells(t.y as int, t.x as int).contains(p) by {}
                            assert(m2.cells() =~= belief_cells(b0).intersect(
                                torpedo_cells(t.y as int, t.x as int),
                            ));
                        }
                        m2
                    },
                    OppAction::Sonar(sector) => {
                        if *sector < 1 || *sector > 9 {
                            return Err(InputError::BadSector);
                        }
                        let m2 = map.clone();
                        proof {
                            assert(m2.cells() =~= belief_cells(b0));
                        }
                        m2
                    },
                    OppAction::Silence => {
                        let c = map.compose(
                            &tables.silence_range.map,
                            &tables.silence_range.offset,
                        );
                        let m2 = c.and(&self.water_map);
                        proof {
                            assert forall|p: (int, int)| c.cells().contains(p) == silence_cells(
                                belief_cells(b0),
                                stay,
                            ).contains(p) by {
                                if c.cells().contains(p) {
                                    let q = choose|q: (int, int)|
                                        #[trigger] map.bit(q.0, q.1) && tables.silence_range.map.bit(
                                            p.0 - q.0 + 4,
                                            p.1 - q.1 + 4,
                                        );
                                    assert(belief_cells(b0).contains(q) && cross_step(
                                        stay,
                                        q,
                                        p,
                                    ));
                                }
                                if silence_cells(belief_cells(b0), stay).contains(p) {
                                    let q = choose|q: (int, int)|
                                        #[trigger] belief_cells(b0).contains(q) && cross_step(
                                            stay,
                                            q,
                                            p,
                                        );
                                    assert(map.bit(q.0, q.1) && tables.silence_range.map.bit(
                                        p.0 - q.0 + 4,
                                        p.1 - q.1 + 4,
                                    ));
                                }
                            }
                            assert(m2.cells() =~= silence_cells(belief_cells(b0), stay).intersect(
                                water.cells(),
                            ));
                        }
                        m2
                    },
                };
                Self::normalize(&self.water_map, m2)
            },
            FuzzyPos::Exact(pos) => {
                let ghost q: (int, int) = (pos.y as int, pos.x as int);
                match action {
                    OppAction::Move(dir) => {
                        let p2: Pos = match dir.apply(pos) {
                            Ok(p2) => p2,
                            Err(_) => {
                                return Err(InputError::OffMap);
                            },
                        };
                        if p2.y >= 15 || p2.x >= 15 {
                            return Err(InputError::OffMap);
                        }
                        proof {
                            assert(step_pos(q, *dir) == (p2.y as int, p2.x as int));
                            assert(!singleton_cell(p2.y as int, p2.x as int).is_empty());
                        }
                        FuzzyPos::Exact(p2)
                    },
                    OppAction::Surface(sector) => {
                        if *sector < 1 || *sector > 9 {
                            return Err(InputError::BadSector);
                        }
                        proof {
                            assert(!singleton_cell(q.0, q.1).is_empty());
                        }
                        FuzzyPos::Exact(*pos)
                    },
                    OppAction::Torpedo(t) => {
                        if t.y >= 15 || t.x >= 15 {
                            return Err(InputError::BadPosition);
                        }
                        proof {
                            assert(!singleton_cell(q.0, q.1).is_empty());
                        }
                        FuzzyPos::Exact(*pos)
                    },
                    OppAction::Sonar(sector) => {
                        if *sector < 1 || *sector > 9 {
                            return Err(InputError::BadSector);
                        }
                        proof {
                            assert(!singleton_cell(q.0, q.1).is_empty());
                        }
                        FuzzyPos::Exact(*pos)
                    },
                    OppAction::Silence => {
                        let sh = pos.isub(&tables.silence_range.offset);
                        let mut m = tables.silence_range.map.ipos_shift(sh);
                        m = m.and(&self.water_map);
                        m.set(Pos { x: pos.x, y: pos.y }, false);
                        proof {
                            assert forall|p: (int, int)| m.cells().contains(p) == silence_cells(
                                singleton_cell(q.0, q.1),
                                stay,
                            ).intersect(water.cells()).remove(q).contains(p) by {
                                if silence_cells(singleton_cell(q.0, q.1), stay).contains(p) {
                                    let qq = choose|qq: (int, int)|
                                        #[trigger] singleton_cell(q.0, q.1).contains(qq)
                                            && cross_step(stay, qq, p);
                                    assert(qq == q);
                                }
                                if in_side(p.0, p.1) && cross_step(stay, q, p) {
                                    assert(singleton_cell(q.0, q.1).contains(q) && cross_step(
                                        stay,
                                        q,
                                        p,
                                    ));
                                }
                            }
                            assert(m.cells() =~= silence_cells(
                                singleton_cell(q.0, q.1),
                                stay,
                            ).intersect(water.cells()).remove(q));
                        }
                        Self::normalize(&self.water_map, m)
                    },
                }
            },
        };
        self.pos = new_pos;
        Ok(())
    }

    /// Apply a turn's announced actions in order, stopping at the first
    /// ill-formed one, which leaves the belief as the actions before it
    /// made it.
    #[verifier::rlimit(100)]
    pub fn analyse_actions(&mut self, actions: &[OppAction], tables: &MaskTables) -> (r: Result<
        (),
        InputError,
    >)
        requires
            old(self).wf(),
            tables.wf(),
        ensures
            final(self).wf(),
            final(self).water_map == old(self).water_map,
            final(self).forbidden_map == old(self).forbidden_map,
            final(self).last_moves_since_lost == old(self).last_moves_since_lost,
            belief_cells(final(self).pos) == run_cells(
                old(self).water_map,
                belief_cells(old(self).pos),
                actions@,
                tables.stay_allowed,
            ),
            r == run_result(
                old(self).water_map,
                belief_cells(old(self).pos),
                actions@,
                tables.stay_allowed,
            ),
    {
        let ghost water = self.water_map;
        let ghost s0 = belief_cells(self.pos);
        let ghost stay = tables.stay_allowed;
        let ghost fb0 = self.forbidden_map;
        let ghost lm0 = self.last_moves_since_lost;
        let n: usize = actions.len();
        proof {
            assert(actions@.skip(0) =~= actions@);
        }
        let mut i: usize = 0;
        while i < n
            invariant
                self.wf(),
                tables.wf(),
                self.water_map == water,
                water == old(self).water_map,
                self.forbidden_map == fb0,
                fb0 == old(self).forbidden_map,
                self.last_moves_since_lost == lm0,
                lm0 == old(self).last_moves_since_lost,
                s0 == belief_cells(old(self).pos),
                stay == tables.stay_allowed,
                n == actions.len(),
                i <= n,
                run_cells(water, belief_cells(self.pos), actions@.skip(i as int), stay)
                    == run_cells(water, s0, actions@, stay),
                run_result(water, belief_cells(self.pos), actions@.skip(i as int), stay)
                    == run_result(water, s0, actions@, stay),
            decreases n - i,
        {
            let ghost bcur = self.pos;
            let a = &actions[i];
            proof {
                assert(*a == actions@[i as int]);
            }
            let res = self.analyse_action(a, tables);
            proof {
                lemma_advance(water, s0, actions@, i as int, stay, bcur, res, self.pos);
            }
            if let Err(e) = res {
                return Err(e);
            }
            i = i + 1;
        }
        proof {
            assert(actions@.skip(n as int) =~= Seq::<OppAction>::empty());
            lemma_run_nil(water, belief_cells(self.pos), actions@.skip(n as int), stay);
        }
        Ok(())
    }
}

/// The bookkeeping of one engine step inside a run: advancing the belief
/// by one in-range action advances the fold by one action, and an error
/// freezes both.
proof fn lemma_advance(
    water: NewMap,
    s0: Set<(int, int)>,
    actions: Seq<OppAction>,
    i: int,
    stay: bool,
    bcur: FuzzyPos,
    res: Result<(), InputError>,
    bnew: FuzzyPos,
)
    requires
        0 <= i < actions.len(),
        belief_wf(bcur),
        belief_collapsed(bcur),
        run_cells(water, belief_cells(bcur), actions.skip(i), stay) == run_cells(
            water,
            s0,
            actions,
            stay,
        ),
        run_result(water, belief_cells(bcur), actions.skip(i), stay) == run_result(
            water,
            s0,
            actions,
            stay,
        ),
        (res is Ok) == (next_belief(water, bcur, actions[i], stay) is Ok),
        res matches Err(e) ==> next_belief(water, bcur, actions[i], stay) == Err::<
            Set<(int, int)>,
            InputError,
        >(e) && bnew == bcur,
        res is Ok ==> Ok::<Set<(int, int)>, InputError>(belief_cells(bnew)) == next_belief(
            water,
            bcur,
            actions[i],
            stay,
        ),
    ensures
        res is Ok ==> run_cells(water, belief_cells(bnew), actions.skip(i + 1), stay) == run_cells(
            water,
            s0,
            actions,
            stay,
        ) && run_result(water, belief_cells(bnew), actions.skip(i + 1), stay) == run_result(
            water,
            s0,
            actions,
            stay,
        ),
        res matches Err(e) ==> run_cells(water, s0, actions, stay) == belief_cells(bnew)
            && run_result(water, s0, actions, stay) == Err::<(), InputError>(e),
{
    lemma_next_is_step(water, bcur, actions[i], stay);
    lemma_run_peel(water, belief_cells(bcur), actions.skip(i), stay);
    assert(actions.skip(i)[0] == actions[i]);
    assert(actions.skip(i).skip(1) =~= actions.skip(i + 1));
}

/// With no actions left, a run changes nothing and succeeds.
pub proof fn lemma_run_nil(water: NewMap, s: Set<(int, int)>, actions: Seq<OppAction>, stay: bool)
    requires
        actions.len() == 0,
    ensures
        run_cells(water, s, actions, stay) == s,
        run_result(water, s, actions, stay) == Ok::<(), InputError>(()),
{
    reveal(run_cells);
    reveal(run_result);
}

/// Peeling the first action off a run: the run continues from that
/// action's result, or stops at its error.
pub proof fn lemma_run_peel(water: NewMap, s: Set<(int, int)>, actions: Seq<OppAction>, stay: bool)
    requires
        actions.len() > 0,
    ensures
        (match step_cells(water, s, actions[0], stay) {
            Ok(s2) => run_cells(water, s, actions, stay) == run_cells(
                water,
                s2,
                actions.skip(1),
                stay,
            ) && run_result(water, s, actions, stay) == run_result(
                water,
                s2,
                actions.skip(1),
                stay,
            ),
            Err(e) => run_cells(water, s, actions, stay) == s && run_result(water, s, actions, stay)
                == Err::<(), InputError>(e),
        }),
{
    reveal(run_cells);
    reveal(run_result);
}

/// Under the collapse invariant, the representation of a belief is
/// determined by its candidate set, so the per-belief transition agrees
/// with the per-set one.
pub proof fn lemma_next_is_step(water: NewMap, b: FuzzyPos, action: OppAction, stay: bool)
    requires
        belief_wf(b),
        belief_collapsed(b),
    ensures
        next_belief(water, b, action, stay) == step_cells(water, belief_cells(b), action, stay),
{
    reveal(step_cells);
    match b {
        FuzzyPos::Exact(q) => {
            let qq: (int, int) = (q.y as int, q.x as int);
            let s = singleton_cell(qq.0, qq.1);
            assert(s.contains(qq));
            assert(is_singleton(s));
            let c = choose|p: (int, int)| s.contains(p);
            assert(s.contains(c));
            assert(c == qq);
        },
        FuzzyPos::Area(m) => {
            if is_singleton(m.cells()) {
                let p = choose|p: (int, int)|
                    #[trigger] m.cells().contains(p) && forall|q: (int, int)|
                        m.cells().contains(q) ==> q == p;
                assert(m.bit(p.0, p.1));
                assert forall|y: int, x: int|
                    in_side(y, x) && (y, x) != (p.0, p.1) implies #[trigger] m.bit(y, x)
                    != true by {
                    if m.bit(y, x) {
                        assert(m.cells().contains((y, x)));
                    }
                }
                lemma_spec_count_singleton(m, true, p.0, p.1);
            }
        },
    }
}

} // verus!
