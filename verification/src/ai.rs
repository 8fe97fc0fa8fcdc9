//! The own-submarine planner: pick a starting cell, then each turn keep
//! moving into the direction whose reachable free area is largest,
//! surfacing when boxed in and slipping away silently when the silent
//! move is charged.

use vstd::prelude::*;

use crate::actions::{Action, System};
use crate::game::{Game, spec_can_move, spec_silence_ok};
use crate::grid::{count_val, region_size};
use crate::pos::{Direction, Pos};

verus! {

/// The planner's memory: the direction it last committed to.
#[derive(Debug, Clone)]
pub struct Ai {
    pub dir: Option<Direction>,
}

/// The score of a move: how many cells stay reachable after it.
pub open spec fn dir_score(g: Game, d: Direction) -> nat {
    match d.spec_apply(g.me.pos) {
        Some(p) => region_size(g.me.forbidden_map, p.y as int, p.x as int),
        None => 0,
    }
}

/// The candidate directions of a turn, in the planner's fixed order.
pub open spec fn good_dirs(g: Game) -> Seq<Direction> {
    let s0 = Seq::<Direction>::empty();
    let s1 = if spec_can_move(g, Direction::E) {
        s0.push(Direction::E)
    } else {
        s0
    };
    let s2 = if spec_can_move(g, Direction::N) {
        s1.push(Direction::N)
    } else {
        s1
    };
    let s3 = if spec_can_move(g, Direction::W) {
        s2.push(Direction::W)
    } else {
        s2
    };
    if spec_can_move(g, Direction::S) {
        s3.push(Direction::S)
    } else {
        s3
    }
}

/// The direction the planner picks: the only open one, the better scored
/// of two, or, with more room, the direction it already followed if that
/// is still open, else the first open one.
pub open spec fn spec_plan_choice(g: Game, prev: Option<Direction>) -> Option<Direction> {
    let good = good_dirs(g);
    if good.len() == 0 {
        None
    } else if good.len() == 1 {
        Some(good[0])
    } else if good.len() == 2 {
        if dir_score(g, good[1]) >= dir_score(g, good[0]) {
            Some(good[1])
        } else {
            Some(good[0])
        }
    } else {
        match prev {
            Some(d) => if good.contains(d) {
                Some(d)
            } else {
                Some(good[0])
            },
            None => Some(good[0]),
        }
    }
}

/// Among exactly two candidates, the later-on-tie maximum is the second
/// when it scores at least the first, else the first.
proof fn lemma_best_of_two(g: Game, dirs: Seq<Direction>, d: Direction)
    requires
        dirs.len() == 2,
        exists|j: int|
            {
                &&& 0 <= j < dirs.len()
                &&& d == dirs[j]
                &&& forall|k: int|
                    0 <= k < dirs.len() ==> dir_score(g, dirs[k]) <= dir_score(
                        g,
                        #[trigger] dirs[j],
                    )
                &&& forall|k: int|
                    j < k < dirs.len() ==> dir_score(g, #[trigger] dirs[k]) < dir_score(
                        g,
                        dirs[j],
                    )
            },
    ensures
        d == (if dir_score(g, dirs[1]) >= dir_score(g, dirs[0]) {
            dirs[1]
        } else {
            dirs[0]
        }),
{
    let j = choose|j: int|
        {
            &&& 0 <= j < dirs.len()
            &&& d == dirs[j]
            &&& forall|k: int|
                0 <= k < dirs.len() ==> dir_score(g, dirs[k]) <= dir_score(g, #[trigger] dirs[j])
            &&& forall|k: int|
                j < k < dirs.len() ==> dir_score(g, #[trigger] dirs[k]) < dir_score(g, dirs[j])
        };
    assert(dir_score(g, dirs[0]) <= dir_score(g, dirs[j]));
    assert(dir_score(g, dirs[1]) <= dir_score(g, dirs[j]));
}

impl Ai {
    /// A fresh planner with no committed direction.
    pub fn new() -> (r: Ai)
        ensures
            r.dir is None,
    {
        Ai { dir: None }
    }

    /// Choose where to start: a random open cell of the map.
    pub fn select_start_point(&mut self, game: &mut Game) -> (r: Pos)
        requires
            old(game).wf(),
            count_val(old(game).map.data@, false) > 0,
        ensures
            *final(game) == *old(game),
            *final(self) == *old(self),
            r.y < old(game).map.h,
            r.x < old(game).map.w,
            !old(game).map.cell(r.y as int, r.x as int),
    {
        let start_pos = match game.map.rand_false_pos() {
            Ok(p) => p,
            Err(_) => vstd::pervasive::unreached::<Pos>(),
        };
        start_pos
    }

    /// Of the applicable directions, the one whose move keeps the most
    /// cells reachable; on a tie, the later one in `dirs`.
    pub fn get_best_dir(&self, game: &Game, dirs: &[Direction]) -> (r: Direction)
        requires
            game.wf(),
            dirs@.len() >= 1,
            forall|k: int| 0 <= k < dirs@.len() ==> spec_can_move(*game, dirs@[k]),
        ensures
            (exists|j: int|
                {
                    &&& 0 <= j < dirs@.len()
                    &&& r == dirs@[j]
                    &&& forall|k: int|
                        0 <= k < dirs@.len() ==> dir_score(*game, dirs@[k]) <= dir_score(
                            *game,
                            #[trigger] dirs@[j],
                        )
                    &&& forall|k: int|
                        j < k < dirs@.len() ==> dir_score(*game, #[trigger] dirs@[k]) < dir_score(
                            *game,
                            dirs@[j],
                        )
                }),
    {
        let first: Direction = dirs[0];
        let p0 = match first.apply(&game.me.pos) {
            Ok(p) => p,
            Err(_) => vstd::pervasive::unreached::<Pos>(),
        };
        let mut best_score: usize = game.me.forbidden_map.sub_false_area_size(&p0);
        let mut best_i: usize = 0;
        let mut k: usize = 1;
        while k < dirs.len()
            invariant
                game.wf(),
                forall|j: int| 0 <= j < dirs@.len() ==> spec_can_move(*game, dirs@[j]),
                1 <= k <= dirs@.len(),
                best_i < k,
                best_score == dir_score(*game, dirs@[best_i as int]),
                forall|j: int|
                    0 <= j < k ==> dir_score(*game, #[trigger] dirs@[j]) <= best_score,
                forall|j: int|
                    best_i < j < k ==> dir_score(*game, #[trigger] dirs@[j]) < best_score,
            decreases dirs@.len() - k,
        {
            let d: Direction = dirs[k];
            let p = match d.apply(&game.me.pos) {
                Ok(p) => p,
                Err(_) => vstd::pervasive::unreached::<Pos>(),
            };
            let score: usize = game.me.forbidden_map.sub_false_area_size(&p);
            if score >= best_score {
                best_score = score;
                best_i = k;
            }
            k = k + 1;
        }
        dirs[best_i]
    }

    /// Pick this turn's direction, or `None` when no move is open.
    pub fn plan_move(&self, game: &Game) -> (r: Option<Direction>)
        requires
            game.wf(),
        ensures
            r == spec_plan_choice(*game, self.dir),
            r matches Some(d) ==> spec_can_move(*game, d),
    {
        let mut good: Vec<Direction> = Vec::new();
        if game.can_move_to(&Direction::E).is_ok() {
            good.push(Direction::E);
        }
        if game.can_move_to(&Direction::N).is_ok() {
            good.push(Direction::N);
        }
        if game.can_move_to(&Direction::W).is_ok() {
            good.push(Direction::W);
        }
        if game.can_move_to(&Direction::S).is_ok() {
            good.push(Direction::S);
        }
        proof {
            assert(good@ =~= good_dirs(*game));
        }
        if good.len() == 0 {
            return None;
        }
        if good.len() == 1 {
            return Some(good[0]);
        }
        if good.len() == 2 {
            let d = self.get_best_dir(game, good.as_slice());
            proof {
                lemma_best_of_two(*game, good@, d);
            }
            return Some(d);
        }
        if let Some(d) = self.dir {
            let mut found: bool = false;
            let mut k: usize = 0;
            while k < good.len()
                invariant
                    k <= good@.len(),
                    found == exists|j: int| 0 <= j < k && good@[j] == d,
                decreases good@.len() - k,
            {
                if good[k] == d {
                    proof {
                        assert(good@[k as int] == d);
                    }
                    found = true;
                }
                k = k + 1;
            }
            if found {
                proof {
                    assert(good@.contains(d));
                }
                return Some(d);
            }
            proof {
                assert(!good@.contains(d)) by {
                    if good@.contains(d) {
                        let j = choose|j: int| 0 <= j < good@.len() && good@[j] == d;
                        assert(exists|jj: int| 0 <= jj < good@.len() && good@[jj] == d);
                    }
                }
            }
            return Some(good[0]);
        }
        Some(good[0])
    }

    /// Commit this turn's orders: surface when boxed in, otherwise move —
    /// silently when the silent move is charged, normally (charging the
    /// silent move) when not.
    pub fn plan_actions(&mut self, game: &mut Game)
        requires
            old(game).wf(),
            old(game).map.h % 3 == 0,
            old(game).map.w % 3 == 0,
            old(game).map.h >= 3,
            old(game).map.w >= 3,
        ensures
            final(game).wf(),
            final(self).dir == spec_plan_choice(*old(game), old(self).dir),
            final(game).map == old(game).map,
            final(game).opp == old(game).opp,
            final(game).last_turn == old(game).last_turn,
            spec_plan_choice(*old(game), old(self).dir) matches Some(d) ==> final(game).me == old(
                game,
            ).me && (if old(game).me.silence == 0 {
                final(game).actions@ == old(game).actions@.push(Action::Silence(d, 1))
            } else {
                final(game).actions@ == old(game).actions@.push(
                    Action::Move(d, System::Silence),
                )
            }),
            spec_plan_choice(*old(game), old(self).dir) is None ==> final(game).actions@ == old(
                game,
            ).actions@.push(
                Action::Surface(
                    crate::grid::spec_sector(
                        old(game).map.h as int,
                        old(game).map.w as int,
                        old(game).me.pos.y as int,
                        old(game).me.pos.x as int,
                    ) as usize,
                ),
            ),
    {
        let dir: Direction = match self.plan_move(game) {
            Some(dir) => dir,
            None => {
                self.dir = None;
                game.surface();
                return ;
            },
        };
        self.dir = Some(dir);
        if game.me.silence == 0 {
            let res = game.silence(&dir, 1);
            proof {
                reveal_with_fuel(crate::game::spec_silence_ok, 2);
                assert(spec_silence_ok(*old(game), old(game).me.pos, dir, 1nat));
                assert(res is Ok);
            }
        } else {
            let res = game.move_to(&dir, &System::Silence);
            proof {
                assert(res is Ok);
            }
        }
    }
}

} // verus!
