use periscope::actions::{Action, InputError, System};
use periscope::game::{Game, LastTurn, OppPos};
use periscope::grid::Grid;
use periscope::parse::parse_action_list;
use periscope::pos::{Direction, Pos};

fn open_map(side: usize) -> Grid {
    Grid::new(side, side)
}

fn candidates(g: &Game) -> usize {
    match &g.opp.pos {
        OppPos::Area(m) => m.h * m.w - m.nb_false(),
        OppPos::Exact(_) => 1,
    }
}

#[test]
fn test_initial_belief_full_water() {
    let game = Game::new(open_map(6), 0);
    assert_eq!(candidates(&game), 36);
}

#[test]
fn test_move_east_shrinks_area() {
    // a 5 x 5 map with no land: 25 candidates; after an announced eastward
    // move the column that would fall off the east edge is dropped and the
    // west column has no source, leaving 20
    let mut game = Game::new(open_map(5), 0);
    assert_eq!(candidates(&game), 25);
    let r = game.update_opponent(&[Action::Move(Direction::E, System::Torpedo)]);
    assert_eq!(r, Ok(()));
    match &game.opp.pos {
        OppPos::Area(m) => {
            assert_eq!(m.h * m.w - m.nb_false(), 20);
            for y in 0..5usize {
                assert!(!m.get(y, 0), "west column must be empty");
            }
        }
        OppPos::Exact(_) => panic!("unexpected collapse"),
    }
}

#[test]
fn test_torpedo_announcement_collapses() {
    // two far-apart candidates; only one lies within blast range
    let mut game = Game::new(open_map(5), 0);
    let mut area = Grid::new(5, 5);
    area.set(0, 0, true);
    area.set(4, 4, true);
    game.opp.pos = OppPos::Area(area);
    let r = game.update_opponent(&[Action::Torpedo(Pos { y: 0, x: 1 })]);
    assert_eq!(r, Ok(()));
    match &game.opp.pos {
        OppPos::Exact(p) => assert_eq!(*p, Pos { y: 0, x: 0 }),
        OppPos::Area(_) => panic!("belief did not collapse"),
    }
}

#[test]
fn test_near_miss_refinement_excludes_target() {
    // a glancing hit: the opponent is adjacent to the blast, not on it
    let mut game = Game::new(open_map(5), 0);
    game.last_turn = LastTurn {
        opp_life: 6,
        torpedo: Some(Pos { y: 2, x: 2 }),
    };
    game.opp.life = 5;
    let r = game.update_opponent(&[]);
    assert_eq!(r, Ok(()));
    match &game.opp.pos {
        OppPos::Area(m) => {
            assert!(!m.get(2, 2), "the blast cell itself was a near miss");
            assert!(m.get(1, 1) && m.get(1, 2) && m.get(3, 3));
            assert!(!m.get(0, 0));
            assert_eq!(m.h * m.w - m.nb_false(), 8);
        }
        OppPos::Exact(_) => panic!("a splash must leave an area"),
    }
}

#[test]
fn test_direct_hit_pins_position() {
    let mut game = Game::new(open_map(5), 0);
    game.last_turn = LastTurn {
        opp_life: 6,
        torpedo: Some(Pos { y: 3, x: 1 }),
    };
    game.opp.life = 4;
    let r = game.update_opponent(&[]);
    assert_eq!(r, Ok(()));
    match &game.opp.pos {
        OppPos::Exact(p) => assert_eq!(*p, Pos { y: 3, x: 1 }),
        OppPos::Area(_) => panic!("a direct hit pins the position"),
    }
}

#[test]
fn test_silence_expands_cross() {
    let mut game = Game::new(open_map(9), 0);
    let mut area = Grid::new(9, 9);
    area.set(4, 4, true);
    game.opp.pos = OppPos::Area(area);
    let r = game.update_opponent(&[Action::Silence(Direction::N, 0)]);
    assert_eq!(r, Ok(()));
    match &game.opp.pos {
        OppPos::Area(m) => {
            // the cell itself plus four arms of four
            assert_eq!(m.h * m.w - m.nb_false(), 17);
            assert!(m.get(4, 4) && m.get(4, 0) && m.get(0, 4) && m.get(8, 4) && m.get(4, 8));
            assert!(!m.get(3, 3));
        }
        OppPos::Exact(_) => panic!("unexpected collapse"),
    }
}

#[test]
fn test_own_orders() {
    let mut game = Game::new(open_map(6), 0);
    game.me.pos = Pos { y: 2, x: 2 };
    assert_eq!(game.can_move_to(&Direction::E), Ok(()));
    assert_eq!(game.move_to(&Direction::E, &System::Torpedo), Ok(()));
    game.me.torpedo = 0;
    assert_eq!(game.torpedo(Pos { y: 1, x: 1 }), Ok(()));
    assert_eq!(game.last_turn.torpedo, Some(Pos { y: 1, x: 1 }));
    assert_eq!(game.silence(&Direction::S, 2), Ok(()));
    assert_eq!(game.actions.len(), 3);
    // a silent run into the map edge is rejected
    assert_eq!(game.silence(&Direction::N, 3), Err(()));
    // a move onto a visited cell is rejected
    game.me.forbidden_map.set(2, 3, true);
    assert_eq!(game.can_move_to(&Direction::E), Err(()));
}

#[test]
fn test_sync_runs_a_turn() {
    let mut game = Game::new(open_map(6), 0);
    let orders = parse_action_list("MOVE E").expect("orders parse");
    let r = game.sync(3, 2, 6, 6, 0, 0, 0, Some(orders.as_slice()));
    assert_eq!(r, Ok(()));
    assert_eq!(game.me.pos, Pos { y: 2, x: 3 });
    assert!(game.me.forbidden_map.get(2, 3));
    assert_eq!(candidates(&game), 30);
    assert_eq!(game.actions.len(), 0);
    assert!(game.last_turn.torpedo.is_none());
}

#[test]
fn test_sync_rejects_bad_order() {
    let mut game = Game::new(open_map(6), 0);
    let orders = vec![Action::Surface(12)];
    let r = game.sync(0, 0, 6, 6, 0, 0, 0, Some(orders.as_slice()));
    assert_eq!(r, Err(InputError::BadSector));
}
