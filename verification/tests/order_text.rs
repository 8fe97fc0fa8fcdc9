use periscope::actions::{Action, InputError, MeAction, OppAction, System};
use periscope::parse::parse_action_list;
use periscope::pos::{Direction, Pos};

#[test]
fn test_parse_direction() {
    assert_eq!(Direction::parse("N"), Ok(Direction::N));
    assert_eq!(Direction::parse("E"), Ok(Direction::E));
    assert_eq!(Direction::parse("S"), Ok(Direction::S));
    assert_eq!(Direction::parse("W"), Ok(Direction::W));
    assert_eq!(Direction::parse("X"), Err(InputError::BadAction));
    assert_eq!(Direction::parse(""), Err(InputError::BadAction));
}

#[test]
fn test_parse_system() {
    assert_eq!(System::parse("TORPEDO"), Ok(System::Torpedo));
    assert_eq!(System::parse("SONAR"), Ok(System::Sonar));
    assert_eq!(System::parse("SILENCE"), Ok(System::Silence));
    assert_eq!(System::parse("MINE"), Ok(System::Mine));
    assert_eq!(System::parse("RADAR"), Err(InputError::BadAction));
}

#[test]
fn test_parse_action() {
    assert_eq!(
        Action::parse("MOVE N"),
        Ok(Action::Move(Direction::N, System::Torpedo))
    );
    assert_eq!(Action::parse("SURFACE 3"), Ok(Action::Surface(3)));
    assert_eq!(
        Action::parse("TORPEDO 3 5"),
        Ok(Action::Torpedo(Pos { x: 3, y: 5 }))
    );
    assert_eq!(Action::parse("SONAR 7"), Ok(Action::Sonar(7)));
    assert_eq!(
        Action::parse("SILENCE"),
        Ok(Action::Silence(Direction::N, 0))
    );
    assert_eq!(Action::parse("JUMP 1"), Err(InputError::BadAction));
    assert_eq!(Action::parse("SURFACE x"), Err(InputError::BadNumber));
    assert_eq!(
        Action::parse("SURFACE 99999999999999999999999"),
        Err(InputError::BadNumber)
    );
    assert_eq!(Action::parse("TORPEDO 3"), Err(InputError::BadAction));
}

#[test]
fn test_parse_opp_action() {
    assert_eq!(
        OppAction::parse("MOVE W"),
        Ok(OppAction::Move(Direction::W))
    );
    assert_eq!(OppAction::parse("SILENCE"), Ok(OppAction::Silence));
    assert_eq!(
        OppAction::parse("TORPEDO 1 2"),
        Ok(OppAction::Torpedo(Pos { x: 1, y: 2 }))
    );
}

#[test]
fn test_parse_action_list() {
    let v = parse_action_list("MOVE E|SURFACE 3|SILENCE").expect("list parses");
    assert_eq!(
        v,
        vec![
            Action::Move(Direction::E, System::Torpedo),
            Action::Surface(3),
            Action::Silence(Direction::N, 0),
        ]
    );
    let single = parse_action_list("SONAR 9").expect("single parses");
    assert_eq!(single, vec![Action::Sonar(9)]);
    assert_eq!(
        parse_action_list("MOVE E|GARBAGE"),
        Err(InputError::BadAction)
    );
}

#[test]
fn test_into_opp_action() {
    let m = MeAction::Move {
        dir: Direction::S,
        sys: System::Silence,
    };
    assert_eq!(m.into_opp_action(4), OppAction::Move(Direction::S));
    assert_eq!(MeAction::Surface.into_opp_action(4), OppAction::Surface(4));
    let sil = MeAction::Silence {
        dir: Direction::E,
        dist: 2,
    };
    assert_eq!(sil.into_opp_action(1), OppAction::Silence);
}

#[test]
fn test_pos_arithmetic() {
    let a = Pos { y: 5, x: 3 };
    let b = Pos { y: 2, x: 7 };
    assert_eq!(a.dist(&b), 7);
    let d = a.isub(&b);
    assert_eq!((d.y, d.x), (3, -4));
    assert_eq!(periscope::pos::dist1(-2, 3), 5);
    let c = Pos { y: 5, x: 9 }.sub(Pos { y: 1, x: 4 });
    assert_eq!(c, Pos { y: 4, x: 5 });
    assert_eq!(
        Direction::N.apply(&Pos { y: 0, x: 0 }),
        Err(())
    );
    assert_eq!(
        Direction::E.apply(&Pos { y: 0, x: 0 }),
        Ok(Pos { y: 0, x: 1 })
    );
}
