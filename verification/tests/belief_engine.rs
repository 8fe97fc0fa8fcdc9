use periscope::actions::{InputError, OppAction};
use periscope::belief::{FuzzyPos, PosData};
use periscope::bitgrid::{nb_false_bits, nb_true_bits, NewMap};
use periscope::masks::MaskTables;
use periscope::pos::{Direction, Pos};

fn full_water() -> NewMap {
    NewMap::new().not()
}

fn area_count(p: &PosData) -> Option<usize> {
    match &p.pos {
        FuzzyPos::Area(m) => Some(m.count(true)),
        FuzzyPos::Exact(_) => None,
    }
}

#[test]
fn test_nb_bits() {
    assert_eq!(nb_true_bits(0), 0);
    assert_eq!(nb_true_bits(0b1011), 3);
    assert_eq!(nb_true_bits(u16::MAX), 16);
    assert_eq!(nb_false_bits(0), 16);
    assert_eq!(nb_false_bits(0b1011), 13);
}

#[test]
fn test_newmap_set_get_count() {
    let mut m = NewMap::new();
    assert_eq!(m.count(true), 0);
    assert_eq!(m.count(false), 225);
    m.set(Pos { y: 3, x: 4 }, true);
    assert!(m.get(Pos { y: 3, x: 4 }));
    assert!(!m.get(Pos { y: 4, x: 3 }));
    assert_eq!(m.count(true), 1);
    assert_eq!(m.first_match(true), Ok(Pos { y: 3, x: 4 }));
    m.set(Pos { y: 3, x: 4 }, false);
    assert_eq!(m.first_match(true), Err(()));
}

#[test]
fn test_newmap_shift() {
    let mut m = NewMap::new();
    m.set(Pos { y: 7, x: 7 }, true);
    m.shift(&Direction::E, 2);
    assert!(m.get(Pos { y: 7, x: 9 }));
    assert_eq!(m.count(true), 1);
    m.shift(&Direction::N, 7);
    assert!(m.get(Pos { y: 0, x: 9 }));
    m.shift(&Direction::N, 1);
    assert_eq!(m.count(true), 0);
}

#[test]
fn test_newmap_compose() {
    // a one-cell kernel anchored on itself leaves the source unchanged
    let mut src = NewMap::new();
    src.set(Pos { y: 2, x: 2 }, true);
    src.set(Pos { y: 10, x: 5 }, true);
    let mut kernel = NewMap::new();
    kernel.set(Pos { y: 0, x: 0 }, true);
    let out = src.compose(&kernel, &Pos { y: 0, x: 0 });
    assert_eq!(out.count(true), 2);
    assert!(out.get(Pos { y: 2, x: 2 }));
    assert!(out.get(Pos { y: 10, x: 5 }));
}

#[test]
fn test_collapse_to_exact_after_torpedo() {
    // two far-apart candidates; an announced attack reaches only one
    let tables = MaskTables::new(true);
    let water = full_water();
    let mut area = NewMap::new();
    area.set(Pos { y: 0, x: 0 }, true);
    area.set(Pos { y: 10, x: 10 }, true);
    let mut pd = PosData::new(water);
    pd.pos = FuzzyPos::Area(area);
    let r = pd.analyse_action(&OppAction::Torpedo(Pos { y: 1, x: 1 }), &tables);
    assert_eq!(r, Ok(()));
    match &pd.pos {
        FuzzyPos::Exact(p) => assert_eq!(*p, Pos { y: 0, x: 0 }),
        FuzzyPos::Area(_) => panic!("belief did not collapse"),
    }
}

#[test]
fn test_desync_resets_to_full_water() {
    // an impossible announcement empties the area; it must come back full
    let tables = MaskTables::new(true);
    let water = full_water();
    let mut area = NewMap::new();
    area.set(Pos { y: 0, x: 0 }, true);
    let mut pd = PosData::new(water);
    pd.pos = FuzzyPos::Area(area);
    // the only candidate sits in sector 1; announcing sector 9 empties it
    let r = pd.analyse_action(&OppAction::Surface(9), &tables);
    assert_eq!(r, Ok(()));
    assert_eq!(area_count(&pd), Some(225));
}

#[test]
fn test_exact_silence_degrades_to_cross() {
    let tables = MaskTables::new(true);
    let water = full_water();
    let mut pd = PosData::new(water);
    pd.pos = FuzzyPos::Exact(Pos { y: 7, x: 7 });
    let r = pd.analyse_action(&OppAction::Silence, &tables);
    assert_eq!(r, Ok(()));
    match &pd.pos {
        FuzzyPos::Area(m) => {
            // the four arms of up to four cells stay; the departed cell goes
            assert_eq!(m.count(true), 16);
            assert!(m.get(Pos { y: 7, x: 3 }));
            assert!(m.get(Pos { y: 7, x: 11 }));
            assert!(m.get(Pos { y: 3, x: 7 }));
            assert!(m.get(Pos { y: 11, x: 7 }));
            assert!(!m.get(Pos { y: 7, x: 7 }));
            assert!(!m.get(Pos { y: 6, x: 6 }));
        },
        FuzzyPos::Exact(_) => panic!("belief did not degrade"),
    }
}

#[test]
fn test_exact_moves_with_announcements() {
    let tables = MaskTables::new(true);
    let water = full_water();
    let mut pd = PosData::new(water);
    pd.pos = FuzzyPos::Exact(Pos { y: 5, x: 5 });
    let acts = [
        OppAction::Move(Direction::E),
        OppAction::Move(Direction::S),
        OppAction::Sonar(3),
    ];
    assert_eq!(pd.analyse_actions(&acts, &tables), Ok(()));
    match &pd.pos {
        FuzzyPos::Exact(p) => assert_eq!(*p, Pos { y: 6, x: 6 }),
        FuzzyPos::Area(_) => panic!("exact position lost"),
    }
}

#[test]
fn test_bad_sector_rejected() {
    let tables = MaskTables::new(true);
    let water = full_water();
    let mut pd = PosData::new(water);
    let before = area_count(&pd);
    assert_eq!(
        pd.analyse_action(&OppAction::Surface(10), &tables),
        Err(InputError::BadSector)
    );
    assert_eq!(
        pd.analyse_action(&OppAction::Sonar(0), &tables),
        Err(InputError::BadSector)
    );
    assert_eq!(area_count(&pd), before);
}

#[test]
fn test_bad_position_rejected() {
    let tables = MaskTables::new(true);
    let water = full_water();
    let mut pd = PosData::new(water);
    assert_eq!(
        pd.analyse_action(&OppAction::Torpedo(Pos { y: 15, x: 0 }), &tables),
        Err(InputError::BadPosition)
    );
}

#[test]
fn test_off_map_move_rejected() {
    let tables = MaskTables::new(true);
    let water = full_water();
    let mut pd = PosData::new(water);
    pd.pos = FuzzyPos::Exact(Pos { y: 0, x: 0 });
    assert_eq!(
        pd.analyse_action(&OppAction::Move(Direction::N), &tables),
        Err(InputError::OffMap)
    );
}

#[test]
fn test_area_move_masks_land() {
    let tables = MaskTables::new(true);
    // a single land cell at (0, 1): a candidate at (0, 0) announcing an
    // eastward move cannot be there afterwards
    let mut water = full_water();
    water.set(Pos { y: 0, x: 1 }, false);
    let mut area = NewMap::new();
    area.set(Pos { y: 0, x: 0 }, true);
    area.set(Pos { y: 5, x: 5 }, true);
    let mut pd = PosData::new(water);
    pd.pos = FuzzyPos::Area(area);
    assert_eq!(
        pd.analyse_action(&OppAction::Move(Direction::E), &tables),
        Ok(())
    );
    match &pd.pos {
        FuzzyPos::Exact(p) => assert_eq!(*p, Pos { y: 5, x: 6 }),
        FuzzyPos::Area(_) => panic!("should have collapsed to the one survivor"),
    }
}

#[test]
fn test_mask_tables_shapes() {
    let t = MaskTables::new(true);
    assert!(t.torpedo_range.map.get(Pos { y: 4, x: 4 }));
    assert!(t.torpedo_range.map.get(Pos { y: 0, x: 4 }));
    assert!(!t.torpedo_range.map.get(Pos { y: 0, x: 0 }));
    assert_eq!(t.torpedo_range.offset, Pos { y: 4, x: 4 });
    assert!(t.torpedo_side_hit.map.get(Pos { y: 0, x: 0 }));
    assert!(!t.torpedo_side_hit.map.get(Pos { y: 1, x: 1 }));
    assert_eq!(t.silence_range.map.count(true), 17);
    let t2 = MaskTables::new(false);
    assert_eq!(t2.silence_range.map.count(true), 16);
    assert!(!t2.silence_range.map.get(Pos { y: 4, x: 4 }));
    assert!(t.sector_mask[0].get(Pos { y: 0, x: 0 }));
    assert!(t.sector_mask[8].get(Pos { y: 14, x: 14 }));
}
