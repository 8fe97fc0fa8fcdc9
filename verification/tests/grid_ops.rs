use periscope::grid::Grid;
use periscope::pos::{Direction, Pos};

#[test]
fn test_shift() {
    let mut map_a = Grid::new(3, 3);
    map_a.set(1, 1, true);
    let mut map_n = Grid::new(3, 3);
    map_n.set(0, 1, true);

    map_a.eq_shift(&Direction::N);
    assert_eq!(map_a, map_n);

    let mut map_middle = Grid::new(3, 3);
    map_middle.set(1, 1, true);

    map_a.eq_shift(&Direction::S);
    assert_eq!(map_a, map_middle);

    let mut map_e = Grid::new(3, 3);
    map_e.set(1, 2, true);

    map_a.eq_shift(&Direction::E);
    assert_eq!(map_a, map_e);

    map_a.eq_shift(&Direction::W);
    assert_eq!(map_a, map_middle);
}

#[test]
fn test_and() {
    let mut map_a = Grid::new(3, 3);
    map_a.set(1, 1, true);
    map_a.set(0, 1, true);
    let mut map_b = Grid::new(3, 3);
    map_b.set(0, 1, true);
    map_b.set(1, 2, true);
    let mut map_c = Grid::new(3, 3);
    map_c.set(0, 1, true);
    let mut map_anb = map_a.clone();
    map_anb.eq_and(&map_b);
    assert_eq!(map_anb, map_c);
}

#[test]
fn test_and_not() {
    let mut map_a = Grid::new(3, 3);
    map_a.set(1, 1, true);
    map_a.set(0, 1, true);
    let mut map_b = Grid::new(3, 3);
    map_b.set(0, 1, true);
    map_b.set(1, 2, true);
    let mut map_c = Grid::new(3, 3);
    map_c.set(1, 1, true);
    let mut map_anb = map_a.clone();
    map_anb.eq_and_not(&map_b);
    assert_eq!(map_anb, map_c);
}

#[test]
fn test_or() {
    let mut map_a = Grid::new(3, 3);
    map_a.set(1, 1, true);
    map_a.set(0, 1, true);
    let mut map_b = Grid::new(3, 3);
    map_b.set(0, 1, true);
    map_b.set(1, 2, true);
    let mut map_c = Grid::new(3, 3);
    map_c.set(1, 1, true);
    map_c.set(0, 1, true);
    map_c.set(1, 2, true);
    let mut map_anb = map_a.clone();
    map_anb.eq_or(&map_b);
    assert_eq!(map_anb, map_c);
}

#[test]
fn test_sub_false_area_size_small() {
    let mut map = Grid::new(3, 3);
    map.set(1, 0, true);
    assert_eq!(map.sub_false_area_size(&Pos { y: 0, x: 0 }), 8);
    assert_eq!(map.sub_false_area_size(&Pos { y: 1, x: 1 }), 8);
    map.set(1, 1, true);
    assert_eq!(map.sub_false_area_size(&Pos { y: 0, x: 0 }), 7);
    assert_eq!(map.sub_false_area_size(&Pos { y: 2, x: 1 }), 7);
    map.set(1, 2, true);
    assert_eq!(map.sub_false_area_size(&Pos { y: 0, x: 0 }), 3);
    assert_eq!(map.sub_false_area_size(&Pos { y: 2, x: 1 }), 3);
}

#[test]
fn test_sub_false_area_size() {
    let size = 15;
    let mut map_big = Grid::new(size, size);
    for i in 0..size {
        map_big.set(size / 2, i, true);
    }
    assert_eq!(
        map_big.sub_false_area_size(&Pos { y: 0, x: 0 }),
        size / 2 * size
    );
    assert_eq!(
        map_big.sub_false_area_size(&Pos {
            y: size - 1,
            x: size - 1
        }),
        size / 2 * size
    );
    map_big.set(1, 1, true);
    map_big.set(1, 2, true);
    assert_eq!(
        map_big.sub_false_area_size(&Pos { y: 0, x: 0 }),
        size / 2 * size - 2
    );
}

#[test]
fn test_invert_twice_restores() {
    let mut g = Grid::new(4, 4);
    g.set(0, 0, true);
    g.set(2, 3, true);
    let orig = g.clone();
    g.invert();
    assert!(!g.get(0, 0));
    assert!(g.get(1, 1));
    g.invert();
    assert_eq!(g, orig);
}

#[test]
fn test_shift_never_creates() {
    let mut g = Grid::new(4, 4);
    g.set(0, 1, true);
    g.set(3, 2, true);
    for d in [Direction::N, Direction::E, Direction::S, Direction::W] {
        let mut s = g.clone();
        s.eq_shift(&d);
        let before = 16 - g.nb_false();
        let after = 16 - s.nb_false();
        assert!(after <= before);
    }
    // a cell on the north edge is dropped by a north shift
    let mut s = g.clone();
    s.eq_shift(&Direction::N);
    assert_eq!(16 - s.nb_false(), 1);
}

#[test]
fn test_sector_and_masks() {
    let g = Grid::new(15, 15);
    assert_eq!(g.sector(&Pos { y: 0, x: 0 }), 1);
    assert_eq!(g.sector(&Pos { y: 7, x: 7 }), 5);
    assert_eq!(g.sector(&Pos { y: 14, x: 14 }), 9);
    let m5 = g.sector_mask(5);
    assert!(m5.get(7, 7));
    assert!(!m5.get(0, 0));
    let t = g.torpedo_mask(&Pos { y: 7, x: 7 });
    assert!(t.get(7, 7));
    assert!(t.get(7, 10));
    assert!(!t.get(7, 11));
    assert!(!t.get(3, 7));
    let sq = g.square(&Pos { y: 0, x: 0 });
    assert!(sq.get(0, 0) && sq.get(1, 1) && sq.get(0, 1) && sq.get(1, 0));
    assert!(!sq.get(2, 2));
}

#[test]
fn test_expand_is_manhattan_ball() {
    let mut g = Grid::new(7, 7);
    g.set(3, 3, true);
    g.expand(2);
    for y in 0..7usize {
        for x in 0..7usize {
            let d = (y as i32 - 3).abs() + (x as i32 - 3).abs();
            assert_eq!(g.get(y, x), d <= 2);
        }
    }
}

#[test]
fn test_first_match_scan_order() {
    let mut g = Grid::new(3, 3);
    g.set(1, 2, true);
    g.set(2, 0, true);
    assert_eq!(g.first_match(true), Some(Pos { y: 1, x: 2 }));
    assert_eq!(g.first_false(), Some(Pos { y: 0, x: 0 }));
    let empty = Grid::new(2, 2);
    assert_eq!(empty.first_match(true), None);
}

#[test]
fn test_rand_false_pos_single_cell() {
    // with one open cell the draw cannot matter: that cell must come back
    let mut g = Grid::new(3, 3);
    for y in 0..3usize {
        for x in 0..3usize {
            g.set(y, x, true);
        }
    }
    g.set(1, 2, false);
    for _ in 0..10 {
        assert_eq!(g.rand_false_pos(), Ok(Pos { y: 1, x: 2 }));
    }
    let full = {
        let mut f = Grid::new(2, 2);
        f.set(0, 0, true);
        f.set(0, 1, true);
        f.set(1, 0, true);
        f.set(1, 1, true);
        f
    };
    assert_eq!(full.rand_false_pos(), Err(()));
}
