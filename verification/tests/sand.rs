use advent::sand::{Grid, Square};
use advent::sand::{read_corner, read_corners};

fn sample() -> Grid {
    let mut g = Grid::new();
    g.paint((498, 4), (498, 6));
    g.paint((498, 6), (496, 6));
    g.paint((503, 4), (502, 4));
    g.paint((502, 4), (502, 9));
    g.paint((502, 9), (494, 9));
    g
}

#[test]
fn sand_of_the_sample() {
    let mut g = sample();
    assert_eq!(g.lowest_y, 9);
    assert!(g.spawn_source());
    assert_eq!(g.sand_count, 24);
    let mut with_floor = sample();
    with_floor.paint((300, 11), (699, 11));
    assert!(!with_floor.spawn_source());
    assert_eq!(with_floor.sand_count, 93);
    assert_eq!(with_floor.get((500, 0)), Square::Sand);
    assert_eq!(with_floor.get((500, 10)), Square::Air);
    assert_eq!(with_floor.get((503, 10)), Square::Sand);
    assert_eq!(with_floor.get((500, 11)), Square::Rock);
    assert_eq!(with_floor.get((489, 10)), Square::Air);
    assert_eq!(with_floor.get((490, 10)), Square::Sand);
}

#[test]
fn sand_paint_draws_rock() {
    let mut g = Grid::new();
    assert_eq!(g.lowest_y, 0);
    g.paint((305, 7), (302, 7));
    assert_eq!(g.lowest_y, 7);
    for x in 300..310 {
        assert_eq!(g.get((x, 7)), if (302..=305).contains(&x) { Square::Rock } else { Square::Air });
        assert_eq!(g.get((x, 6)), Square::Air);
    }
    g.paint((310, 3), (310, 1));
    assert_eq!(g.lowest_y, 7);
    for y in 0..6 {
        assert_eq!(g.get((310, y)), if (1..=3).contains(&y) { Square::Rock } else { Square::Air });
    }
    g.paint((320, 20), (322, 30));
    assert_eq!(g.lowest_y, 20);
    assert_eq!(g.get((320, 20)), Square::Rock);
    assert_eq!(g.get((322, 20)), Square::Rock);
    assert_eq!(g.get((322, 30)), Square::Air);
    g.paint((400, 199), (400, 199));
    assert_eq!(g.lowest_y, 199);
    assert_eq!(g.get((400, 199)), Square::Rock);
    g.put((400, 199), Square::Sand);
    assert_eq!(g.get((400, 199)), Square::Sand);
}

#[test]
fn sand_falls_out_of_an_empty_cave() {
    let mut g = Grid::new();
    assert!(g.spawn_source());
    assert_eq!(g.sand_count, 0);
    assert!(g.spawn_sand((500, 199)));
    assert!(g.spawn_sand((302, 250)));
    assert_eq!(g.sand_count, 0);
}

#[test]
fn sand_rests_on_a_ledge() {
    let mut g = Grid::new();
    g.paint((498, 2), (502, 2));
    assert!(!g.spawn_sand((500, 0)));
    assert_eq!(g.sand_count, 4);
    assert_eq!(g.get((500, 0)), Square::Sand);
    assert_eq!(g.get((499, 1)), Square::Sand);
    assert_eq!(g.get((500, 1)), Square::Sand);
    assert_eq!(g.get((501, 1)), Square::Sand);
    let mut g = Grid::new();
    g.paint((499, 2), (501, 2));
    assert!(g.spawn_sand((500, 0)));
    assert_eq!(g.sand_count, 1);
    assert_eq!(g.get((500, 1)), Square::Sand);
    assert_eq!(g.get((500, 0)), Square::Air);
    let mut g = Grid::new();
    g.paint((499, 1), (501, 1));
    assert!(!g.spawn_sand((500, 0)));
    assert_eq!(g.sand_count, 1);
    g.put((500, 0), Square::Rock);
    assert!(!g.spawn_sand((500, 0)));
    assert_eq!(g.sand_count, 2);
    assert_eq!(g.get((500, 0)), Square::Sand);
}

#[test]
fn picture_of_a_cave() {
    let g = Grid {
        cells: vec![
            vec![Square::Air, Square::Rock, Square::Air],
            vec![Square::Sand, Square::Air, Square::Rock],
            vec![],
        ],
        lowest_y: 1,
        sand_count: 1,
    };
    assert_eq!(g.show(), "\n R \nR R\n");
    let none = Grid {
        cells: vec![],
        lowest_y: 0,
        sand_count: 0,
    };
    assert_eq!(none.show(), "");
}

#[test]
fn corners_of_a_line() {
    let read = |s: &str| read_corners(&s.chars().collect());
    assert_eq!(read("498,4 -> 498,6 -> 496,6"), Some(vec![(498, 4), (498, 6), (496, 6)]));
    assert_eq!(read("5,-7"), Some(vec![(5, -7)]));
    assert_eq!(read("1,2 -> 3,4 "), None);
    assert_eq!(read("1,2 ->3,4"), None);
    assert_eq!(read("1,2 => 3,4"), None);
    assert_eq!(read("1,2 -> "), None);
    assert_eq!(read("1;2"), None);
    assert_eq!(read(""), None);
    assert_eq!(read_corner(&"12,+3".chars().collect()), Some((12, 3)));
    assert_eq!(read_corner(&"12,3,4".chars().collect()), None);
}

#[test]
fn path_of_rock() {
    let mut g = Grid::new();
    assert!(g.paint_path(&vec![(498, 4), (498, 6), (496, 6)]));
    assert_eq!(g.lowest_y, 6);
    for p in [(498, 4), (498, 5), (498, 6), (497, 6), (496, 6)] {
        assert!(g.get(p) == Square::Rock);
    }
    assert!(g.get((497, 5)) == Square::Air);
    assert!(g.get((495, 6)) == Square::Air);
    // A corner outside the cave: nothing is drawn.
    assert!(!g.paint_path(&vec![(500, 0), (500, 2), (100, 2)]));
    assert!(g.get((500, 1)) == Square::Air);
    // One corner alone is no line, wherever it lies.
    assert!(g.paint_path(&vec![(0, 0)]));
    assert!(g.paint_path(&vec![]));
    assert_eq!(g.lowest_y, 6);
}
