use advent::rope::RopeSim;
use advent::rope::read_pull;

fn run(count: usize, moves: &[(char, usize)]) -> RopeSim {
    let mut sim = RopeSim::new(count);
    for (d, mag) in moves {
        let dir = match d {
            'U' => (0, -1),
            'D' => (0, 1),
            'L' => (-1, 0),
            _ => (1, 0),
        };
        sim.move_head(dir, *mag);
    }
    sim
}

#[test]
fn rope_of_the_sample() {
    let moves = [('R', 4), ('U', 4), ('L', 3), ('D', 1), ('R', 4), ('D', 1), ('L', 5), ('R', 2)];
    let short = run(2, &moves);
    assert_eq!(short.visited_count(), 13);
    assert_eq!(short.knots, vec![(2, -2), (1, -2)]);
    let long = run(10, &moves);
    assert_eq!(long.visited_count(), 1);
    let larger = [('R', 5), ('U', 8), ('L', 8), ('D', 3), ('R', 17), ('D', 10), ('L', 25), ('U', 20)];
    assert_eq!(run(10, &larger).visited_count(), 36);
    assert_eq!(run(2, &larger).visited_count(), 88);
}

#[test]
fn rope_knots_follow() {
    let mut sim = RopeSim::new(3);
    assert_eq!(sim.knots, vec![(0, 0); 3]);
    assert_eq!(sim.visited, vec![(0, 0)]);
    sim.pull((1, 0));
    assert_eq!(sim.knots, vec![(1, 0), (0, 0), (0, 0)]);
    sim.pull((1, 0));
    assert_eq!(sim.knots, vec![(2, 0), (1, 0), (0, 0)]);
    sim.pull((0, 1));
    assert_eq!(sim.knots, vec![(2, 1), (1, 0), (0, 0)]);
    sim.pull((0, 1));
    assert_eq!(sim.knots, vec![(2, 2), (2, 1), (1, 1)]);
    assert_eq!(sim.visited, vec![(0, 0), (1, 1)]);
    sim.pull((-1, 0));
    sim.pull((-1, 0));
    assert_eq!(sim.knots, vec![(0, 2), (1, 2), (1, 1)]);
    sim.move_head((0, 0), 5);
    assert_eq!(sim.knots, vec![(0, 2), (1, 2), (1, 1)]);
    sim.move_head((0, -1), 0);
    assert_eq!(sim.visited_count(), 2);
    sim.visit((1, 1));
    sim.visit((5, 5));
    sim.visit((5, 5));
    assert_eq!(sim.visited, vec![(0, 0), (1, 1), (5, 5)]);
}

#[test]
fn rope_of_one_knot() {
    let sim = run(1, &[('R', 3), ('L', 3)]);
    assert_eq!(sim.knots, vec![(0, 0)]);
    assert_eq!(sim.visited_count(), 4);
}

#[test]
fn pull_of_a_line() {
    let read = |s: &str| read_pull(&s.chars().collect());
    assert_eq!(read("U 4"), Some(((0, -1), 4)));
    assert_eq!(read("D 1"), Some(((0, 1), 1)));
    assert_eq!(read("L 12"), Some(((-1, 0), 12)));
    assert_eq!(read("R +3"), Some(((1, 0), 3)));
    assert_eq!(read("R 0"), Some(((1, 0), 0)));
    assert_eq!(read("X 3"), None);
    assert_eq!(read("UU 3"), None);
    assert_eq!(read(" 3"), None);
    assert_eq!(read("U"), None);
    assert_eq!(read("U -3"), None);
    assert_eq!(read("U 3 "), None);
    assert_eq!(read("U  3"), None);
}
