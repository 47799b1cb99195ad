use advent::dwarves::{Board, Square};

fn chart(rows: &[&str]) -> Vec<Vec<char>> {
    rows.iter().map(|r| r.chars().collect()).collect()
}

fn picture(b: &Board, padding: usize, width: usize, height: usize) -> Vec<String> {
    let mut out = vec![];
    for y in 0..height {
        let mut line = String::new();
        for x in 0..width {
            match b.look(padding + x, padding + y) {
                Square::Dwarf(_) => line.push('#'),
                Square::Empty => line.push('.'),
                _ => line.push('?'),
            }
        }
        out.push(line);
    }
    out
}

fn play(b: &mut Board) {
    assert!(b.has_room());
    b.step();
}

const SMALL: [&str; 6] = [".....", "..##.", "..#..", ".....", "..##.", "....."];

const LARGE: [&str; 7] = [
    "....#..", "..###.#", "#...#.#", ".#...##", "#.###..", "##.#.##", ".#..#..",
];

#[test]
fn board_of_a_chart() {
    let b = Board::read(&chart(&SMALL), 3).unwrap();
    assert_eq!(b.width, 11);
    assert_eq!(b.height, 12);
    assert_eq!(b.squares.len(), 11 * 12);
    assert_eq!(b.round, 0);
    assert_eq!(b.moved, 0);
    assert!(!b.finished);
    let places: Vec<(usize, usize)> = b.dwarves.iter().map(|d| d.pos).collect();
    assert_eq!(places, vec![(5, 4), (6, 4), (5, 5), (5, 7), (6, 7)]);
    assert!(b.dwarves.iter().all(|d| d.awake && d.dest.is_none()));
    assert!(b.look(5, 4) == Square::Dwarf(0));
    assert!(b.look(6, 7) == Square::Dwarf(4));
    assert!(b.look(4, 4) == Square::Empty);
    assert_eq!(picture(&b, 3, 5, 6), SMALL.to_vec());
}

#[test]
fn ragged_or_empty_chart_makes_no_board() {
    assert!(Board::read(&chart(&["..#", ".."]), 2).is_none());
    assert!(Board::read(&chart(&[]), 2).is_none());
    assert!(Board::read(&chart(&["", ""]), 2).is_none());
    assert!(Board::read(&chart(&["#"]), usize::MAX / 2).is_none());
    assert!(Board::read(&chart(&["#"]), 0).is_some());
}

#[test]
fn small_chart_round_by_round() {
    let mut b = Board::read(&chart(&SMALL), 3).unwrap();
    play(&mut b);
    assert_eq!(
        picture(&b, 3, 5, 6),
        vec!["..##.", ".....", "..#..", "...#.", "..#..", "....."]
    );
    assert_eq!(b.round, 1);
    assert_eq!(b.moved, 3);
    assert!(!b.finished);
    play(&mut b);
    assert_eq!(
        picture(&b, 3, 5, 6),
        vec![".....", "..##.", ".#...", "....#", ".....", "..#.."]
    );
    play(&mut b);
    assert_eq!(
        picture(&b, 3, 5, 6),
        vec!["..#..", "....#", "#....", "....#", ".....", "..#.."]
    );
    assert!(!b.finished);
    play(&mut b);
    assert!(b.finished);
    assert_eq!(b.round, 4);
    assert_eq!(
        picture(&b, 3, 5, 6),
        vec!["..#..", "....#", "#....", "....#", ".....", "..#.."]
    );
}

#[test]
fn dwarves_pick_the_first_free_direction() {
    let mut b = Board::read(&chart(&["#", ".", "#", "#"]), 3).unwrap();
    // The first dwarf is alone and sleeps. The second goes north; the
    // third cannot go north and goes south.
    play(&mut b);
    let places: Vec<(usize, usize)> = b.dwarves.iter().map(|d| d.pos).collect();
    assert_eq!(places, vec![(3, 3), (3, 4), (3, 7)]);
    assert_eq!(b.moved, 2);
    // Now the first two are neighbours. South comes first: the first
    // cannot go south and goes west, the second goes south.
    play(&mut b);
    let places: Vec<(usize, usize)> = b.dwarves.iter().map(|d| d.pos).collect();
    assert_eq!(places, vec![(2, 3), (3, 5), (3, 7)]);
    let mut c = Board::read(&chart(&["#.", "..", "#.", ".#"]), 3).unwrap();
    play(&mut c);
    let places: Vec<(usize, usize)> = c.dwarves.iter().map(|d| d.pos).collect();
    // The dwarf in the third line goes north; the one below it cannot
    // and goes south.
    assert_eq!(places, vec![(3, 3), (3, 4), (4, 7)]);
}

#[test]
fn dwarves_without_neighbours_stay() {
    let mut b = Board::read(&chart(&["#", ".", "#"]), 3).unwrap();
    play(&mut b);
    assert!(b.finished);
    assert_eq!(b.moved, 0);
    assert_eq!(b.round, 1);
    let places: Vec<(usize, usize)> = b.dwarves.iter().map(|w| w.pos).collect();
    assert_eq!(places, vec![(3, 3), (3, 5)]);
}

#[test]
fn contested_square_stays_empty() {
    // The two dwarves of the first line go north. The third goes north
    // too; the fourth, below it to the left, cannot and goes south.
    let mut d = Board::read(&chart(&["##.", "...", "...", ".#.", "#.."]), 3).unwrap();
    play(&mut d);
    let places: Vec<(usize, usize)> = d.dwarves.iter().map(|w| w.pos).collect();
    assert_eq!(places, vec![(3, 2), (4, 2), (4, 5), (3, 8)]);
    // In the small chart the third dwarf goes south and the fourth north,
    // to one square: both stay, and the square is empty after the round.
    let mut b = Board::read(&chart(&SMALL), 3).unwrap();
    play(&mut b);
    assert_eq!(b.dwarves[2].pos, (5, 5));
    assert_eq!(b.dwarves[3].pos, (5, 7));
    assert!(b.look(5, 6) == Square::Empty);
    assert!(b.dwarves.iter().all(|w| w.dest.is_none()));
}

#[test]
fn large_chart_after_ten_rounds() {
    let mut b = Board::read(&chart(&LARGE), 10).unwrap();
    for _ in 0..10 {
        play(&mut b);
    }
    assert_eq!(b.score(), 110);
    assert_eq!(b.round, 10);
}

#[test]
fn large_chart_until_nobody_moves() {
    let mut b = Board::read(&chart(&LARGE), 20).unwrap();
    for _ in 0..1000 {
        play(&mut b);
        if b.finished {
            break;
        }
    }
    assert_eq!(b.round, 20);
}

#[test]
fn score_counts_the_empty_squares_of_the_box() {
    let b = Board::read(&chart(&SMALL), 3).unwrap();
    // The box is two columns wide and four rows high and holds five dwarves.
    assert_eq!(b.score(), 3);
    let empty = Board::read(&chart(&["..", ".."]), 1).unwrap();
    assert_eq!(empty.score(), 0);
    let one = Board::read(&chart(&["."]), 0).unwrap();
    assert_eq!(one.score(), 1);
}

#[test]
fn dwarf_at_the_edge_has_no_room() {
    let b = Board::read(&chart(&["#"]), 1).unwrap();
    assert!(!b.has_room());
    let c = Board::read(&chart(&["#"]), 2).unwrap();
    assert!(c.has_room());
}

#[test]
fn put_changes_one_square() {
    let mut b = Board::read(&chart(&["..", ".."]), 0).unwrap();
    b.put(1, 0, Square::Marked);
    assert!(b.look(1, 0) == Square::Marked);
    assert!(b.look(0, 0) == Square::Empty);
    assert!(b.look(0, 1) == Square::Empty);
    assert!(b.look(1, 1) == Square::Empty);
    assert!(b.squares[1] == Square::Marked);
}
