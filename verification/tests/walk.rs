use advent::walk::{read_path, Board, Game, Instruction, Piece, State};

fn chart(rows: &[&str]) -> Vec<Vec<char>> {
    rows.iter().map(|r| r.chars().collect()).collect()
}

const SAMPLE: [&str; 12] = [
    "        ...#",
    "        .#..",
    "        #...",
    "        ....",
    "...#.......#",
    "........#...",
    "..#....#....",
    "..........#.",
    "        ...#....",
    "        .....#..",
    "        .#......",
    "        ......#.",
];

/// A board that holds the six faces of the net, all squares open.
fn net() -> Board {
    let mut lines = vec![];
    for y in 0..200 {
        let mut line = vec![];
        for x in 0..150 {
            let f = (x / 50 + 1, y / 50 + 1);
            let on = [(2, 1), (3, 1), (2, 2), (1, 3), (2, 3), (1, 4)].contains(&f);
            line.push(if on { Piece::Open } else { Piece::OffMap });
        }
        lines.push(line);
    }
    Board { cube: true, lines }
}

fn at(x: isize, y: isize, rotation: isize) -> State {
    State { x, y, rotation }
}

fn triple(s: State) -> (isize, isize, isize) {
    (s.x, s.y, s.rotation)
}

fn kinds(list: &[Instruction]) -> Vec<String> {
    list.iter()
        .map(|i| match i {
            Instruction::Left => "L".to_string(),
            Instruction::Right => "R".to_string(),
            Instruction::Move(n) => format!("{n}"),
        })
        .collect()
}

#[test]
fn turns_wrap_round() {
    let mut s = at(4, 5, 3);
    s.rotate(1);
    assert_eq!(triple(s), (4, 5, 0));
    s.rotate(-1);
    assert_eq!(triple(s), (4, 5, 3));
    s.rotate(-1);
    assert_eq!(triple(s), (4, 5, 2));
    s.rotate(5);
    assert_eq!(triple(s), (4, 5, 0));
    s.rotate(-7);
    assert_eq!(triple(s), (4, 5, 3));
}

#[test]
fn board_lines_are_of_one_length() {
    let b = Board::read(&chart(&SAMPLE)).unwrap();
    assert!(!b.cube);
    assert_eq!(b.lines.len(), 12);
    assert!(b.lines.iter().all(|l| l.len() == 16));
    assert!(b.lines[0][0] == Piece::OffMap);
    assert!(b.lines[0][8] == Piece::Open);
    assert!(b.lines[0][11] == Piece::Blocked);
    assert!(b.lines[0][12] == Piece::OffMap);
    assert!(b.lines[8][15] == Piece::Open);
}

#[test]
fn unknown_character_makes_no_board() {
    assert!(Board::read(&chart(&["..x"])).is_none());
    assert!(Board::read(&chart(&[])).is_none());
    assert!(Board::read(&chart(&["", ""])).is_some());
}

#[test]
fn path_of_moves_and_turns() {
    let path: Vec<char> = "10R5L5R10L4R5L5".chars().collect();
    let list = read_path(&path).unwrap();
    assert_eq!(
        kinds(&list),
        vec!["10", "R", "5", "L", "5", "R", "10", "L", "4", "R", "5", "L", "5"]
    );
    let odd: Vec<char> = "L x7,R\n".chars().collect();
    assert_eq!(kinds(&read_path(&odd).unwrap()), vec!["L", "7", "R"]);
    let huge: Vec<char> = "99999999999999999999999999".chars().collect();
    assert!(read_path(&huge).is_none());
    assert!(read_path(&vec![]).unwrap().is_empty());
}

#[test]
fn flat_step_wraps_over_what_is_off_the_board() {
    let b = Board::read(&chart(&SAMPLE)).unwrap();
    // East from the end of the first line: back to its first square.
    assert_eq!(triple(b.next_piece(at(10, 0, 0))), (11, 0, 0));
    assert_eq!(triple(b.next_piece(at(11, 0, 0))), (8, 0, 0));
    // North from the top of the left part: up from the bottom of it.
    assert_eq!(triple(b.next_piece(at(3, 4, 3))), (3, 7, 3));
    // South from the bottom of the right part.
    assert_eq!(triple(b.next_piece(at(14, 11, 1))), (14, 8, 1));
    // West from the left edge.
    assert_eq!(triple(b.next_piece(at(0, 5, 2))), (11, 5, 2));
}

#[test]
fn walk_stops_before_a_blocked_square() {
    let mut b = Board::read(&chart(&SAMPLE)).unwrap();
    assert_eq!(triple(b.move_piece(at(8, 0, 0), 10)), (10, 0, 0));
    assert_eq!(triple(b.move_piece(at(8, 0, 0), 1)), (9, 0, 0));
    assert_eq!(triple(b.move_piece(at(8, 0, 0), 0)), (8, 0, 0));
    assert_eq!(triple(b.move_piece(at(10, 0, 1), 5)), (10, 5, 1));
}

#[test]
fn flat_walk_gives_the_password() {
    let board = Board::read(&chart(&SAMPLE)).unwrap();
    let path: Vec<char> = "10R5L5R10L4R5L5".chars().collect();
    let mut g = Game::new(board, read_path(&path).unwrap());
    assert_eq!(triple(g.state), (0, 0, 0));
    assert!(!g.can_run());
    assert!(g.reset(false));
    assert_eq!(triple(g.state), (8, 0, 0));
    assert!(g.can_run());
    assert_eq!(g.run(), 6032);
    assert_eq!(triple(g.state), (7, 5, 0));
}

#[test]
fn reset_without_an_open_square_fails() {
    let board = Board::read(&chart(&["  ##", "...."])).unwrap();
    let mut g = Game::new(board, vec![]);
    g.state = at(1, 1, 2);
    assert!(!g.reset(true));
    assert!(g.board.cube);
    assert_eq!(triple(g.state), (1, 1, 2));
}

#[test]
fn cube_step_inside_a_face() {
    let b = net();
    assert_eq!(triple(b.next_piece_cube(at(60, 10, 0))), (61, 10, 0));
    assert_eq!(triple(b.next_piece_cube(at(60, 10, 1))), (60, 11, 1));
    assert_eq!(triple(b.next_piece_cube(at(60, 10, 2))), (59, 10, 2));
    assert_eq!(triple(b.next_piece_cube(at(60, 10, 3))), (60, 9, 3));
    // Over an edge that the net shares.
    assert_eq!(triple(b.next_piece_cube(at(99, 10, 0))), (100, 10, 0));
    assert_eq!(triple(b.next_piece_cube(at(60, 49, 1))), (60, 50, 1));
}

#[test]
fn cube_step_over_a_folded_edge() {
    let b = net();
    // Up from the first face: in from the left of the last.
    assert_eq!(triple(b.next_piece_cube(at(57, 0, 3))), (0, 157, 0));
    // Left from the first face: in from the left of the fourth, upside down.
    assert_eq!(triple(b.next_piece_cube(at(50, 7, 2))), (0, 142, 0));
    // Right from the second face: in from the right of the fifth, upside down.
    assert_eq!(triple(b.next_piece_cube(at(149, 7, 0))), (99, 142, 2));
    // Up from the second face: in from below of the last.
    assert_eq!(triple(b.next_piece_cube(at(107, 0, 3))), (7, 199, 3));
    // Down from the second face: in from the right of the third.
    assert_eq!(triple(b.next_piece_cube(at(107, 49, 1))), (99, 57, 2));
    // Left from the third face: in from above of the fourth.
    assert_eq!(triple(b.next_piece_cube(at(50, 57, 2))), (7, 100, 1));
    // Right from the last face: in from below of the fifth.
    assert_eq!(triple(b.next_piece_cube(at(49, 157, 0))), (57, 149, 3));
}

#[test]
fn cube_step_can_be_taken_back() {
    let b = net();
    let mut count = 0;
    for y in 0..200 {
        for x in 0..150 {
            if b.lines[y][x] == Piece::OffMap {
                continue;
            }
            for r in 0..4 {
                let s = at(x as isize, y as isize, r);
                let to = b.next_piece_cube(s);
                assert!(b.lines[to.y as usize][to.x as usize] == Piece::Open);
                let back = b.next_piece_cube(at(to.x, to.y, (to.rotation + 2) % 4));
                assert_eq!(triple(back), (s.x, s.y, (r + 2) % 4));
                count += 1;
            }
        }
    }
    assert_eq!(count, 6 * 50 * 50 * 4);
}

#[test]
fn cube_walk_round_the_cube() {
    let mut b = net();
    // Four faces lie on a ring: two hundred steps east bring the walker back.
    let end = b.move_piece(at(60, 10, 0), 200);
    assert_eq!(triple(end), (60, 10, 0));
    let mut g = Game::new(net(), vec![Instruction::Move(3), Instruction::Left, Instruction::Move(1)]);
    assert!(g.reset(true));
    assert_eq!(triple(g.state), (50, 0, 0));
    assert!(g.can_run());
    // Three east, then north over the edge to the last face.
    assert_eq!(g.run(), (153 + 1) * 1000 + (0 + 1) * 4);
}
