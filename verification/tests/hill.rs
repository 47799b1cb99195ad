use advent::hill::{Grid, Square};
use advent::hill::read_chart;

fn grid(text: &str, reverse: bool) -> Grid {
    let mut start = (0, 0);
    let mut end = (0, 0);
    let mut squares = vec![];
    for (y, l) in text.lines().enumerate() {
        let mut row = vec![];
        for (x, c) in l.trim().chars().enumerate() {
            let height = match c {
                'S' => {
                    start = (x as isize, y as isize);
                    0
                }
                'E' => {
                    end = (x as isize, y as isize);
                    25
                }
                _ => c as u8 - b'a',
            };
            row.push(Square { height, visited: false, cost: 0 });
        }
        squares.push(row);
    }
    if reverse {
        start = end;
    }
    Grid { reverse, squares, start, end }
}

const SAMPLE: &str = "Sabqponm
                      abcryxxl
                      accszExk
                      acctuvwj
                      abdefghi";

#[test]
fn hill_of_the_sample() {
    assert_eq!(grid(SAMPLE, false).pathfind(), Some(31));
    assert_eq!(grid(SAMPLE, true).pathfind(), Some(29));
}

#[test]
fn hill_search_marks_what_it_enters() {
    let mut g = grid("Sbc\nabE", false);
    g.squares[1][2].height = 3;
    assert_eq!(g.pathfind(), Some(3));
    assert!(g.squares[0][1].visited);
    assert_eq!(g.squares[0][1].cost, 1);
    assert_eq!(g.squares[1][0].cost, 1);
    assert_eq!(g.squares[1][1].cost, 2);
    assert_eq!(g.squares[0][0].cost, 2);
    assert!(g.squares[0][0].visited);
    assert_eq!(g.squares[1][2].cost, 3);
    assert_eq!(g.get((2, 1)).unwrap().cost, 3);
    assert!(g.get((3, 1)).is_none());
    assert!(g.get((0, 2)).is_none());
    assert!(g.get((-1, 0)).is_none());
    assert!(g.get((0, -1)).is_none());
}

#[test]
fn hill_without_a_way() {
    assert_eq!(grid("SaE", false).pathfind(), None);
    assert_eq!(grid("ScE", false).pathfind(), None);
    assert_eq!(grid("S", false).pathfind(), None);
    assert_eq!(grid("SzzE", true).pathfind(), None);
    let mut flat = grid("Sab", false);
    flat.end = (7, 7);
    assert_eq!(flat.pathfind(), None);
}

#[test]
fn hill_goal_next_to_the_start() {
    let mut g = grid("SE", false);
    g.squares[0][1].height = 1;
    assert_eq!(g.pathfind(), Some(1));
    let mut back = grid("aS", false);
    back.end = (1, 0);
    assert_eq!(back.pathfind(), Some(2));
    let mut down = grid("ayE", true);
    down.squares[0][1].height = 24;
    assert_eq!(down.pathfind(), None);
    let mut down = grid("bcE", true);
    down.squares[0][2].height = 3;
    down.squares[0][0].height = 0;
    down.squares[0][1].height = 2;
    assert_eq!(down.pathfind(), None);
    down.squares[0][0] = Square { height: 1, visited: false, cost: 0 };
    down.squares[0][1] = Square { height: 2, visited: false, cost: 0 };
    down.squares[0][2] = Square { height: 3, visited: false, cost: 0 };
    down.squares[0].push(Square { height: 0, visited: false, cost: 0 });
    down.start = (2, 0);
    assert_eq!(down.pathfind(), None);
    let mut slope = grid("abcd", true);
    slope.start = (3, 0);
    assert_eq!(slope.pathfind(), Some(3));
    let mut up = grid("aaaa", true);
    up.start = (3, 0);
    assert_eq!(up.pathfind(), Some(1));
    let mut alone = grid("a", true);
    alone.start = (0, 0);
    assert_eq!(alone.pathfind(), None);
}

#[test]
fn chart_of_lines() {
    let lines = |v: &[&str]| -> Vec<Vec<char>> { v.iter().map(|l| l.chars().collect()).collect() };
    let chart = read_chart(&lines(&["Sab", "zEc"])).unwrap();
    assert_eq!(chart.start, (0, 0));
    assert_eq!(chart.end, (1, 1));
    let heights: Vec<Vec<u8>> = chart.squares.iter().map(|r| r.iter().map(|s| s.height).collect()).collect();
    assert_eq!(heights, vec![vec![0, 0, 1], vec![25, 25, 2]]);
    assert!(chart.squares.iter().all(|r| r.iter().all(|s| !s.visited && s.cost == 0)));
    // Of two starts the last counts.
    let two = read_chart(&lines(&["SaS", "E"])).unwrap();
    assert_eq!(two.start, (2, 0));
    assert_eq!(two.end, (0, 1));
    assert!(read_chart(&lines(&["Sab"])).is_none());
    assert!(read_chart(&lines(&["abE"])).is_none());
    assert!(read_chart(&lines(&["SaE", "a.b"])).is_none());
    assert!(read_chart(&lines(&["SAE"])).is_none());
    assert!(read_chart(&lines(&[])).is_none());
}
