use advent::bit_grid::{BitGrid, BitView};
use advent::blizzard::{last_gap, mark, moved, read_chart};

fn chart(text: &str) -> Vec<Vec<char>> {
    text.lines().map(|l| l.trim().chars().collect()).collect()
}

const SAMPLE: &str = "#.######
                      #>>.<^<#
                      #.<..<<#
                      #>v.><>#
                      #<^v^^>#
                      ######.#";

fn cells(g: &BitGrid) -> Vec<(usize, usize)> {
    let mut out = vec![];
    for y in 0..g.height() {
        for x in 0..g.width() {
            if g.get(x, y) {
                out.push((x, y));
            }
        }
    }
    out
}

// The rule of the valley on plain sets of places, to hold the grids against.
fn reference_search(lines: &[Vec<char>], from: (usize, usize), to: (usize, usize), time_off: isize, limit: usize) -> Option<isize> {
    let h = lines.len() as isize;
    let w = lines[0].len() as isize;
    let at = |x: isize, y: isize| lines[y as usize][x as usize];
    let taken = |t: isize, x: isize, y: isize| {
        if at(x, y) == '#' {
            return true;
        }
        if x < 1 || x > w - 2 || y < 1 || y > h - 2 {
            return false;
        }
        let wrap = |v: isize, n: isize| 1 + (v - 1).rem_euclid(n);
        at(x, wrap(y + t, h - 2)) == '^'
            || at(x, wrap(y - t, h - 2)) == 'v'
            || at(wrap(x - t, w - 2), y) == '>'
            || at(wrap(x + t, w - 2), y) == '<'
    };
    let mut places = vec![(from.0 as isize, from.1 as isize)];
    let mut time = time_off;
    for _ in 0..limit {
        let mut next = vec![];
        for y in 0..h {
            for x in 0..w {
                let near = places.iter().any(|(px, py)| (px - x).abs() + (py - y).abs() <= 1);
                if near && !taken(time, x, y) {
                    next.push((x, y));
                }
            }
        }
        places = next;
        if places.contains(&(to.0 as isize, to.1 as isize)) {
            return Some(time);
        }
        time += 1;
    }
    None
}

#[test]
fn chart_is_read() {
    let lines = chart(SAMPLE);
    let c = read_chart(&lines).unwrap();
    assert_eq!(c.start, (1, 0));
    assert_eq!(c.end, (6, 5));
    assert_eq!(c.valley.wall.width(), 8);
    assert_eq!(c.valley.wall.height(), 6);
    assert_eq!(cells(&c.valley.north), vec![(5, 1), (2, 4), (4, 4), (5, 4)]);
    assert_eq!(cells(&c.valley.south), vec![(2, 3), (3, 4)]);
    assert_eq!(cells(&c.valley.east).len(), 6);
    assert_eq!(cells(&c.valley.west).len(), 7);
    assert_eq!(cells(&c.valley.wall).len(), 8 + 8 + 8 - 2);
}

#[test]
fn chart_that_cannot_be_read() {
    assert!(read_chart(&chart("")).is_none());
    assert!(read_chart(&chart("#.#")).is_none());
    assert!(read_chart(&chart("#.#\n###")).is_none());
    assert!(read_chart(&chart("###\n#.#")).is_none());
    assert!(read_chart(&chart("#.#\n#.#")).is_some());
    assert!(read_chart(&chart("#.\n#.#")).is_none());
    assert!(read_chart(&chart("#.\n#..")).is_some());
    assert!(read_chart(&chart("#.\n#.>")).is_none());
    assert!(read_chart(&chart(".\n.")).is_none());
}

#[test]
fn marks_and_gaps() {
    let lines = chart("ab\nba.\n");
    assert_eq!(cells(&mark(&lines, 'a').unwrap()), vec![(0, 0), (1, 1)]);
    assert_eq!(cells(&mark(&lines, 'z').unwrap()), vec![]);
    assert!(mark(&lines, '.').is_none());
    assert_eq!(last_gap(&"..#.#".chars().collect()), Some(3));
    assert_eq!(last_gap(&"###".chars().collect()), None);
    assert_eq!(last_gap(&vec![]), None);
}

#[test]
fn blizzards_move_round_inside_the_walls() {
    let lines = chart(SAMPLE);
    let c = read_chart(&lines).unwrap();
    assert_eq!(cells(&moved(&c.valley.east, 0, 0)), cells(&c.valley.east));
    assert_eq!(cells(&moved(&c.valley.east, 6, 0)), cells(&c.valley.east));
    assert_eq!(cells(&moved(&c.valley.east, 1, 0)), vec![(2, 1), (3, 1), (1, 3), (2, 3), (5, 3), (1, 4)]);
    assert_eq!(cells(&moved(&c.valley.north, 0, -1)), vec![(2, 3), (4, 3), (5, 3), (5, 4)]);
    assert_eq!(cells(&moved(&c.valley.north, 0, -5)), cells(&moved(&c.valley.north, 0, -1)));
    assert_eq!(cells(&moved(&c.valley.south, 0, 1)), vec![(3, 1), (2, 4)]);
    assert_eq!(cells(&moved(&c.valley.wall, 0, 0)), vec![]);
}

#[test]
fn traveller_spreads_to_free_places() {
    let lines = chart(SAMPLE);
    let c = read_chart(&lines).unwrap();
    let mut at_start = BitGrid::new(8, 6);
    at_start.set(1, 0, true);
    let after = c.valley.step(&at_start, 0);
    assert_eq!(cells(&after), vec![(1, 0)]);
    let after = c.valley.step(&at_start, 1);
    assert_eq!(cells(&after), vec![(1, 0), (1, 1)]);
}

#[test]
fn search_agrees_with_the_rule_on_sets() {
    let lines = chart(SAMPLE);
    let c = read_chart(&lines).unwrap();
    for t0 in [0isize, 1, 2, 5, 17] {
        assert_eq!(c.valley.pathfind(c.start, c.end, t0, 40), reference_search(&lines, c.start, c.end, t0, 40));
        assert_eq!(c.valley.pathfind(c.end, c.start, t0, 40), reference_search(&lines, c.end, c.start, t0, 40));
    }
    assert_eq!(c.valley.pathfind(c.start, c.end, 0, 3), None);
    assert_eq!(c.valley.pathfind(c.start, c.end, 0, 0), None);
    assert_eq!(c.valley.pathfind(c.start, c.start, 3, 5), Some(3));
    let a = reference_search(&lines, c.start, c.end, 0, 100).unwrap();
    let b = reference_search(&lines, c.end, c.start, a, 100).unwrap();
    let third = reference_search(&lines, c.start, c.end, b, 100).unwrap();
    assert_eq!(c.journey(100), Some((a, third)));
    assert_eq!(c.journey(5), None);
    assert_eq!(c.journey(0), None);
    // Each leg makes one move more than the time it takes.
    let longest = (a + 1).max(b - a + 1).max(third - b + 1) as usize;
    assert_eq!(c.journey(longest), Some((a, third)));
    assert_eq!(c.journey(longest - 1), None);
}
