use advent::bit_grid::BitGrid;
use advent::spread::round;

fn grid(rows: &[&str]) -> BitGrid {
    let mut g = BitGrid::new(rows[0].len(), rows.len());
    for (y, row) in rows.iter().enumerate() {
        for (x, c) in row.chars().enumerate() {
            if c == '#' {
                g.set(x, y, true);
            }
        }
    }
    g
}

fn picture(g: &BitGrid) -> Vec<String> {
    g.render().lines().map(|l| l.replace('x', "#")).collect()
}

#[test]
fn dwarves_go_north_first() {
    let g = grid(&[".....", "..##.", "..#..", ".....", "..##.", "....."]);
    let next = round(&g);
    // The two at the top go north, and so does the one at the lower right.
    // The one in the third row goes south and meets the one from below
    // that goes north: both are gone.
    assert_eq!(
        picture(&next),
        vec!["..##.", ".....", ".....", "...#.", ".....", "....."]
    );
    assert_eq!(picture(&g)[1], "..##.");
}

#[test]
fn dwarf_without_neighbours_leaves() {
    let g = grid(&["...", ".#.", "..."]);
    assert_eq!(picture(&round(&g)), vec!["...", "...", "..."]);
    let far = grid(&["#...#", ".....", "#...#"]);
    assert_eq!(picture(&round(&far)), vec![".....", ".....", "....."]);
}

#[test]
fn dwarves_try_south_west_and_east_in_turn() {
    // The lower of two goes south where the north is taken.
    let g = grid(&["...", ".#.", ".#.", "...", "..."]);
    assert_eq!(picture(&round(&g)), vec![".#.", "...", "...", ".#.", "..."]);
    // With a dwarf above and one below, the middle one goes west.
    let h = grid(&[".....", "..#..", "..#..", "..#..", "....."]);
    assert_eq!(
        picture(&round(&h)),
        vec!["..#..", ".....", ".#...", ".....", "..#.."]
    );
}

#[test]
fn dwarf_that_goes_off_the_grid_is_lost() {
    let g = grid(&["##", ".."]);
    assert_eq!(picture(&round(&g)), vec!["..", ".."]);
}

#[test]
fn dwarf_with_no_free_direction_stays() {
    let g = grid(&["#.#", ".#.", "#.#"]);
    let next = round(&g);
    assert_eq!(picture(&next)[1], ".#.");
}

#[test]
fn round_across_a_word_boundary() {
    let mut g = BitGrid::new(130, 8);
    g.set(63, 5, true);
    g.set(64, 5, true);
    g.set(127, 2, true);
    g.set(128, 3, true);
    let next = round(&g);
    let mut found = vec![];
    for y in 0..8 {
        for x in 0..130 {
            if next.get(x, y) {
                found.push((x, y));
            }
        }
    }
    // The pair at the boundary goes north side by side. Of the other two
    // the upper goes north, and the lower, with the upper to its north,
    // goes south.
    assert_eq!(found, vec![(127, 1), (63, 4), (64, 4), (128, 4)]);
}
