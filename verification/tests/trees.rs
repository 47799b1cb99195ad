use advent::trees::{best_score, height_of, is_clear, is_visible, look, score, visible_count};
use advent::trees::read_heights;

fn patch(text: &str) -> Vec<Vec<isize>> {
    text.lines().map(|l| l.trim().chars().map(height_of).collect()).collect()
}

const SAMPLE: &str = "30373
                      25512
                      65332
                      33549
                      35390";

#[test]
fn trees_of_the_sample() {
    let h = patch(SAMPLE);
    assert_eq!(visible_count(&h), 21);
    assert_eq!(best_score(&h), Some(8));
    assert_eq!(score(&h, 2, 1), 4);
    assert_eq!(score(&h, 2, 3), 8);
    assert_eq!(look(&h, 2, 3, 0, -1), 2);
    assert_eq!(look(&h, 2, 3, -1, 0), 2);
    assert_eq!(look(&h, 2, 3, 0, 1), 1);
    assert_eq!(look(&h, 2, 3, 1, 0), 2);
    assert_eq!(score(&h, 0, 0), 0);
    assert!(is_visible(&h, 1, 1));
    assert!(is_visible(&h, 2, 1));
    assert!(!is_visible(&h, 3, 1));
    assert!(is_visible(&h, 1, 2));
    assert!(!is_visible(&h, 2, 2));
    assert!(is_visible(&h, 3, 2));
    assert!(!is_visible(&h, 1, 3));
    assert!(is_visible(&h, 2, 3));
    assert!(!is_visible(&h, 3, 3));
    assert!(is_clear(&h, 1, 1, -1, 0));
    assert!(is_clear(&h, 1, 1, 0, -1));
    assert!(!is_clear(&h, 1, 1, 1, 0));
    assert!(!is_clear(&h, 1, 1, 0, 1));
}

#[test]
fn trees_at_the_height_of_open_ground() {
    let h: Vec<Vec<isize>> = vec![vec![-1, 0], vec![-5, -1]];
    assert!(!is_visible(&h, 0, 0));
    assert!(is_visible(&h, 1, 0));
    assert!(!is_visible(&h, 0, 1));
    assert!(!is_visible(&h, 1, 1));
    assert_eq!(visible_count(&h), 1);
    assert_eq!(best_score(&h), Some(0));
}

#[test]
fn trees_of_small_patches() {
    assert_eq!(visible_count(&patch("5")), 1);
    assert_eq!(best_score(&patch("5")), Some(0));
    assert_eq!(visible_count(&vec![vec![]]), 0);
    assert_eq!(best_score(&vec![vec![]]), None);
    let row = patch("1234321");
    assert_eq!(visible_count(&row), 7);
    assert_eq!(best_score(&row), Some(0));
    let flat = patch("111\n111\n111");
    assert_eq!(visible_count(&flat), 8);
    assert_eq!(best_score(&flat), Some(1));
    let hill = patch("11111\n12221\n12921\n12221\n11111");
    assert_eq!(visible_count(&hill), 25);
    assert_eq!(best_score(&hill), Some(16));
    assert_eq!(score(&hill, 2, 2), 16);
    assert_eq!(score(&hill, 1, 1), 1);
}

#[test]
fn heights_of_characters() {
    assert_eq!(height_of('0'), 0);
    assert_eq!(height_of('1'), 1);
    assert_eq!(height_of('9'), 9);
    assert_eq!(height_of(':'), 10);
    assert_eq!(height_of('/'), -1);
    assert_eq!(height_of(' '), -16);
}

#[test]
fn heights_of_lines() {
    let lines: Vec<Vec<char>> = ["30373", "", "25512"].iter().map(|l| l.chars().collect()).collect();
    assert_eq!(read_heights(&lines), vec![vec![3, 0, 3, 7, 3], vec![2, 5, 5, 1, 2]]);
    assert!(read_heights(&vec![]).is_empty());
    assert!(read_heights(&vec![vec![]]).is_empty());
}
