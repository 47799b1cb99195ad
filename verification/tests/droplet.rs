use advent::droplet::{count_surfaces, flood_fill_external, neighbour, Grid};
use advent::droplet::read_point;

fn droplet(size: isize, cubes: &[(isize, isize, isize)]) -> Grid {
    let mut g = Grid::new(size);
    for c in cubes {
        assert!(g.fill(*c));
    }
    g
}

const SAMPLE: [(isize, isize, isize); 13] = [
    (2, 2, 2),
    (1, 2, 2),
    (3, 2, 2),
    (2, 1, 2),
    (2, 3, 2),
    (2, 2, 1),
    (2, 2, 3),
    (2, 2, 4),
    (2, 2, 6),
    (1, 2, 5),
    (3, 2, 5),
    (2, 1, 5),
    (2, 3, 5),
];

#[test]
fn droplet_of_the_sample() {
    let mut g = droplet(12, &SAMPLE);
    flood_fill_external(&mut g, (0, 0, 0));
    assert_eq!(count_surfaces(&g, &SAMPLE.to_vec()), Some((64, 58)));
    let inner = g.get((2, 2, 5)).unwrap();
    assert!(!inner.solid && !inner.external);
    let skin = g.get((2, 2, 2)).unwrap();
    assert!(skin.solid && !skin.external);
    let far = g.get((9, 9, 9)).unwrap();
    assert!(far.external && !far.solid);
    let corner = g.get((-2, -2, -2)).unwrap();
    assert!(corner.external);
}

#[test]
fn droplet_box_has_a_margin() {
    let mut g = Grid::new(5);
    assert!(g.get((-2, -2, -2)).is_some());
    assert!(g.get((2, 2, 2)).is_some());
    assert!(g.get((3, 0, 0)).is_none());
    assert!(g.get((0, 3, 0)).is_none());
    assert!(g.get((0, 0, 3)).is_none());
    assert!(g.get((-3, 0, 0)).is_none());
    assert!(g.get((0, -3, 0)).is_none());
    assert!(g.get((0, 0, -3)).is_none());
    assert!(!g.fill((3, 3, 3)));
    assert!(g.fill((2, -2, 0)));
    assert!(g.get((2, -2, 0)).unwrap().solid);
    assert!(!g.get((2, -2, 1)).unwrap().solid);
    assert!(!g.get((-2, 2, 0)).unwrap().solid);
    assert!(Grid::new(0).get((0, 0, 0)).is_none());
    assert!(Grid::new(2).get((0, 0, 0)).is_none());
    assert!(Grid::new(3).get((0, 0, 0)).is_some());
}

#[test]
fn droplet_two_cubes_side_by_side() {
    let cubes = vec![(1, 1, 1), (2, 1, 1)];
    let mut g = droplet(8, &cubes);
    assert_eq!(count_surfaces(&g, &cubes), Some((10, 0)));
    flood_fill_external(&mut g, (0, 0, 0));
    assert_eq!(count_surfaces(&g, &cubes), Some((10, 10)));
    assert_eq!(count_surfaces(&g, &vec![]), Some((0, 0)));
    assert_eq!(count_surfaces(&g, &vec![(5, 5, 5)]), None);
    assert_eq!(count_surfaces(&g, &vec![(4, 4, 4)]), Some((6, 6)));
    assert_eq!(count_surfaces(&g, &vec![(-2, 0, 0)]), None);
    assert_eq!(count_surfaces(&g, &vec![(5000, 0, 0)]), None);
}

#[test]
fn flood_fill_stops_at_the_droplet() {
    let mut shell = vec![];
    for x in 0..3 {
        for y in 0..3 {
            for z in 0..3 {
                if (x, y, z) != (1, 1, 1) {
                    shell.push((x, y, z));
                }
            }
        }
    }
    let mut g = droplet(8, &shell);
    flood_fill_external(&mut g, (-2, -2, -2));
    assert!(!g.get((1, 1, 1)).unwrap().external);
    assert!(g.get((3, 1, 1)).unwrap().external);
    assert!(!g.get((0, 0, 0)).unwrap().external);
    assert_eq!(count_surfaces(&g, &shell), Some((54 + 6, 54)));
    let mut g = droplet(8, &shell);
    flood_fill_external(&mut g, (1, 1, 1));
    assert!(g.get((1, 1, 1)).unwrap().external);
    assert!(!g.get((3, 1, 1)).unwrap().external);
    assert_eq!(count_surfaces(&g, &shell), Some((60, 6)));
    let mut g = droplet(8, &shell);
    flood_fill_external(&mut g, (0, 0, 0));
    assert!(g.get((0, 0, 0)).unwrap().external);
    assert!(g.get((0, 0, 0)).unwrap().solid);
    assert!(g.get((-1, 0, 0)).unwrap().external);
    assert!(!g.get((1, 0, 0)).unwrap().external);
    assert!(!g.get((1, 1, 1)).unwrap().external);
}

#[test]
fn neighbours_of_a_cube() {
    let all: Vec<(isize, isize, isize)> = (0..6).map(|i| neighbour((5, 6, 7), i)).collect();
    assert_eq!(all, vec![(4, 6, 7), (6, 6, 7), (5, 6, 6), (5, 6, 8), (5, 5, 7), (5, 7, 7)]);
}

#[test]
fn point_of_a_line() {
    let read = |s: &str| read_point(&s.chars().collect());
    assert_eq!(read("2,2,2"), Some((2, 2, 2)));
    assert_eq!(read("10,-3,+7"), Some((10, -3, 7)));
    assert_eq!(read("1,2,3,4"), Some((1, 2, 3)));
    assert_eq!(read("1,2"), None);
    assert_eq!(read("1,,3"), None);
    assert_eq!(read("1, 2,3"), None);
    assert_eq!(read(""), None);
}
