use advent::bit_grid::{BitGrid, BitView};
use advent::views::{And, AndNot, Either, Or, Prim, Shifted, ShiftedWrap, Window, Xor};
use advent::word::{WIDTH, WIDTH_U};

fn set_cells(g: &BitGrid) -> Vec<(usize, usize)> {
    let mut out = vec![];
    for y in 0..g.height() {
        for x in 0..g.width() {
            if g.get(x, y) {
                out.push((x, y));
            }
        }
    }
    out
}

fn grid_with(width: usize, height: usize, cells: &[(usize, usize)]) -> BitGrid {
    let mut g = BitGrid::new(width, height);
    for (x, y) in cells {
        g.set(*x, *y, true);
    }
    g
}

fn words(g: &BitGrid) -> Vec<Vec<u128>> {
    let mut out = vec![];
    for y in 0..g.height() {
        let mut line = vec![];
        for k in 0..(g.width() + WIDTH_U - 1) / WIDTH_U {
            line.push(g.get_backing((k * WIDTH_U) as isize, y as isize));
        }
        out.push(line);
    }
    out
}

#[test]
fn window_clamp() {
    let bit_test = |x_set, backing_x, window_x, window_size| {
        let mut b = BitGrid::new(128, 1);
        b.set(x_set, 0, true);
        let w = Window::new(&b, window_x, 0, window_size, 1);
        let v = BitGrid::from_view(&w);
        println!("{}", v.render());
        v.get_backing(backing_x, 0)
    };

    assert_eq!(bit_test(3, 0, 0, 2), 0);
    assert_eq!(bit_test(3, 0, 0, WIDTH), 1 << 3);

    // The same on a grid of two words, with the cell in the second.
    let wide_test = |x_set, backing_x, window_x, window_size| {
        let mut b = BitGrid::new(256, 1);
        b.set(x_set, 0, true);
        let w = Window::new(&b, window_x, 0, window_size, 1);
        let v = BitGrid::from_view(&w);
        v.get_backing(backing_x, 0)
    };
    assert_eq!(wide_test(WIDTH_U + 3, WIDTH, 0, WIDTH + 1), 0);
    assert_eq!(wide_test(WIDTH_U + 3, WIDTH, 0, WIDTH + 4), 1 << 3);
    assert_eq!(wide_test(WIDTH_U + 3, 0, 4, WIDTH), 1 << 127);
    let mut b = BitGrid::new(256, 1);
    b.set(131, 0, true);
    let w = Window::new(&b, 4, 0, 128, 1);
    assert_eq!(w.get_backing(0, 0), 1u128 << 127);
    assert_eq!(w.get_backing(128, 0), 0);
}

#[test]
fn new_grid_is_blank() {
    let g = BitGrid::new(130, 3);
    assert_eq!(g.width(), 130);
    assert_eq!(g.height(), 3);
    assert_eq!(set_cells(&g), vec![]);
    assert_eq!(words(&g), vec![vec![0, 0]; 3]);
    assert_eq!(words(&BitGrid::new(100, 1)), vec![vec![0]]);
    assert_eq!(words(&BitGrid::new(128, 1)), vec![vec![0]]);
    assert_eq!(words(&BitGrid::new(129, 1)), vec![vec![0, 0]]);
    let empty = BitGrid::new(0, 0);
    assert_eq!(empty.width(), 0);
    assert_eq!(empty.height(), 0);
    assert_eq!(empty.render(), "");
}

#[test]
fn set_changes_one_bit() {
    let mut g = BitGrid::new(300, 4);
    g.set(127, 1, true);
    g.set(128, 1, true);
    g.set(299, 3, true);
    assert_eq!(set_cells(&g), vec![(127, 1), (128, 1), (299, 3)]);
    g.set(128, 1, false);
    assert_eq!(set_cells(&g), vec![(127, 1), (299, 3)]);
    g.set(127, 1, true);
    assert_eq!(set_cells(&g), vec![(127, 1), (299, 3)]);
    g.set(0, 0, false);
    assert_eq!(set_cells(&g), vec![(127, 1), (299, 3)]);
    assert_eq!(g.get_backing(0, 1), 1 << 127);
    assert_eq!(g.get_backing(256, 3), 1 << 43);
}

#[test]
fn storage_reads_outside_are_zero() {
    let g = grid_with(256, 2, &[(0, 0), (255, 1)]);
    assert_eq!(g.get_backing(0, -1), 0);
    assert_eq!(g.get_backing(0, 2), 0);
    assert_eq!(g.get_backing(256, 0), 0);
    assert_eq!(g.get_backing(-128, 0), 0);
    assert_eq!(g.get_backing(-256, 0), 0);
    assert_eq!(g.get_backing(-257, 0), 0);
    assert_eq!(g.get_backing(-1000, 1), 0);
    assert_eq!(g.get_backing(isize::MAX, 0), 0);
    assert_eq!(g.get_backing(isize::MIN, 0), 0);
    assert_eq!(g.get_backing(0, 0), 1);
    assert_eq!(g.get_backing(128, 1), 1 << 127);
    // A word holds 128 columns.
    let one = grid_with(128, 1, &[(64, 0)]);
    assert_eq!(one.get_backing(0, 0), 1 << 64);
}

#[test]
fn storage_reads_bridge_words() {
    let g = grid_with(384, 1, &[(140, 0)]);
    assert_eq!(g.get_backing(128, 0), 1 << 12);
    assert_eq!(g.get_backing(13, 0), 1 << 127);
    assert_eq!(g.get_backing(14, 0), 1 << 126);
    assert_eq!(g.get_backing(140, 0), 1);
    assert_eq!(g.get_backing(141, 0), 0);
    assert_eq!(g.get_backing(12, 0), 0);
    let h = grid_with(128, 1, &[(0, 0), (127, 0)]);
    assert_eq!(h.get_backing(-1, 0), 2);
    assert_eq!(h.get_backing(-127, 0), 1 << 127);
    assert_eq!(h.get_backing(1, 0), 1 << 126);
    assert_eq!(h.get_backing(127, 0), 1);
}

#[test]
fn round_trip_identity() {
    let g = grid_with(300, 3, &[(0, 0), (127, 0), (128, 1), (255, 1), (256, 2), (299, 2)]);
    let copy = BitGrid::from_view(&g);
    assert_eq!(copy.width(), 300);
    assert_eq!(copy.height(), 3);
    assert_eq!(words(&copy), words(&g));
    assert_eq!(set_cells(&copy), set_cells(&g));
}

#[test]
fn round_trip_keeps_bits_past_the_width() {
    let a = BitGrid::new(140, 1);
    let b = BitGrid::new(140, 1);
    let full = BitGrid::from_view(&Prim::new(&a, &b, |a: u128, b: u128| !(a ^ b)));
    assert_eq!(words(&full), vec![vec![u128::MAX, u128::MAX]]);
    let copy = BitGrid::from_view(&full);
    assert_eq!(words(&copy), vec![vec![u128::MAX, u128::MAX]]);
}

#[test]
fn shift_inverse() {
    let g = grid_with(280, 5, &[(10, 2), (128, 2), (200, 1), (127, 3)]);
    for (dx, dy) in [(0, 0), (1, 0), (-1, 0), (0, 1), (0, -1), (39, 1), (-10, -1), (30, -1), (-9, 1)] {
        let there = Shifted::new(&g, dx, dy);
        let back = Shifted::new(&there, -dx, -dy);
        let r = BitGrid::from_view(&back);
        assert_eq!(r.width(), 280);
        assert_eq!(r.height(), 5);
        assert_eq!(set_cells(&r), set_cells(&g), "offset {} {}", dx, dy);
    }
}

#[test]
fn shift_loses_what_leaves_the_extent() {
    let g = grid_with(140, 5, &[(10, 2), (139, 4)]);
    let there = Shifted::new(&g, 1, 0);
    let back = Shifted::new(&there, -1, 0);
    assert_eq!(set_cells(&BitGrid::from_view(&back)), vec![(10, 2)]);
    let there = Shifted::new(&g, 0, 1);
    let back = Shifted::new(&there, 0, -1);
    assert_eq!(set_cells(&BitGrid::from_view(&back)), vec![(10, 2)]);
    let there = Shifted::new(&g, -11, -3);
    let back = Shifted::new(&there, 11, 3);
    assert_eq!(set_cells(&BitGrid::from_view(&back)), vec![(139, 4)]);
}

#[test]
fn shift_moves_cells() {
    let g = grid_with(400, 4, &[(0, 0), (127, 1), (128, 2), (399, 3)]);
    let s = BitGrid::from_view(&Shifted::new(&g, 129, 1));
    assert_eq!(set_cells(&s), vec![(129, 1), (256, 2), (257, 3)]);
    let s = BitGrid::from_view(&Shifted::new(&g, -128, -1));
    assert_eq!(set_cells(&s), vec![(0, 1), (271, 2)]);
    let s = BitGrid::from_view(&Shifted::new(&g, isize::MAX, 0));
    assert_eq!(set_cells(&s), vec![]);
    let s = BitGrid::from_view(&Shifted::new(&g, isize::MIN, isize::MIN));
    assert_eq!(set_cells(&s), vec![]);
}

#[test]
fn shifted_reads_outside_are_zero() {
    let g = grid_with(256, 2, &[(0, 0), (255, 1)]);
    let s = Shifted::new(&g, -5, 0);
    assert_eq!(s.get_backing(-128, 0), 0);
    assert_eq!(s.get_backing(-5, 0), 0);
    assert_eq!(s.get_backing(256, 1), 0);
    assert_eq!(s.get_backing(0, 2), 0);
    assert_eq!(s.get_backing(0, -1), 0);
    assert_eq!(s.get_backing(128, 1), 1 << 122);
    assert_eq!(s.get_backing(200, 1), 1 << 50);
    assert_eq!(s.get_backing(isize::MAX, 1), 0);
    assert_eq!(s.get_backing(isize::MIN, 1), 0);
}

#[test]
fn wrap_periodicity() {
    let g = grid_with(200, 3, &[(0, 0), (50, 1), (199, 2), (128, 0)]);
    for dx in [-450isize, -201, -200, -1, 0, 1, 36, 127, 128, 199, 200, 370] {
        for dy in [-4isize, -1, 0, 1, 2, 3, 7] {
            let a = BitGrid::from_view(&ShiftedWrap::new(&g, dx, dy));
            let b = BitGrid::from_view(&ShiftedWrap::new(&g, dx + 200, dy));
            let c = BitGrid::from_view(&ShiftedWrap::new(&g, dx, dy + 3));
            assert_eq!(words(&a), words(&b));
            assert_eq!(words(&a), words(&c));
            assert_eq!(set_cells(&a).len(), 4);
        }
    }
}

#[test]
fn wrap_moves_cells_round_the_edges() {
    let g = grid_with(100, 3, &[(0, 0), (50, 1), (99, 2)]);
    let r = BitGrid::from_view(&ShiftedWrap::new(&g, 1, 1));
    assert_eq!(set_cells(&r), vec![(0, 0), (1, 1), (51, 2)]);
    let r = BitGrid::from_view(&ShiftedWrap::new(&g, -1, -1));
    assert_eq!(set_cells(&r), vec![(49, 0), (98, 1), (99, 2)]);
    let r = BitGrid::from_view(&ShiftedWrap::new(&g, 60, 0));
    assert_eq!(set_cells(&r), vec![(60, 0), (10, 1), (59, 2)]);
    let r = BitGrid::from_view(&ShiftedWrap::new(&g, 0, 0));
    assert_eq!(set_cells(&r), set_cells(&g));
}

#[test]
fn wrap_ignores_bits_past_the_width() {
    let a = BitGrid::new(140, 1);
    let b = BitGrid::new(140, 1);
    let full = BitGrid::from_view(&Prim::new(&a, &b, |a: u128, b: u128| !(a ^ b)));
    let mut hole = BitGrid::from_view(&full);
    for x in 0..140 {
        hole.set(x, 0, x == 3);
    }
    let r = BitGrid::from_view(&ShiftedWrap::new(&hole, 10, 0));
    assert_eq!(set_cells(&r), vec![(13, 0)]);
    assert_eq!(words(&r), vec![vec![1 << 13, 0]]);
    let r = BitGrid::from_view(&Shifted::new(&hole, -1, 0));
    assert_eq!(words(&r), vec![vec![1 << 2, 0]]);
}

#[test]
fn wrap_of_an_empty_extent() {
    let g = BitGrid::new(0, 0);
    let w = ShiftedWrap::new(&g, 5, 5);
    assert_eq!(w.get_backing(0, 0), 0);
    let r = BitGrid::from_view(&w);
    assert_eq!(r.width(), 0);
    assert_eq!(r.height(), 0);
    let g = BitGrid::new(0, 2);
    assert_eq!(ShiftedWrap::new(&g, 5, 5).get_backing(0, 1), 0);
}

#[test]
fn window_masking() {
    let mut g = BitGrid::new(512, 2);
    for x in 0..512 {
        g.set(x, 0, true);
        g.set(x, 1, true);
    }
    for w in [0isize, 1, 2, 127, 128, 129, 200, 255, 256, 257, 400] {
        let win = Window::new(&g, 3, 0, w, 2);
        let r = BitGrid::from_view(&win);
        assert_eq!(r.width(), w as usize);
        assert_eq!(r.height(), 2);
        for y in 0..2 {
            for k in 0..4 {
                let word = r.get_backing(k * 128, y);
                for i in 0..128 {
                    let column = k * 128 + i;
                    assert_eq!((word >> i) & 1 == 1, column < w, "width {} column {}", w, column);
                }
            }
        }
    }
}

#[test]
fn window_cuts_and_moves() {
    let g = grid_with(16, 4, &[(1, 1), (15, 3), (0, 0)]);
    let w = Window::new(&g, 1, 1, 14, 2);
    let r = BitGrid::from_view(&w);
    assert_eq!(r.width(), 14);
    assert_eq!(r.height(), 2);
    assert_eq!(set_cells(&r), vec![(0, 0)]);
    let out = BitGrid::from_view(&Window::new(&r, -1, -1, 16, 4));
    assert_eq!(set_cells(&out), vec![(1, 1)]);
    assert_eq!(w.get_backing(0, 2), 0);
    assert_eq!(w.get_backing(0, -1), 0);
    assert_eq!(w.get_backing(-128, 0), 0);
    assert_eq!(w.get_backing(-1, 0), 2);
}

#[test]
fn or_extent_and_cells() {
    let a = grid_with(140, 2, &[(0, 0), (139, 1)]);
    let b = grid_with(260, 1, &[(0, 0), (259, 0), (139, 0)]);
    let r = BitGrid::from_view(&Or::new(&a, &b));
    assert_eq!(r.width(), 260);
    assert_eq!(r.height(), 2);
    assert_eq!(set_cells(&r), vec![(0, 0), (139, 0), (259, 0), (139, 1)]);
    for y in 0..2 {
        for x in 0..260 {
            let in_a = x < 140 && a.get(x, y);
            let in_b = y < 1 && b.get(x, y);
            assert_eq!(r.get(x, y), in_a | in_b);
        }
    }
    let r = BitGrid::from_view(&Or::new(&b, &a));
    assert_eq!(r.width(), 260);
    assert_eq!(r.height(), 2);
    assert_eq!(set_cells(&r), vec![(0, 0), (139, 0), (259, 0), (139, 1)]);
}

#[test]
fn bridging_over_word_boundaries() {
    for width in [256usize, 257, 383, 384, 512] {
        for p in [0usize, 1, 5, 126, 127, 128, 129, 255] {
            let g = grid_with(width, 1, &[(p, 0)]);
            for s in 0..256usize {
                let r = BitGrid::from_view(&Shifted::new(&g, s as isize, 0));
                let expected = if p + s < width { vec![(p + s, 0)] } else { vec![] };
                assert_eq!(set_cells(&r), expected, "width {} bit {} shift {}", width, p, s);
                let mut expected_words = vec![0u128; (width + 127) / 128];
                if p + s < width {
                    expected_words[(p + s) / 128] = 1 << ((p + s) % 128);
                }
                assert_eq!(words(&r), vec![expected_words]);
            }
        }
    }
}

#[test]
fn shifted_single_bit_scenario() {
    let g = grid_with(128, 1, &[(5, 0)]);
    let r = BitGrid::from_view(&Shifted::new(&g, 3, 0));
    assert_eq!(set_cells(&r), vec![(8, 0)]);
    assert_eq!(words(&r), vec![vec![1 << 8]]);
    let r = BitGrid::from_view(&Shifted::new(&g, 130, 0));
    assert_eq!(r.width(), 128);
    assert_eq!(set_cells(&r), vec![]);
    assert_eq!(words(&r), vec![vec![0]]);
    let wide = grid_with(136, 1, &[(5, 0)]);
    let r = BitGrid::from_view(&Shifted::new(&wide, 130, 0));
    assert_eq!(set_cells(&r), vec![(135, 0)]);
    assert_eq!(words(&r), vec![vec![0, 1 << 7]]);
    let narrow = grid_with(135, 1, &[(5, 0)]);
    let r = BitGrid::from_view(&Shifted::new(&narrow, 130, 0));
    assert_eq!(set_cells(&r), vec![]);
    assert_eq!(words(&r), vec![vec![0, 0]]);
    // Over two word boundaries.
    let long = grid_with(400, 1, &[(5, 0)]);
    let r = BitGrid::from_view(&Shifted::new(&long, 260, 0));
    assert_eq!(set_cells(&r), vec![(265, 0)]);
    assert_eq!(words(&r), vec![vec![0, 0, 1 << 9, 0]]);
}

#[test]
fn prim_and_scenario() {
    let a = grid_with(128, 2, &[(0, 0)]);
    let b = grid_with(128, 2, &[(0, 0)]);
    let both = BitGrid::from_view(&Prim::new(&a, &b, |a: u128, b: u128| a & b));
    assert_eq!(set_cells(&both), vec![(0, 0)]);
    let moved = BitGrid::from_view(&Shifted::new(&b, 1, 0));
    let none = BitGrid::from_view(&Prim::new(&a, &moved, |a: u128, b: u128| a & b));
    assert_eq!(set_cells(&none), vec![]);
    assert_eq!(words(&none), vec![vec![0], vec![0]]);
    let lazy = Shifted::new(&b, 1, 0);
    let none = BitGrid::from_view(&Prim::new(&a, &lazy, |a: u128, b: u128| a & b));
    assert_eq!(set_cells(&none), vec![]);
    let only_a = BitGrid::from_view(&Prim::new(&a, &moved, |a: u128, b: u128| a & !b));
    assert_eq!(set_cells(&only_a), vec![(0, 0)]);
    let either = BitGrid::from_view(&Prim::new(&a, &moved, |a: u128, b: u128| a ^ b));
    assert_eq!(set_cells(&either), vec![(0, 0), (1, 0)]);
}

#[test]
fn prim_extent_is_the_larger() {
    let a = BitGrid::new(10, 7);
    let b = BitGrid::new(90, 2);
    let p = Prim::new(&a, &b, |a: u128, b: u128| a | b);
    assert_eq!(p.width(), 90);
    assert_eq!(p.height(), 7);
    let o = Or::new(&a, &b);
    assert_eq!(o.width(), 90);
    assert_eq!(o.height(), 7);
}

#[test]
fn views_nest() {
    let mut b = grid_with(256, 16, &[(127, 5)]);
    for _ in 0..3 {
        let sa = Shifted::new(&b, 1, 0);
        let sb = Shifted::new(&b, -1, 0);
        let sc = Shifted::new(&b, 0, -1);
        let sd = Shifted::new(&b, 0, 1);
        let acc = Or::new(&b, &sa);
        let acc = Or::new(&acc, &sb);
        let acc = Or::new(&acc, &sc);
        let acc = Or::new(&acc, &sd);
        b = BitGrid::from_view(&acc);
    }
    let mut expected = vec![];
    for y in 0..16isize {
        for x in 0..256isize {
            if (x - 127).abs() + (y - 5).abs() <= 3 {
                expected.push((x as usize, y as usize));
            }
        }
    }
    assert_eq!(set_cells(&b), expected);
}

#[test]
fn render_draws_rows() {
    let g = grid_with(3, 2, &[(0, 0), (2, 1)]);
    assert_eq!(g.render(), "x..\n..x\n");
    let g = grid_with(130, 1, &[(128, 0)]);
    let mut line = ".".repeat(128);
    line.push_str("x.\n");
    assert_eq!(g.render(), line);
}

#[test]
fn clone_is_independent() {
    let mut g = grid_with(70, 2, &[(69, 1)]);
    let copy = g.clone();
    g.set(0, 0, true);
    assert_eq!(set_cells(&copy), vec![(69, 1)]);
    assert_eq!(set_cells(&g), vec![(0, 0), (69, 1)]);
}

#[test]
fn through_a_trait_object() {
    let g = grid_with(140, 2, &[(133, 1)]);
    let s = Shifted::new(&g, -5, 0);
    let view: &dyn BitView = &s;
    let r = BitGrid::from_view(view);
    assert_eq!(set_cells(&r), vec![(128, 1)]);
}

#[test]
fn operators_of_the_library() {
    let a = grid_with(260, 2, &[(0, 0), (127, 0), (128, 1), (259, 1)]);
    let b = grid_with(260, 2, &[(0, 0), (128, 0), (128, 1), (3, 1)]);
    let both = BitGrid::from_view(&Prim::new(&a, &b, And));
    assert_eq!(set_cells(&both), vec![(0, 0), (128, 1)]);
    let only_a = BitGrid::from_view(&Prim::new(&a, &b, AndNot));
    assert_eq!(set_cells(&only_a), vec![(127, 0), (259, 1)]);
    let either = BitGrid::from_view(&Prim::new(&a, &b, Either));
    assert_eq!(set_cells(&either), vec![(0, 0), (127, 0), (128, 0), (3, 1), (128, 1), (259, 1)]);
    let one = BitGrid::from_view(&Prim::new(&a, &b, Xor));
    assert_eq!(set_cells(&one), vec![(127, 0), (128, 0), (3, 1), (259, 1)]);
    // They agree with the functions that compute the same.
    let by_function = BitGrid::from_view(&Prim::new(&a, &b, |a: u128, b: u128| a ^ b));
    assert_eq!(words(&one), words(&by_function));
    let by_function = BitGrid::from_view(&Prim::new(&a, &b, |a: u128, b: u128| a | b));
    assert_eq!(words(&either), words(&by_function));
    assert_eq!(words(&either), words(&BitGrid::from_view(&Or::new(&a, &b))));
}
