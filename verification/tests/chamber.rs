use advent::chamber::{Control, Field, Game, Piece, Stopped};
use advent::chamber::{count_ones, read_jets};

fn jets(s: &str) -> Vec<isize> {
    s.chars().map(|c| if c == '<' { -1 } else { 1 }).collect()
}

fn sample() -> Game {
    Game {
        field: Field::default(),
        control: Control {
            dirs: jets(">>><<><>><<<>><>>><<<>>><<<><<<>><>><<>>"),
            current: 0,
        },
        piece_count: 0,
        pieces: Piece::default_pieces(),
    }
}

#[test]
fn jets_come_round_again() {
    let mut c = Control {
        dirs: vec![1, -1, -1],
        current: 0,
    };
    assert_eq!(c.next(), 1);
    assert_eq!(c.next(), -1);
    assert_eq!(c.next(), -1);
    assert_eq!(c.current, 0);
    assert_eq!(c.next(), 1);
}

#[test]
fn first_rock_rests_on_the_floor() {
    let mut g = sample();
    assert!(g.ready());
    g.add_piece();
    assert_eq!(g.field.rows, vec![0b0011110]);
    assert_eq!(g.control.current, 4);
    assert_eq!(g.piece_count, 1);
}

#[test]
fn second_rock_rests_on_the_first() {
    let mut g = sample();
    assert_eq!(g.add_pieces(2), 2);
    assert_eq!(g.field.rows, vec![0b0011110, 0b0001000, 0b0011100, 0b0001000]);
    assert_eq!(g.height(), 4);
}

#[test]
fn ten_rocks() {
    let mut g = sample();
    assert_eq!(g.add_pieces(10), 10);
    assert_eq!(g.height(), 17);
    assert_eq!(
        g.field.rows,
        vec![
            0b0011110, 0b0001000, 0b0011100, 0b1111100, 0b0010100, 0b0010100, 0b0000100,
            0b0000110, 0b0000110, 0b0111100, 0b0010000, 0b0111000, 0b1111110, 0b1100110,
            0b0000110, 0b0000100, 0b0000100,
        ]
    );
}

#[test]
fn tower_after_many_rocks() {
    let mut g = sample();
    assert_eq!(g.add_pieces(2022), 2022);
    assert_eq!(g.height(), 3068);
}

#[test]
fn rock_at_the_wall_collides() {
    let bar = Piece {
        lines: vec![0b1111000],
    };
    let field = Field::default();
    assert!(!bar.collides_with_field(&field, (0, 0)));
    assert!(!bar.collides_with_field(&field, (3, 0)));
    assert!(bar.collides_with_field(&field, (4, 0)));
    assert!(bar.collides_with_field(&field, (-1, 0)));
    assert!(bar.collides_with_field(&field, (64, 0)));
    assert!(bar.collides_with_field(&field, (0, -1)));
}

#[test]
fn rock_on_rock_collides() {
    let block = Piece {
        lines: vec![0b1100000, 0b1100000],
    };
    let field = Field {
        trimmed: 0,
        rows: vec![0b0100000],
    };
    assert!(block.collides_with_field(&field, (0, 1)));
    assert!(!block.collides_with_field(&field, (0, 2)));
    assert!(!block.collides_with_field(&field, (2, 1)));
}

#[test]
fn placing_raises_the_chamber() {
    let cross = Piece {
        lines: vec![0b0100000, 0b1110000, 0b0100000],
    };
    let mut field = Field {
        trimmed: 0,
        rows: vec![0b0000001],
    };
    cross.place_on_field(&mut field, (1, 4));
    assert_eq!(field.rows, vec![0b0000001, 0, 0b0010000, 0b0111000, 0b0010000]);
    assert_eq!(field.trimmed, 0);
}

#[test]
fn trim_cuts_below_the_highest_full_row() {
    let mut field = Field {
        trimmed: 3,
        rows: vec![1, 0b1111111, 2, 0b1111111, 4, 5],
    };
    field.trim();
    assert_eq!(field.rows, vec![0b1111111, 4, 5]);
    assert_eq!(field.trimmed, 6);
}

#[test]
fn trim_leaves_a_low_chamber() {
    let mut field = Field {
        trimmed: 0,
        rows: vec![1, 0b1111111, 2, 3],
    };
    field.trim();
    assert_eq!(field.rows, vec![1, 0b1111111, 2, 3]);
    assert_eq!(field.trimmed, 0);
    let mut other = Field {
        trimmed: 0,
        rows: vec![1, 2, 3, 4, 5],
    };
    other.trim();
    assert_eq!(other.rows, vec![1, 2, 3, 4, 5]);
}

#[test]
fn game_with_too_few_rocks_is_not_ready() {
    let mut g = sample();
    g.pieces.pop();
    assert!(!g.ready());
    let mut h = sample();
    h.control.current = 1000;
    assert!(!h.ready());
}

fn mixed() -> Game {
    Game {
        field: Field::default(),
        control: Control {
            dirs: vec![-1, 1, 1, 1, 1, 1, -1, 1, -1],
            current: 0,
        },
        piece_count: 0,
        pieces: vec![
            Piece {
                lines: vec![0b1111000],
            },
            Piece {
                lines: vec![0b1110000],
            },
            Piece {
                lines: vec![0b1100000, 0b1100000],
            },
            Piece {
                lines: vec![0b1000000, 0b1000000, 0b1000000, 0b1000000],
            },
            Piece {
                lines: vec![0b1111000],
            },
        ],
    }
}

#[test]
fn bulk_fall_of_very_many_rocks() {
    let mut g = mixed();
    let played = g.add_pieces_bulk(1_000_000_000_000, 200);
    assert_eq!(played, Ok(200_000_000_000));
    assert_eq!(g.piece_count, 1_000_000_000_000);
    assert_eq!(g.height(), 1_300_000_000_002);
    assert_eq!(g.field.rows, vec![127, 19, 19, 16, 16, 30]);
    assert_eq!(g.control.current, 7);
}

#[test]
fn bulk_fall_agrees_with_single_rocks() {
    let expected = [(239usize, 313usize, 46usize), (1000, 1302, 200), (2022, 2630, 404)];
    for (num, height, rounds) in expected {
        let mut g = mixed();
        let mut h = mixed();
        assert_eq!(g.add_pieces(num), num);
        assert_eq!(g.height(), height);
        assert_eq!(h.add_pieces_bulk(num, 1000), Ok(rounds));
        assert_eq!(h.piece_count, num);
        assert_eq!(h.height(), height);
        assert_eq!(h.control.current, g.control.current);
    }
}

#[test]
fn bulk_fall_gives_up_at_the_limit() {
    let mut g = sample();
    assert_eq!(g.add_pieces_bulk(1_000_000, 20), Err(Stopped::Limit));
    assert_eq!(g.piece_count, 100);
    let mut h = sample();
    assert_eq!(h.add_pieces_bulk(1_000_000, 0), Err(Stopped::Limit));
    assert_eq!(h.piece_count, 0);
    assert!(h.field.rows.is_empty());
}

#[test]
fn bulk_fall_past_the_number_asked_for() {
    // The chamber comes again after the tenth round, when fifty rocks
    // have fallen.
    let mut g = mixed();
    assert_eq!(g.add_pieces_bulk(38, 100), Err(Stopped::Passed));
    assert_eq!(g.piece_count, 50);
}

#[test]
fn bulk_fall_with_a_height_that_cannot_be_counted() {
    let mut g = mixed();
    g.field.trimmed = usize::MAX - 3;
    assert_eq!(g.add_pieces_bulk(1_000, 100), Err(Stopped::TooLarge));
}

#[test]
fn picture_of_the_chamber() {
    let mut g = sample();
    assert_eq!(g.show(), "Field 0 0\n");
    assert_eq!(g.add_pieces(2), 2);
    assert_eq!(
        g.show(),
        "Field 4 8\n#...*...#\n#..***..#\n#...*...#\n#..****.#\n"
    );
}

#[test]
fn jets_of_a_line() {
    let line: Vec<char> = "<>><x".chars().collect();
    assert_eq!(read_jets(&line), vec![-1, 1, 1, -1, 1]);
    assert!(read_jets(&vec![]).is_empty());
}

#[test]
fn ones_of_a_word() {
    assert_eq!(count_ones(0), 0);
    assert_eq!(count_ones(1), 1);
    assert_eq!(count_ones(0b1111000), 4);
    assert_eq!(count_ones(0b0100000), 1);
    assert_eq!(count_ones(u64::MAX), 64);
    assert_eq!(count_ones(1 << 63), 1);
    for x in [0u64, 5, 77, 1023, 0xdead_beef, u64::MAX - 1] {
        assert_eq!(count_ones(x), x.count_ones());
    }
}
