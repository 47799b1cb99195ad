use advent::calories::{find_max, group_totals, top_three};
use advent::machine::{read_line, read_program, run_program, Machine};
use advent::signal::{check, find_marker, find_starts};
use advent::text::{find_char, read_int, read_plus_u32, same_text};

fn chars(s: &str) -> Vec<char> {
    s.chars().collect()
}

fn lines(s: &str) -> Vec<Vec<char>> {
    s.lines().map(|l| l.trim().chars().collect()).collect()
}

#[test]
fn signal_markers_of_the_samples() {
    assert_eq!(find_marker(&chars("mjqjpqmgbljsphdztnvjfqwrcgsmlb"), 4), Some(7));
    assert_eq!(find_marker(&chars("bvwbjplbgvbhsrlpgdmjqwftvncz"), 4), Some(5));
    assert_eq!(find_marker(&chars("nppdvjthqldpwncqszvftbrmjlhg"), 4), Some(6));
    assert_eq!(find_marker(&chars("zcfzfwzzqfrljwzlrfnpqdbhtmscgvjw"), 4), Some(11));
    assert_eq!(find_marker(&chars("mjqjpqmgbljsphdztnvjfqwrcgsmlb"), 14), Some(19));
    assert_eq!(find_marker(&chars("nznrnfrfntjfmvfwmzdfjlvtqnbhcprsg"), 14), Some(29));
    assert_eq!(find_starts(&chars("mjqjpqmgbljsphdztnvjfqwrcgsmlb")), Some((7, 19)));
}

#[test]
fn signal_without_marker() {
    assert_eq!(find_marker(&chars("aaaaaaa"), 4), None);
    assert_eq!(find_marker(&chars("abc"), 4), None);
    assert_eq!(find_marker(&chars("abcd"), 4), Some(4));
    assert_eq!(find_marker(&chars(""), 4), None);
    assert_eq!(find_marker(&chars(""), 0), None);
    assert_eq!(find_marker(&chars("aa"), 0), Some(0));
    assert_eq!(find_marker(&chars("aa"), 1), Some(1));
    assert_eq!(find_marker(&chars("aab"), 2), Some(3));
    assert_eq!(find_starts(&chars("abcdabcdabcd")), None);
    assert_eq!(find_starts(&chars("aaaa")), None);
    assert!(check(&chars("abca"), 0, 3));
    assert!(!check(&chars("abca"), 0, 4));
    assert!(check(&chars("abca"), 1, 3));
    assert!(check(&chars("aa"), 1, 1));
    assert!(check(&chars("aa"), 2, 0));
}

#[test]
fn machine_ticks() {
    let mut m = Machine::new(vec![0, 0, 3, 0, -5]);
    assert!(m.ready());
    m.advance();
    assert_eq!((m.reg, m.pointer, m.cycle_number), (1, 1, 2));
    m.advance();
    m.advance();
    assert_eq!((m.reg, m.pointer, m.cycle_number), (4, 3, 4));
    assert_eq!(m.pixels[1], true);
    assert_eq!(m.pixels[2], true);
    assert_eq!(m.pixels[3], true);
    assert_eq!(m.pixels[0], false);
    m.advance();
    assert_eq!(m.pixels[4], true);
    m.advance();
    assert_eq!((m.reg, m.pointer, m.cycle_number), (-1, 5, 6));
    assert_eq!(m.pixels[5], true);
    assert!(!m.ready());
    let mut m = Machine::new(vec![0, 0, 3, 0, -5]);
    assert_eq!(m.bulk_advance(0), Some(0));
    assert_eq!(m.bulk_advance(3), Some(3));
    assert_eq!(m.bulk_advance(2), Some(20));
    assert_eq!(m.bulk_advance(1), None);
    let mut m = Machine::new(vec![isize::MAX]);
    assert!(!m.ready());
    assert_eq!(m.bulk_advance(1), None);
    let mut m = Machine::new(vec![isize::MAX - 1, 0, 0]);
    assert_eq!(m.bulk_advance(1), Some(1));
    assert_eq!(m.bulk_advance(1), None);
    assert_eq!(m.cycle_number, 2);
}

#[test]
fn machine_program_is_read() {
    assert_eq!(read_line(&chars("noop")), Some(vec![0]));
    assert_eq!(read_line(&chars("addx 3")), Some(vec![0, 3]));
    assert_eq!(read_line(&chars("addx -5")), Some(vec![0, -5]));
    assert_eq!(read_line(&chars("anything +7")), Some(vec![0, 7]));
    assert_eq!(read_line(&chars("addx")), None);
    assert_eq!(read_line(&chars("addx ")), None);
    assert_eq!(read_line(&chars("addx 3 ")), None);
    assert_eq!(read_line(&chars("noop ")), None);
    assert_eq!(read_line(&chars(" 4")), Some(vec![0, 4]));
    assert_eq!(read_program(&lines("noop\naddx 3\n\naddx -5\n")), Some(vec![0, 0, 3, 0, -5]));
    assert_eq!(read_program(&lines("")), Some(vec![]));
    assert_eq!(read_program(&lines("noop\naddx x\nnoop")), None);
}

#[test]
fn machine_runs_a_program() {
    let mut program = vec![];
    for k in 0..120 {
        program.push(0);
        program.push(if k % 2 == 0 { 2 } else { -1 });
    }
    let (sum, screen) = run_program(program.clone()).unwrap();
    let mut reg = 1isize;
    let mut expected = 0;
    let mut lit = vec![false; 240];
    for cycle in 1..=240usize {
        if [20, 60, 100, 140, 180, 220].contains(&cycle) {
            expected += reg * cycle as isize;
        }
        let column = ((cycle - 1) % 40) as isize;
        if (column - reg).abs() <= 1 {
            if cycle < 240 {
                lit[cycle] = true;
            }
        }
        reg += program[cycle - 1];
    }
    assert_eq!(sum, expected);
    assert_eq!(screen, lit);
    assert_eq!(run_program(vec![0; 239]), None);
    assert!(run_program(vec![0; 240]).is_some());
    // With nothing added the register stays at one: the strengths are the
    // numbers of the cycles, and the sprite is drawn at the left edge.
    let (still, dark) = run_program(vec![0; 300]).unwrap();
    assert_eq!(still, 20 + 60 + 100 + 140 + 180 + 220);
    assert_eq!(dark.iter().filter(|p| **p).count(), 3 * 6);
    // A register that cannot hold its value stops the machine.
    assert_eq!(run_program(vec![isize::MAX; 240]), None);
    // So does a strength that cannot be counted.
    let mut large = vec![0; 240];
    large[0] = isize::MAX / 2;
    assert_eq!(run_program(large), None);
}

#[test]
fn calories_of_the_sample() {
    let input = lines("1000\n2000\n3000\n\n4000\n\n5000\n6000\n\n7000\n8000\n9000\n\n10000");
    let totals = group_totals(&input).unwrap();
    assert_eq!(totals, vec![6000, 4000, 11000, 24000, 10000]);
    assert_eq!(top_three(&totals), Some((24000, 45000)));
    assert_eq!(find_max(&totals), 3);
}

#[test]
fn calories_edge_cases() {
    assert_eq!(group_totals(&lines("")), Some(vec![0]));
    assert_eq!(group_totals(&lines("5")), Some(vec![5]));
    assert_eq!(group_totals(&lines("5\nx\n\n+7\n1")), Some(vec![5, 0, 8]));
    assert_eq!(group_totals(&lines("4294967295\n1")), None);
    assert_eq!(group_totals(&lines("4294967295\n\n1")), Some(vec![4294967295, 1]));
    assert_eq!(group_totals(&lines("4294967296\n1")), Some(vec![0, 1]));
    assert_eq!(top_three(&vec![7]), Some((7, 7)));
    assert_eq!(top_three(&vec![7, 9]), Some((9, 16)));
    assert_eq!(top_three(&vec![1, 9, 9, 3, 9, 2]), Some((9, 27)));
    assert_eq!(top_three(&vec![4294967295, 1, 0, 0]), None);
    assert_eq!(top_three(&vec![4294967295, 0, 0, 0]), Some((4294967295, 4294967295)));
    assert_eq!(find_max(&vec![3, 9, 2, 9]), 1);
}

#[test]
fn text_finds_and_reads() {
    assert_eq!(find_char(&chars("a b c"), ' '), Some(1));
    assert_eq!(find_char(&chars("abc"), ' '), None);
    assert_eq!(find_char(&chars(""), ' '), None);
    assert!(same_text(&chars("ab"), &chars("ab")));
    assert!(!same_text(&chars("ab"), &chars("abc")));
    assert!(!same_text(&chars("ab"), &chars("ac")));
    assert!(same_text(&chars(""), &chars("")));
    assert_eq!(read_int(&chars("x-12"), 1), Some(-12));
    assert_eq!(read_int(&chars("+12"), 0), Some(12));
    assert_eq!(read_int(&chars("12"), 0), Some(12));
    assert_eq!(read_int(&chars("12"), 2), None);
    assert_eq!(read_int(&chars("-"), 0), None);
    assert_eq!(read_int(&chars("+-1"), 0), None);
    assert_eq!(read_int(&chars(&isize::MAX.to_string()), 0), Some(isize::MAX));
    assert_eq!(read_int(&chars(&isize::MIN.to_string()), 0), Some(isize::MIN));
    assert_eq!(read_int(&chars("9223372036854775808"), 0), None);
    assert_eq!(read_int(&chars("-9223372036854775809"), 0), None);
    assert_eq!(read_plus_u32(&chars("+42")), Some(42));
    assert_eq!(read_plus_u32(&chars("42")), Some(42));
    assert_eq!(read_plus_u32(&chars("-42")), None);
    assert_eq!(read_plus_u32(&chars("+")), None);
    assert_eq!(read_plus_u32(&chars("")), None);
}
