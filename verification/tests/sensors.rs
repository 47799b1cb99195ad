use advent::pattern::Pattern;
use advent::range::{count_lines, count_lines_with, pair_from_groups, read_pair, PAIR_PATTERN};
use advent::sensor::{
    check_square, is_free, merge_ranges, part_1, part_2, probe, read_sensor, read_sensors,
    sensor_from_groups, sort_by_start, Sensor, SENSOR_PATTERN,
};
use advent::text::{chars_of, push_chars, push_decimal, read_decimal, read_signed, read_u32};

fn sample() -> Vec<Sensor> {
    let raw = [
        (2, 18, -2, 15),
        (9, 16, 10, 16),
        (13, 2, 15, 3),
        (12, 14, 10, 16),
        (10, 20, 10, 16),
        (14, 17, 10, 16),
        (8, 7, 2, 10),
        (2, 0, 2, 10),
        (0, 11, 2, 10),
        (20, 14, 25, 17),
        (17, 20, 21, 22),
        (16, 7, 15, 3),
        (14, 3, 15, 3),
        (20, 1, 15, 3),
    ];
    raw.iter().map(|(x, y, bx, by)| Sensor { pos: (*x, *y), beacon: (*bx, *by) }).collect()
}

#[test]
fn sensor_exclusion_line() {
    let s = Sensor { pos: (8, 7), beacon: (2, 10) };
    assert_eq!(s.exclusion_line(10), Some((2, 14)));
    assert_eq!(s.exclusion_line(7), Some((-1, 17)));
    assert_eq!(s.exclusion_line(16), Some((8, 8)));
    assert_eq!(s.exclusion_line(-2), Some((8, 8)));
    assert_eq!(s.exclusion_line(17), None);
    assert_eq!(s.exclusion_line(-3), None);
}

#[test]
fn sensor_intercepts_and_reach() {
    let s = Sensor { pos: (8, 7), beacon: (2, 10) };
    assert_eq!(s.y_intercepts(), ((24, 6), (8, -10)));
    assert!(s.excludes_pos((2, 10)));
    assert!(s.excludes_pos((8, 16)));
    assert!(s.excludes_pos((17, 7)));
    assert!(!s.excludes_pos((8, 17)));
    assert!(s.excludes_pos((3, 11)));
    assert!(!s.excludes_pos((3, 12)));
    let here = Sensor { pos: (1, 1), beacon: (1, 1) };
    assert!(here.excludes_pos((1, 1)));
    assert!(!here.excludes_pos((1, 2)));
    assert_eq!(here.y_intercepts(), ((2, 2), (0, 0)));
}

#[test]
fn ranges_sort_by_start() {
    assert_eq!(sort_by_start(&[(5, 1), (3, 9), (5, 0), (-2, 2), (3, 1)]), vec![
        (-2, 2),
        (3, 9),
        (3, 1),
        (5, 1),
        (5, 0)
    ]);
    assert_eq!(sort_by_start(&[]), vec![]);
}

#[test]
fn ranges_merge() {
    assert_eq!(merge_ranges(&[]), vec![]);
    assert_eq!(merge_ranges(&[(1, 2)]), vec![(1, 2)]);
    assert_eq!(merge_ranges(&[(5, 8), (1, 2)]), vec![(1, 2), (5, 8)]);
    assert_eq!(merge_ranges(&[(1, 2), (2, 3)]), vec![(1, 3)]);
    assert_eq!(merge_ranges(&[(1, 2), (3, 4)]), vec![(1, 2), (3, 4)]);
    assert_eq!(merge_ranges(&[(1, 10), (2, 3), (4, 5)]), vec![(1, 10)]);
    assert_eq!(merge_ranges(&[(4, 9), (1, 5), (20, 30), (8, 12), (30, 31)]), vec![(1, 12), (20, 31)]);
    assert_eq!(merge_ranges(&[(0, 0), (0, 0)]), vec![(0, 0)]);
    assert_eq!(merge_ranges(&[(5, 3), (5, 9)]), vec![(5, 3), (5, 9)]);
    assert_eq!(merge_ranges(&[(-5, -3), (-4, 7)]), vec![(-5, 7)]);
}

#[test]
fn sensors_of_the_sample() {
    let sensors = sample();
    let mut exclusions = vec![];
    for s in &sensors {
        if let Some(e) = s.exclusion_line(10) {
            exclusions.push(e);
        }
    }
    assert_eq!(merge_ranges(&exclusions), vec![(-2, 24)]);
    assert!(is_free(&sensors, (14, 11)));
    assert!(!is_free(&sensors, (14, 12)));
    assert_eq!(check_square(&sensors, ((0, 0), (20, 20))), Some((14, 11)));
    assert_eq!(check_square(&sensors, ((0, 0), (13, 20))), None);
    assert_eq!(check_square(&sensors, ((14, 11), (14, 11))), Some((14, 11)));
    assert_eq!(check_square(&sensors, ((14, 12), (14, 12))), None);
    assert_eq!(part_2(&sensors), reference_part_2(&sensors));
    let found = part_2(&sensors).unwrap();
    let (x, y) = (found / 4_000_000, found % 4_000_000);
    assert!(0 <= x && x <= 4_000_000 && 0 <= y && y <= 4_000_000);
    assert!(is_free(&sensors, (x, y)));
    assert_eq!(part_1(&sensors), 0);
}

fn reference_part_2(sensors: &[Sensor]) -> Option<isize> {
    let mut downs = vec![];
    let mut ups = vec![];
    for s in sensors {
        let ((d1, d2), (u1, u2)) = s.y_intercepts();
        ups.push(u1);
        ups.push(u2);
        downs.push(d1);
        downs.push(d2);
    }
    for u in &ups {
        for d in &downs {
            let x = (d - u) / 2;
            let y = (d + u) / 2;
            for chx in x - 1..=x + 1 {
                for chy in y - 1..=y + 1 {
                    if chx >= 0 && chx <= 4_000_000 && chy >= 0 && chy <= 4_000_000 {
                        if !sensors.iter().any(|s| s.excludes_pos((chx, chy))) {
                            return Some(chx * 4_000_000 + chy);
                        }
                    }
                }
            }
        }
    }
    None
}

#[test]
fn sensor_part_1_sums_merged_lengths() {
    let sensors = vec![
        Sensor { pos: (0, 2_000_000), beacon: (10, 2_000_000) },
        Sensor { pos: (15, 2_000_000), beacon: (15, 2_000_007) },
        Sensor { pos: (100, 2_000_003), beacon: (100, 2_000_008) },
        Sensor { pos: (0, 0), beacon: (1, 1) },
    ];
    assert_eq!(part_1(&sensors), 32 + 4);
    assert_eq!(part_1(&[]), 0);
}

#[test]
fn sensor_probe_and_search() {
    let sensors = vec![Sensor { pos: (0, 0), beacon: (3, 0) }];
    assert_eq!(probe(&sensors, 3, 3), Some(4));
    assert_eq!(probe(&sensors, 0, 0), None);
    assert_eq!(probe(&sensors, -1, 7), Some(3 * 4_000_000 + 2));
    assert_eq!(probe(&sensors, 3, 5), Some(4));
    assert_eq!(probe(&sensors, -3, -3), None);
    assert_eq!(part_2(&sensors), Some(4));
    assert_eq!(part_2(&[]), None);
    let everything = vec![Sensor { pos: (2_000_000, 2_000_000), beacon: (2_000_000, 12_000_000) }];
    assert_eq!(part_2(&everything), None);
}

#[test]
fn pattern_finds_groups() {
    let p = Pattern::new(r"^(\w+)=(\d+)?;$").unwrap();
    assert_eq!(
        p.captures("ab=12;"),
        Some(vec![Some("ab=12;".to_string()), Some("ab".to_string()), Some("12".to_string())])
    );
    assert_eq!(p.captures("ab=;"), Some(vec![Some("ab=;".to_string()), Some("ab".to_string()), None]));
    assert_eq!(p.captures("ab=12"), None);
    assert!(Pattern::new("(").is_err());
}

#[test]
fn pair_lines_are_read() {
    let p = Pattern::new(PAIR_PATTERN).unwrap();
    let pair = read_pair(&p, "2-4,6-8").unwrap();
    assert_eq!((pair.0.from, pair.0.to, pair.1.from, pair.1.to), (2, 4, 6, 8));
    let pair = read_pair(&p, "0-4294967295,007-8").unwrap();
    assert_eq!((pair.0.from, pair.0.to, pair.1.from, pair.1.to), (0, 4294967295, 7, 8));
    assert!(read_pair(&p, "2-4,6-8 ").is_none());
    assert!(read_pair(&p, "2-4,6").is_none());
    assert!(read_pair(&p, "").is_none());
    assert!(read_pair(&p, "0-4294967296,7-8").is_none());
    assert!(read_pair(&p, "-2-4,6-8").is_none());
    assert!(read_pair(&p, "٣-4,6-8").is_none());
    assert!(pair_from_groups(None).is_none());
    assert!(pair_from_groups(Some(vec![])).is_none());
    assert!(pair_from_groups(Some(vec![None, Some("1".to_string())])).is_none());
    let groups = vec![None, Some("1".to_string()), Some("2".to_string()), Some("3".to_string()), Some("4".to_string())];
    let pair = pair_from_groups(Some(groups)).unwrap();
    assert_eq!((pair.0.from, pair.0.to, pair.1.from, pair.1.to), (1, 2, 3, 4));
}

#[test]
fn pair_lines_are_counted() {
    let lines: Vec<String> =
        ["2-4,6-8", "2-3,4-5", "5-7,7-9", "2-8,3-7", "6-6,4-6", "2-6,4-8"].iter().map(|l| l.to_string()).collect();
    assert_eq!(count_lines(&lines), Some((2, 4)));
    let p = Pattern::new(PAIR_PATTERN).unwrap();
    assert_eq!(count_lines_with(&p, &lines), Some((2, 4)));
    assert_eq!(count_lines(&vec![]), Some((0, 0)));
    assert_eq!(count_lines(&vec!["2-4,6-8".to_string(), "".to_string()]), None);
}

#[test]
fn sensor_lines_are_read() {
    let p = Pattern::new(SENSOR_PATTERN).unwrap();
    let s = read_sensor(&p, "Sensor at x=2, y=18: closest beacon is at x=-2, y=15").unwrap();
    assert_eq!((s.pos, s.beacon), ((2, 18), (-2, 15)));
    let s = read_sensor(&p, "Sensor at x=-67108863, y=67108863: closest beacon is at x=0, y=-0").unwrap();
    assert_eq!((s.pos, s.beacon), ((-67108863, 67108863), (0, 0)));
    assert!(read_sensor(&p, "Sensor at x=67108864, y=1: closest beacon is at x=0, y=0").is_none());
    assert!(read_sensor(&p, "Sensor at x=2, y=18: closest beacon is at x=-2, y=15.").is_none());
    assert!(read_sensor(&p, "sensor at x=2, y=18: closest beacon is at x=-2, y=15").is_none());
    assert!(read_sensor(&p, "").is_none());
    assert!(sensor_from_groups(None).is_none());
    assert!(sensor_from_groups(Some(vec![Some("x".to_string())])).is_none());
    let lines = vec![
        "Sensor at x=2, y=18: closest beacon is at x=-2, y=15".to_string(),
        "Sensor at x=9, y=16: closest beacon is at x=10, y=16".to_string(),
    ];
    let sensors = read_sensors(&p, &lines).unwrap();
    assert_eq!(sensors.len(), 2);
    assert_eq!(sensors[1].pos, (9, 16));
    assert_eq!(sensors[1].beacon, (10, 16));
    assert!(read_sensors(&p, &vec!["Sensor".to_string()]).is_none());
    assert_eq!(read_sensors(&p, &vec![]).unwrap().len(), 0);
}

#[test]
fn text_reads_numbers() {
    assert_eq!(read_u32("0"), Some(0));
    assert_eq!(read_u32("0012"), Some(12));
    assert_eq!(read_u32("4294967295"), Some(4294967295));
    assert_eq!(read_u32("4294967296"), None);
    assert_eq!(read_u32("99999999999999999999999"), None);
    assert_eq!(read_u32(""), None);
    assert_eq!(read_u32("+5"), None);
    assert_eq!(read_u32("-5"), None);
    assert_eq!(read_u32("5 "), None);
    assert_eq!(read_u32("1a"), None);
    assert_eq!(read_signed("-12", 100), Some(-12));
    assert_eq!(read_signed("12", 100), Some(12));
    assert_eq!(read_signed("100", 100), Some(100));
    assert_eq!(read_signed("-100", 100), Some(-100));
    assert_eq!(read_signed("101", 100), None);
    assert_eq!(read_signed("-101", 100), None);
    assert_eq!(read_signed("-", 100), None);
    assert_eq!(read_signed("--1", 100), None);
    assert_eq!(read_signed("", 100), None);
    assert_eq!(read_signed("-0", 100), Some(0));
    let chars: Vec<char> = "ab123".chars().collect();
    assert_eq!(read_decimal(&chars, 2, 1000), Some(123));
    assert_eq!(read_decimal(&chars, 2, 122), None);
    assert_eq!(read_decimal(&chars, 1, 1000), None);
    assert_eq!(read_decimal(&chars, 5, 1000), None);
    assert_eq!(read_decimal(&chars, 4, 1000), Some(3));
}

#[test]
fn text_writes_numbers() {
    let mut s = "n=".to_string();
    push_decimal(&mut s, 0, 0);
    assert_eq!(s, "n=0");
    push_decimal(&mut s, 42, 4);
    assert_eq!(s, "n=00042");
    push_decimal(&mut s, 12345, 4);
    assert_eq!(s, "n=0004212345");
    let mut s = String::new();
    push_decimal(&mut s, usize::MAX, 1);
    assert_eq!(s, usize::MAX.to_string());
    let mut s = "a".to_string();
    push_chars(&mut s, &vec!['b', 'ç']);
    assert_eq!(s, "abç");
    assert_eq!(chars_of("añb"), vec!['a', 'ñ', 'b']);
    assert_eq!(chars_of(""), Vec::<char>::new());
}
