use advent::monkey::{Item, Monkey, MonkeyOp, MonkeyTroop};
use advent::monkey::{read_list, read_op, read_troop};

fn sample(divisor: usize) -> MonkeyTroop {
    let monkeys = vec![
        Monkey { inspected_count: 0, num: 0, op: MonkeyOp::Multiply(19), route: [23, 2, 3] },
        Monkey { inspected_count: 0, num: 1, op: MonkeyOp::Add(6), route: [19, 2, 0] },
        Monkey { inspected_count: 0, num: 2, op: MonkeyOp::Square, route: [13, 1, 3] },
        Monkey { inspected_count: 0, num: 3, op: MonkeyOp::Add(3), route: [17, 0, 1] },
    ];
    let mut items = vec![];
    for (owner, worries) in [vec![79, 98], vec![54, 65, 75, 74], vec![79, 60, 97], vec![74]].iter().enumerate() {
        for w in worries {
            items.push(Item { owner, worry: *w });
        }
    }
    MonkeyTroop { divisor, co_prime: 23 * 19 * 13 * 17, items, monkeys }
}

fn held_by(troop: &MonkeyTroop, owner: usize) -> Vec<usize> {
    troop.items.iter().filter(|i| i.owner == owner).map(|i| i.worry).collect()
}

#[test]
fn monkeys_of_the_sample_with_relief() {
    let mut troop = sample(3);
    assert!(troop.run());
    let mut a = held_by(&troop, 0);
    a.sort();
    assert_eq!(a, vec![20, 23, 26, 27]);
    let mut b = held_by(&troop, 1);
    b.sort();
    assert_eq!(b, vec![25, 167, 207, 401, 1046, 2080]);
    assert_eq!(held_by(&troop, 2), vec![]);
    assert_eq!(held_by(&troop, 3), vec![]);
    for _ in 1..20 {
        assert!(troop.run());
    }
    let counts: Vec<usize> = troop.monkeys.iter().map(|m| m.inspected_count).collect();
    assert_eq!(counts, vec![101, 95, 7, 105]);
    assert_eq!(troop.monkey_business(), Some(10605));
}

#[test]
fn monkeys_of_the_sample_without_relief() {
    let mut troop = sample(1);
    for _ in 0..1000 {
        assert!(troop.run());
    }
    let counts: Vec<usize> = troop.monkeys.iter().map(|m| m.inspected_count).collect();
    assert_eq!(counts, vec![5204, 4792, 199, 5192]);
    assert_eq!(troop.monkey_business(), Some(5204 * 5192));
}

#[test]
fn monkey_handles_the_items_it_holds() {
    let mut m = Monkey { inspected_count: 5, num: 1, op: MonkeyOp::Add(2), route: [5, 7, 8] };
    let mut items = vec![Item { owner: 1, worry: 3 }, Item { owner: 0, worry: 3 }, Item { owner: 1, worry: 4 }];
    assert!(m.run(1, 0, &mut items));
    assert_eq!(m.inspected_count, 7);
    let got: Vec<(usize, usize)> = items.iter().map(|i| (i.owner, i.worry)).collect();
    assert_eq!(got, vec![(7, 5), (0, 3), (8, 6)]);
    let mut m = Monkey { inspected_count: 0, num: 0, op: MonkeyOp::Multiply(1_000_000), route: [4, 1, 2] };
    let mut items = vec![Item { owner: 0, worry: 3001 }];
    assert!(m.run(3, 1001, &mut items));
    assert_eq!((items[0].owner, items[0].worry), (1, 1000));
    assert_eq!(1_000_333_333 % 1001, 1000);
    let mut items = vec![Item { owner: 0, worry: 3000 }];
    assert!(m.run(3, 0, &mut items));
    assert_eq!((items[0].owner, items[0].worry), (1, 1_000_000_000));
}

#[test]
fn monkey_stops_where_it_cannot_go_on() {
    let mut m = Monkey { inspected_count: 0, num: 0, op: MonkeyOp::Square, route: [4, 1, 2] };
    assert!(!m.run(1, 7, &mut vec![Item { owner: 0, worry: usize::MAX }]));
    assert!(m.run(1, 7, &mut vec![Item { owner: 1, worry: usize::MAX }]));
    assert!(!m.run(0, 7, &mut vec![Item { owner: 0, worry: 1 }]));
    assert!(!m.run(1, 0, &mut vec![Item { owner: 0, worry: 1_000_000 }]));
    let mut zero = Monkey { inspected_count: 0, num: 0, op: MonkeyOp::Add(1), route: [0, 1, 2] };
    assert!(!zero.run(1, 7, &mut vec![Item { owner: 0, worry: 1 }]));
    assert!(zero.run(1, 7, &mut vec![]));
    let mut full = Monkey { inspected_count: usize::MAX, num: 0, op: MonkeyOp::Add(1), route: [3, 1, 2] };
    assert!(!full.run(1, 7, &mut vec![Item { owner: 0, worry: 1 }]));
    let mut troop = sample(0);
    assert!(!troop.run());
}

#[test]
fn monkey_business_takes_the_two_busiest() {
    let monkey = |n| Monkey { inspected_count: n, num: 0, op: MonkeyOp::Square, route: [1, 0, 0] };
    let troop = |counts: &[usize]| MonkeyTroop {
        divisor: 1,
        co_prime: 1,
        items: vec![],
        monkeys: counts.iter().map(|c| monkey(*c)).collect(),
    };
    assert_eq!(troop(&[]).monkey_business(), None);
    assert_eq!(troop(&[5]).monkey_business(), None);
    assert_eq!(troop(&[5, 3]).monkey_business(), Some(15));
    assert_eq!(troop(&[3, 5]).monkey_business(), Some(15));
    assert_eq!(troop(&[9, 9, 1]).monkey_business(), Some(81));
    assert_eq!(troop(&[1, 9, 4, 9, 2]).monkey_business(), Some(81));
    assert_eq!(troop(&[1, 2, 3, 4]).monkey_business(), Some(12));
    assert_eq!(troop(&[usize::MAX, 2]).monkey_business(), None);
    assert_eq!(troop(&[usize::MAX, 1, 0]).monkey_business(), Some(usize::MAX));
}

const TROOP: [&str; 14] = [
    "Monkey 0:",
    "  Starting items: 79, 98",
    "  Operation: new = old * 19",
    "  Test: divisible by 23",
    "    If true: throw to monkey 2",
    "    If false: throw to monkey 3",
    "",
    "Monkey 1:",
    "  Starting items: 54",
    "  Operation: new = old + 6",
    "  Test: divisible by 19",
    "    If true: throw to monkey 2",
    "    If false: throw to monkey 0",
    "",
];

fn text_lines(v: &[&str]) -> Vec<Vec<char>> {
    v.iter().map(|l| l.chars().collect()).collect()
}

#[test]
fn troop_of_lines() {
    let troop = read_troop(&text_lines(&TROOP), 3).unwrap();
    assert_eq!(troop.divisor, 3);
    assert_eq!(troop.co_prime, 23 * 19);
    assert_eq!(troop.monkeys.len(), 2);
    assert_eq!(troop.monkeys[0].route, [23, 2, 3]);
    assert_eq!(troop.monkeys[1].route, [19, 2, 0]);
    assert_eq!(troop.monkeys[0].num, 0);
    assert_eq!(troop.monkeys[1].num, 1);
    assert_eq!(troop.monkeys[1].inspected_count, 0);
    assert!(matches!(troop.monkeys[0].op, MonkeyOp::Multiply(19)));
    assert!(matches!(troop.monkeys[1].op, MonkeyOp::Add(6)));
    let items: Vec<(usize, usize)> = troop.items.iter().map(|i| (i.owner, i.worry)).collect();
    assert_eq!(items, vec![(0, 79), (0, 98), (1, 54)]);
}

#[test]
fn lines_that_write_no_troop() {
    assert!(read_troop(&text_lines(&TROOP[0..13]), 1).is_some());
    assert!(read_troop(&text_lines(&TROOP[0..12]), 1).is_none());
    assert!(read_troop(&text_lines(&[]), 1).unwrap().monkeys.is_empty());
    let mut bad = TROOP.to_vec();
    bad[8] = "  Starting items: ";
    assert!(read_troop(&text_lines(&bad), 1).is_none());
    bad[8] = "  Starting items: 5,6";
    assert!(read_troop(&text_lines(&bad), 1).is_none());
    bad[8] = "  Starting items: 5, 6";
    bad[10] = "  Test: divisible by x";
    assert!(read_troop(&text_lines(&bad), 1).is_none());
    bad[10] = "short";
    assert!(read_troop(&text_lines(&bad), 1).is_none());
}

#[test]
fn list_and_operation_of_a_line() {
    let chars = |s: &str| -> Vec<char> { s.chars().collect() };
    assert_eq!(read_list(&chars("79, 98, 7")), Some(vec![79, 98, 7]));
    assert_eq!(read_list(&chars("5")), Some(vec![5]));
    assert_eq!(read_list(&chars("")), None);
    assert_eq!(read_list(&chars("5, ")), None);
    assert_eq!(read_list(&chars("5,")), None);
    assert!(matches!(read_op(&chars("  Operation: new = old * old")), Some(MonkeyOp::Square)));
    assert!(matches!(read_op(&chars("  Operation: new = old + 3")), Some(MonkeyOp::Add(3))));
    assert!(matches!(read_op(&chars("  Operation: new = old * 7")), Some(MonkeyOp::Multiply(7))));
    assert!(matches!(read_op(&chars("  Operation: new = old - 7")), Some(MonkeyOp::Multiply(7))));
    assert!(matches!(read_op(&chars("  Operation: new = old * x")), None));
    assert!(matches!(read_op(&chars("  Operation:")), None));
}
