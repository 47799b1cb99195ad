use advent::riddle::{parse, simplify_equality, simplify_equality_loop, solve_equality, work_out, Machine, Op, Value};

fn chars(s: &str) -> Vec<char> {
    s.chars().collect()
}

fn machine(lines: &[&str]) -> Machine {
    let mut m = Machine { ops: vec![] };
    for l in lines {
        let (name, op) = parse(&chars(l)).unwrap();
        m.insert(name, op);
    }
    m
}

fn known(v: &Option<Value>) -> Option<isize> {
    match v {
        Some(Value::Known(i)) => Some(*i),
        _ => None,
    }
}

fn add() -> Op {
    Op::Add("aaaa".to_string(), "bbbb".to_string())
}

fn sub() -> Op {
    Op::Subtract("aaaa".to_string(), "bbbb".to_string())
}

fn mul() -> Op {
    Op::Multiply("aaaa".to_string(), "bbbb".to_string())
}

fn div() -> Op {
    Op::Divide("aaaa".to_string(), "bbbb".to_string())
}

fn part(op: Op, a: Value, b: Value) -> Value {
    Value::Partial(op, Box::new(a), Box::new(b))
}

fn step(unknown: Value, known: isize) -> Option<(bool, isize)> {
    match simplify_equality(unknown, Value::Known(known)) {
        Some((rest, Value::Known(i))) => Some((matches!(rest, Value::Unknown), i)),
        Some(_) => panic!("no number on the known side"),
        None => None,
    }
}

const SAMPLE: [&str; 15] = [
    "root: pppw + sjmn",
    "dbpl: 5",
    "cczh: sllz + lgvd",
    "zczc: 2",
    "ptdq: humn - dvpt",
    "dvpt: 3",
    "lfqf: 4",
    "humn: 5",
    "ljgn: 2",
    "sjmn: drzm * dbpl",
    "sllz: 4",
    "pppw: cczh / lfqf",
    "lgvd: ljgn * ptdq",
    "drzm: hmdt - zczc",
    "hmdt: 32",
];

#[test]
fn riddle_of_the_sample() {
    let mut m = machine(&SAMPLE);
    assert_eq!(known(&m.run(16)), Some(152));
    assert_eq!(known(&m.run(6)), Some(152));
    assert_eq!(known(&m.run(5)), None);
    assert_eq!(known(&m.execute_op(&"drzm".to_string(), 2)), Some(30));
    assert!(m.execute_op(&"drzm".to_string(), 1).is_none());
    assert!(m.execute_op(&"nope".to_string(), 9).is_none());
    m.insert("humn".to_string(), Op::UnknownConst);
    m.insert("root".to_string(), Op::Equal("pppw".to_string(), "sjmn".to_string()));
    let res = m.run(16).unwrap();
    match &res {
        Value::Partial(Op::Equal(a, b), left, right) => {
            assert_eq!((a.as_str(), b.as_str()), ("pppw", "sjmn"));
            assert!(matches!(**left, Value::Partial(Op::Divide(_, _), _, _)));
            assert!(matches!(**right, Value::Known(150)));
        }
        _ => panic!("no equation"),
    }
    assert_eq!(solve_equality(res), Some(600));
}

#[test]
fn riddle_lines_are_read() {
    let (name, op) = parse(&chars("abcd: -42")).unwrap();
    assert_eq!(name, "abcd");
    assert!(matches!(op, Op::KnownConst(-42)));
    let (_, op) = parse(&chars("abcd: +7")).unwrap();
    assert!(matches!(op, Op::KnownConst(7)));
    let (name, op) = parse(&chars("root: pppw + sjmn")).unwrap();
    assert_eq!(name, "root");
    match op {
        Op::Add(a, b) => assert_eq!((a.as_str(), b.as_str()), ("pppw", "sjmn")),
        _ => panic!("no sum"),
    }
    assert!(matches!(parse(&chars("root: pppw - sjmn")).unwrap().1, Op::Subtract(_, _)));
    assert!(matches!(parse(&chars("root: pppw * sjmn")).unwrap().1, Op::Multiply(_, _)));
    assert!(matches!(parse(&chars("root: pppw / sjmn")).unwrap().1, Op::Divide(_, _)));
    assert!(matches!(parse(&chars("root: pppw ? sjmn")).unwrap().1, Op::Divide(_, _)));
    match parse(&chars("rootXYpppw?+?sjmn and more")).unwrap().1 {
        Op::Add(a, b) => assert_eq!((a.as_str(), b.as_str()), ("pppw", "sjmn")),
        _ => panic!("no sum"),
    }
    assert!(parse(&chars("root: 12345")).is_none());
    assert!(parse(&chars("root: pppw + sjm")).is_none());
    assert!(parse(&chars("root: ")).is_none());
    assert!(parse(&chars("root:")).is_none());
    assert!(parse(&chars("root: 1x")).is_none());
    assert!(parse(&chars("")).is_none());
    assert!(matches!(parse(&chars("root: 1234")).unwrap().1, Op::KnownConst(1234)));
}

#[test]
fn riddle_later_monkeys_count() {
    let mut m = machine(&["aaaa: 1", "root: aaaa + aaaa", "aaaa: 5"]);
    assert_eq!(known(&m.run(3)), Some(10));
    assert_eq!(m.lookup(&"aaaa".to_string()), Some(2));
    assert_eq!(m.lookup(&"root".to_string()), Some(1));
    assert_eq!(m.lookup(&"zzzz".to_string()), None);
    m.insert("root".to_string(), Op::KnownConst(9));
    assert_eq!(known(&m.run(1)), Some(9));
    assert!(m.run(0).is_none());
    let circle = machine(&["root: aaaa + aaaa", "aaaa: root + root"]);
    assert!(circle.run(20).is_none());
}

#[test]
fn riddle_operations() {
    assert_eq!(work_out(&add(), 7, -9), Some(-2));
    assert_eq!(work_out(&sub(), 7, -9), Some(16));
    assert_eq!(work_out(&mul(), 7, -9), Some(-63));
    assert_eq!(work_out(&div(), 7, 2), Some(3));
    assert_eq!(work_out(&div(), -7, 2), Some(-3));
    assert_eq!(work_out(&div(), 7, -2), Some(-3));
    assert_eq!(work_out(&div(), -7, -2), Some(3));
    assert_eq!(work_out(&div(), 7, 0), None);
    assert_eq!(work_out(&div(), isize::MIN, -1), None);
    assert_eq!(work_out(&add(), isize::MAX, 1), None);
    assert_eq!(work_out(&sub(), isize::MIN, 1), None);
    assert_eq!(work_out(&mul(), isize::MAX, 2), None);
    let equal = Op::Equal("aaaa".to_string(), "bbbb".to_string());
    assert_eq!(work_out(&equal, 3, 3), Some(1));
    assert_eq!(work_out(&equal, 3, 4), Some(0));
    assert_eq!(work_out(&Op::KnownConst(3), 1, 1), None);
    assert_eq!(work_out(&Op::UnknownConst, 1, 1), None);
    let m = machine(&["root: aaaa / bbbb", "aaaa: 1", "bbbb: 0"]);
    assert!(m.run(5).is_none());
    assert!(matches!(add().copy(), Op::Add(_, _)));
    assert!(add().operands().is_some());
    assert!(Op::UnknownConst.operands().is_none());
}

#[test]
fn riddle_steps_undo_operations() {
    assert_eq!(step(part(add(), Value::Unknown, Value::Known(5)), 6), Some((true, 1)));
    assert_eq!(step(part(add(), Value::Known(5), Value::Unknown), 6), Some((true, 1)));
    assert_eq!(step(part(add(), Value::Known(5), Value::Known(2)), 6), Some((false, 4)));
    assert_eq!(step(part(sub(), Value::Unknown, Value::Known(5)), 6), Some((true, 11)));
    assert_eq!(step(part(sub(), Value::Known(5), Value::Unknown), 6), Some((true, -1)));
    assert_eq!(step(part(mul(), Value::Unknown, Value::Known(5)), 16), Some((true, 3)));
    assert_eq!(step(part(mul(), Value::Known(5), Value::Unknown), -16), Some((true, -3)));
    assert_eq!(step(part(mul(), Value::Known(0), Value::Unknown), 16), None);
    assert_eq!(step(part(div(), Value::Unknown, Value::Known(5)), 6), Some((true, 30)));
    assert_eq!(step(part(div(), Value::Known(5), Value::Unknown), 6), None);
    assert_eq!(step(part(div(), Value::Unknown, Value::Known(2)), isize::MAX), None);
    assert_eq!(step(part(add(), Value::Unknown, Value::Unknown), 6), None);
    assert_eq!(step(Value::Unknown, 6), None);
    assert_eq!(step(Value::Known(6), 6), None);
    assert_eq!(step(part(Op::Equal("a".to_string(), "b".to_string()), Value::Unknown, Value::Known(1)), 1), None);
    assert!(simplify_equality(part(add(), Value::Unknown, Value::Known(5)), Value::Unknown).is_none());
    let nested = part(add(), part(mul(), Value::Unknown, Value::Known(2)), Value::Known(5));
    assert_eq!(step(nested, 25), Some((false, 20)));
}

#[test]
fn riddle_solving_takes_one_step() {
    let nested = || part(add(), part(mul(), Value::Unknown, Value::Known(2)), Value::Known(5));
    assert_eq!(simplify_equality_loop(nested(), Value::Known(25)), Some(20));
    assert_eq!(simplify_equality_loop(Value::Unknown, Value::Known(25)), None);
    let equal = || Op::Equal("aaaa".to_string(), "bbbb".to_string());
    assert_eq!(solve_equality(part(equal(), nested(), Value::Known(25))), Some(20));
    assert_eq!(solve_equality(part(equal(), Value::Known(25), nested())), Some(20));
    assert_eq!(solve_equality(part(equal(), Value::Known(25), Value::Known(3))), None);
    assert_eq!(solve_equality(part(equal(), nested(), nested())), None);
    assert_eq!(solve_equality(Value::Known(3)), None);
    assert_eq!(solve_equality(Value::Unknown), None);
}
