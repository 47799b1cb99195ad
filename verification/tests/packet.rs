use advent::packet::{parse, try_parse, Packet};
use advent::packet_order::{compare_lists, packet_compare};
use std::cmp::Ordering;

#[test]
fn packet_test() {
    assert_eq!(parse("123"), Packet::Number(123));
    assert_eq!(parse("[]"), Packet::List(vec![]));
    assert_eq!(parse("[123]"), Packet::List(vec![Packet::Number(123)]));
    assert_eq!(
        parse("[[1],4]"),
        Packet::List(vec![
            Packet::List(vec![Packet::Number(1)]),
            Packet::Number(4)
        ])
    );
}

#[test]
fn packet_reader_rejects_what_is_no_packet() {
    assert_eq!(try_parse(""), None);
    assert_eq!(try_parse("x"), None);
    assert_eq!(try_parse("["), None);
    assert_eq!(try_parse("[1"), None);
    assert_eq!(try_parse("[1,"), None);
    assert_eq!(try_parse("[1,x]"), None);
    assert_eq!(try_parse("[[]"), None);
    assert_eq!(try_parse("]"), None);
    assert_eq!(try_parse(","), None);
    assert_eq!(try_parse("-1"), None);
    assert_eq!(try_parse("99999999999999999999999999"), None);
    assert_eq!(try_parse("[99999999999999999999999999]"), None);
}

#[test]
fn packet_reader_accepts_loose_lists() {
    assert_eq!(try_parse("0"), Some(Packet::Number(0)));
    assert_eq!(try_parse("007"), Some(Packet::Number(7)));
    assert_eq!(try_parse("12]"), Some(Packet::Number(12)));
    assert_eq!(try_parse("12,13"), Some(Packet::Number(12)));
    assert_eq!(try_parse("[]x"), Some(Packet::List(vec![])));
    assert_eq!(try_parse("[,]"), Some(Packet::List(vec![])));
    assert_eq!(
        try_parse("[1,,2,]"),
        Some(Packet::List(vec![Packet::Number(1), Packet::Number(2)]))
    );
    assert_eq!(
        try_parse("[1[2]3]"),
        Some(Packet::List(vec![
            Packet::Number(1),
            Packet::List(vec![Packet::Number(2)]),
            Packet::Number(3)
        ]))
    );
    assert_eq!(
        try_parse(&usize::MAX.to_string()),
        Some(Packet::Number(usize::MAX))
    );
    assert_eq!(
        try_parse("[[[]],[10,[]]]"),
        Some(Packet::List(vec![
            Packet::List(vec![Packet::List(vec![])]),
            Packet::List(vec![Packet::Number(10), Packet::List(vec![])]),
        ]))
    );
}

fn order(a: &str, b: &str) -> Ordering {
    packet_compare(&parse(a), &parse(b))
}

#[test]
fn packet_order_of_the_samples() {
    assert_eq!(order("[1,1,3,1,1]", "[1,1,5,1,1]"), Ordering::Less);
    assert_eq!(order("[[1],[2,3,4]]", "[[1],4]"), Ordering::Less);
    assert_eq!(order("[9]", "[[8,7,6]]"), Ordering::Greater);
    assert_eq!(order("[[4,4],4,4]", "[[4,4],4,4,4]"), Ordering::Less);
    assert_eq!(order("[7,7,7,7]", "[7,7,7]"), Ordering::Greater);
    assert_eq!(order("[]", "[3]"), Ordering::Less);
    assert_eq!(order("[[[]]]", "[[]]"), Ordering::Greater);
    assert_eq!(
        order("[1,[2,[3,[4,[5,6,7]]]],8,9]", "[1,[2,[3,[4,[5,6,0]]]],8,9]"),
        Ordering::Greater
    );
}

#[test]
fn packet_order_of_numbers_and_lists() {
    assert_eq!(order("3", "5"), Ordering::Less);
    assert_eq!(order("5", "5"), Ordering::Equal);
    assert_eq!(order("6", "5"), Ordering::Greater);
    assert_eq!(order("5", "[5]"), Ordering::Equal);
    assert_eq!(order("[5]", "5"), Ordering::Equal);
    assert_eq!(order("[[5]]", "5"), Ordering::Equal);
    assert_eq!(order("5", "[5,1]"), Ordering::Less);
    assert_eq!(order("[5,1]", "5"), Ordering::Greater);
    assert_eq!(order("5", "[]"), Ordering::Greater);
    assert_eq!(order("[]", "5"), Ordering::Less);
    assert_eq!(order("[]", "[]"), Ordering::Equal);
    assert_eq!(order("[[2]]", "[[6]]"), Ordering::Less);
    assert_eq!(order("[[2]]", "[2]"), Ordering::Equal);
}

#[test]
fn packet_lists_compare_item_by_item() {
    let a = vec![Packet::Number(1), Packet::Number(2)];
    let b = vec![Packet::Number(1), Packet::Number(3)];
    let c = vec![Packet::Number(1)];
    assert_eq!(compare_lists(&a, &b), Ordering::Less);
    assert_eq!(compare_lists(&b, &a), Ordering::Greater);
    assert_eq!(compare_lists(&a, &a), Ordering::Equal);
    assert_eq!(compare_lists(&c, &a), Ordering::Less);
    assert_eq!(compare_lists(&a, &c), Ordering::Greater);
    assert_eq!(compare_lists(&vec![], &vec![]), Ordering::Equal);
}

#[test]
fn packet_clone_is_deep() {
    let p = parse("[[1],[2,[3]],4]");
    let q = p.clone();
    assert_eq!(p, q);
    assert_eq!(packet_compare(&p, &q), Ordering::Equal);
}
