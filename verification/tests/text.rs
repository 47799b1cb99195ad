use advent::text::{find_from, nth_part, read_plus, slice, split_once};

fn chars(s: &str) -> Vec<char> {
    s.chars().collect()
}

#[test]
fn parts_of_a_line() {
    let line = chars("ab,c,,d");
    assert_eq!(nth_part(&line, ',', 0), Some(chars("ab")));
    assert_eq!(nth_part(&line, ',', 1), Some(chars("c")));
    assert_eq!(nth_part(&line, ',', 2), Some(chars("")));
    assert_eq!(nth_part(&line, ',', 3), Some(chars("d")));
    assert_eq!(nth_part(&line, ',', 4), None);
    assert_eq!(nth_part(&chars(""), ',', 0), Some(chars("")));
    assert_eq!(nth_part(&chars(""), ',', 1), None);
    assert_eq!(nth_part(&chars("a,"), ',', 1), Some(chars("")));
}

#[test]
fn halves_of_a_line() {
    assert_eq!(split_once(&chars("a b c"), ' '), Some((chars("a"), chars("b c"))));
    assert_eq!(split_once(&chars(" x"), ' '), Some((chars(""), chars("x"))));
    assert_eq!(split_once(&chars("x "), ' '), Some((chars("x"), chars(""))));
    assert_eq!(split_once(&chars("abc"), ' '), None);
}

#[test]
fn first_place_of_a_character_from_a_place_on() {
    let line = chars("a-b-c");
    assert_eq!(find_from(&line, '-', 0), Some(1));
    assert_eq!(find_from(&line, '-', 1), Some(1));
    assert_eq!(find_from(&line, '-', 2), Some(3));
    assert_eq!(find_from(&line, '-', 4), None);
    assert_eq!(find_from(&line, '-', 5), None);
    assert_eq!(slice(&line, 1, 4), chars("-b-"));
    assert_eq!(slice(&line, 2, 2), chars(""));
}

#[test]
fn unsigned_number_of_a_line() {
    assert_eq!(read_plus(&chars("0")), Some(0));
    assert_eq!(read_plus(&chars("+17")), Some(17));
    assert_eq!(read_plus(&chars("007")), Some(7));
    assert_eq!(read_plus(&chars("-1")), None);
    assert_eq!(read_plus(&chars("")), None);
    assert_eq!(read_plus(&chars("+")), None);
    assert_eq!(read_plus(&chars("1x")), None);
    assert_eq!(read_plus(&chars("99999999999999999999999")), None);
}
