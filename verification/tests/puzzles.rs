use advent::crates::{move_from_groups, read_move, read_stack, rearrange, Floor, Mode, Move, MOVE_PATTERN};
use advent::pattern::Pattern;
use advent::rucksack::{
    char_score, common_element, common_of_groups, common_of_halves, in_all, line_to_hash, part_of, sum_all,
};
use advent::range::{count_pairs, Range};
use advent::rps::{move_for_strategy, parse_rps, play, score, score_rounds, Rps};
use advent::snafu::{num_to_snafu, read_snafu, snafu_to_num};

#[test]
fn range_contains() {
    let a = Range::new(2, 8);
    assert!(a.contains(Range::new(3, 7)));
    assert!(a.contains(Range::new(2, 8)));
    assert!(!a.contains(Range::new(1, 8)));
    assert!(!a.contains(Range::new(2, 9)));
    assert!(!Range::new(3, 7).contains(a));
    assert!(Range::new(4, 6).contains(Range::new(6, 6)));
}

#[test]
fn range_overlaps() {
    let a = Range::new(5, 7);
    assert!(a.overlaps(Range::new(7, 9)));
    assert!(a.overlaps(Range::new(1, 5)));
    assert!(a.overlaps(Range::new(6, 6)));
    assert!(a.overlaps(Range::new(1, 9)));
    assert!(!a.overlaps(Range::new(8, 9)));
    assert!(!a.overlaps(Range::new(1, 4)));
    assert!(Range::new(2, 4).overlaps(Range::new(6, 3)));
}

#[test]
fn range_pairs_of_the_sample() {
    let pairs = vec![
        (Range::new(2, 4), Range::new(6, 8)),
        (Range::new(2, 3), Range::new(4, 5)),
        (Range::new(5, 7), Range::new(7, 9)),
        (Range::new(2, 8), Range::new(3, 7)),
        (Range::new(6, 6), Range::new(4, 6)),
        (Range::new(2, 6), Range::new(4, 8)),
    ];
    assert_eq!(count_pairs(&pairs), (2, 4));
    assert_eq!(count_pairs(&vec![]), (0, 0));
}

#[test]
fn rps_scores() {
    assert_eq!(score(Rps::Rock, Rps::Paper), 6);
    assert_eq!(score(Rps::Paper, Rps::Rock), 0);
    assert_eq!(score(Rps::Scissors, Rps::Scissors), 3);
    assert_eq!(play(parse_rps('A'), parse_rps('Y')), 8);
    assert_eq!(play(parse_rps('B'), parse_rps('X')), 1);
    assert_eq!(play(parse_rps('C'), parse_rps('Z')), 6);
    for opp in [Rps::Rock, Rps::Paper, Rps::Scissors] {
        assert_eq!(score(opp, move_for_strategy(opp, 'X')), 0);
        assert_eq!(score(opp, move_for_strategy(opp, 'Y')), 3);
        assert_eq!(score(opp, move_for_strategy(opp, 'Z')), 6);
    }
    assert_eq!(move_for_strategy(Rps::Rock, 'Y'), Rps::Rock);
    assert_eq!(move_for_strategy(Rps::Paper, 'X'), Rps::Rock);
    assert_eq!(move_for_strategy(Rps::Scissors, 'Z'), Rps::Rock);
}

#[test]
fn rps_rounds_of_the_sample() {
    assert_eq!(score_rounds(&vec![('A', 'Y'), ('B', 'X'), ('C', 'Z')]), (15, 12));
    assert_eq!(score_rounds(&vec![]), (0, 0));
}

#[test]
fn snafu_reads() {
    assert_eq!(snafu_to_num("1"), 1);
    assert_eq!(snafu_to_num("2"), 2);
    assert_eq!(snafu_to_num("1="), 3);
    assert_eq!(snafu_to_num("1-"), 4);
    assert_eq!(snafu_to_num("10"), 5);
    assert_eq!(snafu_to_num("2="), 8);
    assert_eq!(snafu_to_num("1=-0-2"), 1747);
    assert_eq!(snafu_to_num("1121-1110-1=0"), 314159265);
    assert_eq!(snafu_to_num(""), 0);
    assert_eq!(snafu_to_num("-"), -1);
    assert_eq!(snafu_to_num("=2"), -8);
}

#[test]
fn snafu_read_checks_its_input() {
    assert_eq!(read_snafu("1=-0-2"), Some(1747));
    assert_eq!(read_snafu(""), Some(0));
    assert_eq!(read_snafu("12x"), None);
    assert_eq!(read_snafu("3"), None);
    assert_eq!(read_snafu(" 1"), None);
    assert_eq!(read_snafu(&num_to_snafu(isize::MAX)), Some(isize::MAX));
    let mut long = num_to_snafu(isize::MAX);
    long.push('0');
    assert_eq!(read_snafu(&long), None);
    assert_eq!(read_snafu("2222222222222222222222222222"), None);
    assert_eq!(read_snafu("===========================0"), None);
}

#[test]
fn snafu_writes() {
    assert_eq!(num_to_snafu(0), "0");
    assert_eq!(num_to_snafu(1), "1");
    assert_eq!(num_to_snafu(3), "1=");
    assert_eq!(num_to_snafu(4), "1-");
    assert_eq!(num_to_snafu(5), "10");
    assert_eq!(num_to_snafu(2022), "1=11-2");
    assert_eq!(num_to_snafu(4890), "2=-1=0");
    assert_eq!(num_to_snafu(314159265), "1121-1110-1=0");
    for n in 0..2000isize {
        assert_eq!(snafu_to_num(&num_to_snafu(n)), n);
    }
    assert_eq!(snafu_to_num(&num_to_snafu(isize::MAX)), isize::MAX);
}

#[test]
fn rucksack_priorities() {
    assert_eq!(char_score('a'), 1);
    assert_eq!(char_score('z'), 26);
    assert_eq!(char_score('A'), 27);
    assert_eq!(char_score('Z'), 52);
    assert_eq!(char_score('p'), 16);
    assert_eq!(char_score('L'), 38);
    assert_eq!(char_score('['), 53);
    assert_eq!(char_score('{'), 85);
}

#[test]
fn rucksack_common_items_of_the_sample() {
    let sacks: Vec<Vec<char>> = [
        "vJrwpWtwJgWrhcsFMMfFFhFp",
        "jqHRNqRjqzjGDLGLrsFMfFZSrLrFZsSL",
        "PmmdzqPrVvPwwTWBwg",
        "wMqvLMZHhHMvwLHjbvcjnnSBnvTQFn",
        "ttgJtRGJQctTZtZT",
        "CrZsJsPPZsGzwwsLwLmpwMDw",
    ]
    .iter()
    .map(|l| l.chars().collect())
    .collect();
    assert_eq!(common_of_halves(&sacks), Some(vec![16, 38, 42, 22, 20, 19]));
    assert_eq!(sum_all(&common_of_halves(&sacks).unwrap()), Some(157));
    assert_eq!(common_of_groups(&sacks, 3), Some(vec![18, 52]));
    assert_eq!(sum_all(&common_of_groups(&sacks, 3).unwrap()), Some(70));
    assert_eq!(common_of_groups(&sacks, 6), None);
    assert_eq!(common_of_groups(&sacks, 1).unwrap().len(), 6);
    assert_eq!(common_of_groups(&sacks[..4].to_vec(), 3).unwrap().len(), 2);
    assert_eq!(common_of_groups(&vec![], 3), Some(vec![]));
    assert_eq!(common_of_halves(&vec!["ab".chars().collect()]), None);
    assert_eq!(common_of_halves(&vec!["aba".chars().collect()]), Some(vec![1]));
    assert_eq!(common_of_halves(&vec![vec![]]), None);
    let a = line_to_hash(&"abc".chars().collect());
    let b = line_to_hash(&"cde".chars().collect());
    assert_eq!(a.len(), 3);
    assert!(a.contains(&1) && a.contains(&2) && a.contains(&3));
    assert!(in_all(&vec![a.clone(), b.clone()], 3));
    assert!(!in_all(&vec![a.clone(), b.clone()], 1));
    assert!(in_all(&vec![], 1));
    assert_eq!(common_element(&vec![a.clone(), b]), Some(3));
    assert_eq!(common_element(&vec![]), None);
    assert_eq!(common_element(&vec![a, line_to_hash(&vec![])]), None);
    assert_eq!(part_of(&"abcdef".chars().collect(), 2, 4), vec!['c', 'd']);
    assert_eq!(sum_all(&vec![]), Some(0));
    assert_eq!(sum_all(&vec![u32::MAX, 1]), None);
    assert_eq!(sum_all(&vec![u32::MAX, 0]), Some(u32::MAX));
}

#[test]
fn crates_of_the_sample() {
    let drawing: Vec<Vec<char>> =
        ["    [D]    ", "[N] [C]    ", "[Z] [M] [P]", " 1   2   3 "].iter().map(|l| l.chars().collect()).collect();
    assert_eq!(read_stack(&drawing, 0), Some(vec!['Z', 'N']));
    assert_eq!(read_stack(&drawing, 1), Some(vec!['M', 'C', 'D']));
    assert_eq!(read_stack(&drawing, 2), Some(vec!['P']));
    assert_eq!(read_stack(&drawing, 3), None);
    let pattern = Pattern::new(MOVE_PATTERN).unwrap();
    let moves: Vec<Move> = ["move 1 from 2 to 1", "move 3 from 1 to 3", "move 2 from 2 to 1", "move 1 from 1 to 2"]
        .iter()
        .map(|l| read_move(&pattern, l).unwrap())
        .collect();
    assert_eq!((moves[1].amount, moves[1].from, moves[1].to), (3, 0, 2));
    assert!(read_move(&pattern, "move 1 from 0 to 1").is_none());
    assert!(read_move(&pattern, "move 1 from 1 to 0").is_none());
    assert!(read_move(&pattern, "move 1 from 1 to").is_none());
    assert!(read_move(&pattern, "move 0 from 1 to 1").is_some());
    assert!(read_move(&pattern, "move 99999999999999999999999 from 1 to 1").is_none());
    assert!(move_from_groups(None).is_none());
    let stacks = || vec![vec!['Z', 'N'], vec!['M', 'C', 'D'], vec!['P']];
    let mut single = Floor { mode: Mode::Single, stacks: stacks() };
    assert!(rearrange(&mut single, &moves));
    assert_eq!(single.stacks, vec![vec!['C'], vec!['M'], vec!['P', 'D', 'N', 'Z']]);
    assert!(single.all_full());
    assert_eq!(single.describe(), "CMZ");
    let mut multi = Floor { mode: Mode::Multi, stacks: stacks() };
    assert!(rearrange(&mut multi, &moves));
    assert_eq!(multi.stacks, vec![vec!['M'], vec!['C'], vec!['P', 'Z', 'N', 'D']]);
    assert_eq!(multi.describe(), "MCD");
    let mut f = Floor { mode: Mode::Multi, stacks: stacks() };
    f.transfer(1, 1, 2);
    assert_eq!(f.stacks[1], vec!['M', 'C', 'D']);
    let mut f = Floor { mode: Mode::Single, stacks: stacks() };
    f.transfer(1, 1, 2);
    assert_eq!(f.stacks[1], vec!['M', 'D', 'C']);
    f.transfer(0, 2, 0);
    assert_eq!(f.stacks, vec![vec!['Z', 'N'], vec!['M', 'D', 'C'], vec!['P']]);
    f.transfer(0, 2, 2);
    assert!(!f.all_full());
    let mut f = Floor { mode: Mode::Single, stacks: stacks() };
    assert!(!rearrange(&mut f, &vec![Move { amount: 1, from: 0, to: 1 }, Move { amount: 2, from: 0, to: 1 }]));
    assert_eq!(f.stacks, vec![vec!['Z'], vec!['M', 'C', 'D', 'N'], vec!['P']]);
    assert!(!rearrange(&mut f, &vec![Move { amount: 0, from: 3, to: 1 }]));
    assert!(!rearrange(&mut f, &vec![Move { amount: 0, from: 1, to: 3 }]));
    assert!(rearrange(&mut f, &vec![]));
}

#[test]
fn snafu_written_can_be_read() {
    for n in [0isize, 1, 2, 3, 4, 5, 12, 13, 2022, 314159265, isize::MAX - 4, isize::MAX - 3, isize::MAX - 1, isize::MAX] {
        assert_eq!(snafu_to_num(&num_to_snafu(n)), n);
        assert_eq!(read_snafu(&num_to_snafu(n)), Some(n));
    }
}

#[test]
fn pattern_is_accepted_or_bad() {
    assert!(Pattern::new("a(b)c").is_ok());
    assert!(Pattern::new("").is_ok());
    assert!(Pattern::new("(").is_err());
    assert!(Pattern::new("[").is_err());
    assert!(Pattern::new("a{2,1}").is_err());
    // A pattern whose program is too large is refused too.
    assert!(Pattern::new("((a{100}){100}){100}").is_err());
    let found = Pattern::new("a(b)").unwrap().captures("xab").unwrap();
    assert_eq!(found, vec![Some("ab".to_string()), Some("b".to_string())]);
}
