//! Closed ranges of section numbers.

use vstd::prelude::*;
use crate::pattern::{accepted, group, group_text, groups_view, regex_groups, Pattern};
use crate::text::{decimal_value, read_u32};

verus! {

/// The sections from `from` to `to`, both included.
#[derive(Copy, Clone, Debug)]
pub struct Range {
    pub from: u32,
    pub to: u32,
}

impl Range {
    /// Whether section `p` lies in this range.
    pub open spec fn holds(self, p: int) -> bool {
        self.from <= p <= self.to
    }

    pub fn new(from: u32, to: u32) -> (r: Range)
        ensures
            r.from == from,
            r.to == to,
    {
        Range { from, to }
    }

    /// Whether `other` lies wholly inside this range.
    pub fn contains(self, other: Range) -> (b: bool)
        ensures
            b == (self.from <= other.from && other.to <= self.to),
            other.from <= other.to ==> b == (forall|p: int| other.holds(p) ==> self.holds(p)),
    {
        proof {
            if other.from <= other.to {
                assert(other.holds(other.from as int));
                assert(other.holds(other.to as int));
            }
        }
        other.from >= self.from && other.to <= self.to
    }

    /// Whether `other` neither ends below this range nor starts above it.
    /// For two ranges that are not empty this says that they share a section.
    pub fn overlaps(self, other: Range) -> (b: bool)
        ensures
            b == !((other.from < self.from && other.to < self.from) || (other.from > self.to
                && other.to > self.to)),
            self.from <= self.to && other.from <= other.to ==> b == (exists|p: int|
                self.holds(p) && other.holds(p)),
    {
        let lower = other.from < self.from && other.to < self.from;
        let higher = other.from > self.to && other.to > self.to;
        proof {
            if self.from <= self.to && other.from <= other.to && !(lower || higher) {
                let p = if other.from >= self.from {
                    other.from as int
                } else {
                    self.from as int
                };
                assert(self.holds(p) && other.holds(p));
            }
        }
        !(lower || higher)
    }
}

/// How many of the first `n` pairs have one range wholly inside the other.
pub open spec fn nested_pairs(pairs: Seq<(Range, Range)>, n: nat) -> nat
    decreases n,
{
    if n == 0 {
        0
    } else {
        let (a, b) = pairs[n - 1];
        let one: nat = if (a.from <= b.from && b.to <= a.to) || (b.from <= a.from && a.to <= b.to) {
            1
        } else {
            0
        };
        nested_pairs(pairs, (n - 1) as nat) + one
    }
}

/// How many of the first `n` pairs are not apart, the second range neither
/// below nor above the first.
pub open spec fn touching_pairs(pairs: Seq<(Range, Range)>, n: nat) -> nat
    decreases n,
{
    if n == 0 {
        0
    } else {
        let (a, b) = pairs[n - 1];
        let one: nat = if (b.from < a.from && b.to < a.from) || (b.from > a.to && b.to > a.to) {
            0
        } else {
            1
        };
        touching_pairs(pairs, (n - 1) as nat) + one
    }
}

/// Counts the pairs in which one range holds the other, and the pairs whose
/// ranges overlap.
pub fn count_pairs(pairs: &Vec<(Range, Range)>) -> (r: (usize, usize))
    ensures
        r.0 == nested_pairs(pairs@, pairs@.len()),
        r.1 == touching_pairs(pairs@, pairs@.len()),
{
    let mut fully_contains: usize = 0;
    let mut overlaps: usize = 0;
    let mut i: usize = 0;
    while i < pairs.len()
        invariant
            i <= pairs@.len(),
            fully_contains == nested_pairs(pairs@, i as nat),
            overlaps == touching_pairs(pairs@, i as nat),
            fully_contains <= i,
            overlaps <= i,
        decreases pairs@.len() - i,
    {
        let (a, b) = pairs[i];
        if a.contains(b) || b.contains(a) {
            fully_contains += 1;
        }
        if a.overlaps(b) {
            overlaps += 1;
        }
        i += 1;
    }
    (fully_contains, overlaps)
}

/// The pattern of a line that holds a pair of ranges.
pub const PAIR_PATTERN: &'static str = "^(\\d+)-(\\d+),(\\d+)-(\\d+)$";

/// The number that group `n` writes, where there is such a group, it took
/// part in the match and it writes a number that fits in 32 bits.
pub open spec fn group_number(groups: Seq<Option<Seq<char>>>, n: int) -> Option<nat> {
    match group_text(groups, n) {
        Some(text) => decimal_value(text, u32::MAX as nat),
        None => None,
    }
}

/// The pair of ranges that the groups of a matched line write: the first
/// range from group one to group two, the second from group three to group
/// four.
pub open spec fn pair_of(found: Option<Seq<Option<Seq<char>>>>) -> Option<(Range, Range)> {
    match found {
        Some(groups) => {
            if group_number(groups, 1) is Some && group_number(groups, 2) is Some && group_number(
                groups,
                3,
            ) is Some && group_number(groups, 4) is Some {
                Some(
                    (
                        Range {
                            from: group_number(groups, 1)->0 as u32,
                            to: group_number(groups, 2)->0 as u32,
                        },
                        Range {
                            from: group_number(groups, 3)->0 as u32,
                            to: group_number(groups, 4)->0 as u32,
                        },
                    ),
                )
            } else {
                None
            }
        },
        None => None,
    }
}

fn number_in(groups: &Vec<Option<String>>, n: usize) -> (r: Option<u32>)
    ensures
        match group_number(groups_view(Some(*groups))->0, n as int) {
            Some(v) => r == Some(v as u32),
            None => r is None,
        },
{
    match group(groups, n) {
        Some(text) => read_u32(text),
        None => None,
    }
}

/// Reads the pair of ranges from the groups of a matched line.
pub fn pair_from_groups(found: Option<Vec<Option<String>>>) -> (r: Option<(Range, Range)>)
    ensures
        r == pair_of(groups_view(found)),
{
    match found {
        Some(groups) => {
            let a = number_in(&groups, 1);
            let b = number_in(&groups, 2);
            let c = number_in(&groups, 3);
            let d = number_in(&groups, 4);
            match (a, b, c, d) {
                (Some(a), Some(b), Some(c), Some(d)) => Some((Range::new(a, b), Range::new(c, d))),
                _ => None,
            }
        },
        None => None,
    }
}

/// Reads a pair of ranges from a line with the given pattern.
pub fn read_pair(pattern: &Pattern, line: &str) -> (r: Option<(Range, Range)>)
    ensures
        r == pair_of(regex_groups(pattern.text(), line@)),
{
    pair_from_groups(pattern.captures(line))
}

/// The pairs that the lines write with the given pattern, where each line
/// writes one.
pub open spec fn pairs_of(pattern: Seq<char>, lines: Seq<String>) -> Option<Seq<(Range, Range)>> {
    if forall|i: int| 0 <= i < lines.len() ==> pair_of(regex_groups(pattern, #[trigger] lines[i]@)) is Some {
        Some(Seq::new(lines.len(), |i: int| pair_of(regex_groups(pattern, lines[i]@))->0))
    } else {
        None
    }
}

/// Reads a pair of ranges from each line and counts the pairs in which one
/// range holds the other and those whose ranges overlap. Returns `None`
/// where a line holds no pair.
pub fn count_lines_with(pattern: &Pattern, lines: &Vec<String>) -> (r: Option<(usize, usize)>)
    ensures
        match pairs_of(pattern.text(), lines@) {
            Some(pairs) => r matches Some(counts) && counts.0 == nested_pairs(pairs, pairs.len())
                && counts.1 == touching_pairs(pairs, pairs.len()),
            None => r is None,
        },
{
    let mut pairs: Vec<(Range, Range)> = Vec::new();
    let mut i: usize = 0;
    while i < lines.len()
        invariant
            i <= lines@.len(),
            pairs@.len() == i,
            forall|k: int|
                0 <= k < i ==> pair_of(regex_groups(pattern.text(), #[trigger] lines@[k]@)) == Some(
                    pairs@[k],
                ),
        decreases lines@.len() - i,
    {
        match read_pair(pattern, lines[i].as_str()) {
            Some(pair) => {
                pairs.push(pair);
            },
            None => {
                return None;
            },
        }
        i += 1;
    }
    proof {
        assert(pairs@ =~= pairs_of(pattern.text(), lines@)->0);
    }
    Some(count_pairs(&pairs))
}

/// Compiles the pattern of a pair of ranges and counts the pairs of the
/// lines with it. Where the pattern is accepted, the result is that of
/// `count_lines_with`; where it is refused, the result is `None`.
pub fn count_lines(lines: &Vec<String>) -> (r: Option<(usize, usize)>)
    ensures
        r is Some == (accepted(PAIR_PATTERN@) && pairs_of(PAIR_PATTERN@, lines@) is Some),
        r matches Some(counts) ==> pairs_of(PAIR_PATTERN@, lines@) matches Some(pairs) && counts.0
            == nested_pairs(pairs, pairs.len()) && counts.1 == touching_pairs(pairs, pairs.len()),
{
    match Pattern::new(PAIR_PATTERN) {
        Ok(pattern) => count_lines_with(&pattern, lines),
        Err(_) => None,
    }
}

} // verus!
