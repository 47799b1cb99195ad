//! Items of rucksacks, their priorities, and the item that several
//! rucksacks share.

use vstd::prelude::*;
use std::collections::HashSet;
use vstd::std_specs::iter::IteratorSpec;

verus! {

/// The priority of an item: 1 to 26 for `a` to `z`, and for any other
/// character 27 more than its distance from `A`.
pub open spec fn priority(c: char) -> int {
    if 'a' <= c <= 'z' {
        c as u32 - 'a' as u32 + 1
    } else {
        c as u32 - 'A' as u32 + 27
    }
}

/// The priority of an item.
pub fn char_score(c: char) -> (score: u32)
    requires
        c >= 'A',
    ensures
        score == priority(c),
{
    if 'a' <= c && c <= 'z' {
        (c as u32 - 'a' as u32) + 1
    } else {
        (c as u32 - 'A' as u32) + 27
    }
}

/// Every item can be given a priority.
pub open spec fn all_items(line: Seq<char>) -> bool {
    forall|i: int| 0 <= i < line.len() ==> #[trigger] line[i] >= 'A'
}

/// The priorities that occur among the first `n` items of the line.
pub open spec fn priorities(line: Seq<char>, n: int) -> Set<u32> {
    Set::new(|p: u32| exists|i: int| 0 <= i < n && priority(#[trigger] line[i]) == p)
}

/// The set of the priorities of the items of a line.
pub fn line_to_hash(line: &Vec<char>) -> (hs: HashSet<u32>)
    requires
        all_items(line@),
    ensures
        hs@ == priorities(line@, line@.len() as int),
{
    broadcast use vstd::std_specs::hash::group_hash_axioms;

    let mut hs: HashSet<u32> = HashSet::new();
    let mut i: usize = 0;
    assert(hs@ =~= priorities(line@, 0));
    while i < line.len()
        invariant
            i <= line@.len(),
            all_items(line@),
            hs@ == priorities(line@, i as int),
        decreases line@.len() - i,
    {
        let ghost before = hs@;
        hs.insert(char_score(line[i]));
        proof {
            assert forall|p: u32| hs@.contains(p) == priorities(line@, i + 1).contains(p) by {
                if priorities(line@, i + 1).contains(p) {
                    let k = choose|k: int| 0 <= k < i + 1 && priority(#[trigger] line@[k]) == p;
                    if k < i {
                        assert(priorities(line@, i as int).contains(p));
                    }
                }
                if before.contains(p) {
                    let k = choose|k: int| 0 <= k < i && priority(#[trigger] line@[k]) == p;
                    assert(0 <= k < i + 1);
                }
            }
            assert(hs@ =~= priorities(line@, i + 1));
        }
        i += 1;
    }
    hs
}

/// Whether `p` is in each of the sets.
pub open spec fn shared(sets: Seq<HashSet<u32>>, p: u32) -> bool {
    forall|i: int| 0 <= i < sets.len() ==> (#[trigger] sets[i])@.contains(p)
}

/// Whether `p` is in each of the sets.
pub fn in_all(hashes: &Vec<HashSet<u32>>, p: u32) -> (b: bool)
    ensures
        b == shared(hashes@, p),
{
    broadcast use vstd::std_specs::hash::group_hash_axioms;

    let mut i: usize = 0;
    while i < hashes.len()
        invariant
            i <= hashes@.len(),
            forall|k: int| 0 <= k < i ==> (#[trigger] hashes@[k])@.contains(p),
        decreases hashes@.len() - i,
    {
        if !hashes[i].contains(&p) {
            return false;
        }
        i += 1;
    }
    true
}

/// A priority that is in each of the sets: `None` for no sets and where
/// they share none. Where they share several, any one of them may be
/// returned.
pub fn common_element(hashes: &Vec<HashSet<u32>>) -> (r: Option<u32>)
    ensures
        match r {
            Some(p) => hashes@.len() > 0 && shared(hashes@, p),
            None => hashes@.len() == 0 || forall|p: u32| !shared(hashes@, p),
        },
{
    broadcast use vstd::std_specs::hash::group_hash_axioms;

    if hashes.len() == 0 {
        return None;
    }
    let first = &hashes[0];
    let it = first.iter();
    let ghost all = it.remaining();
    for p in iter: it
        invariant
            hashes@.len() > 0,
            first@ == hashes@[0]@,
            iter.seq() == all,
            all.unref().to_set() == first@,
            forall|k: int| 0 <= k < iter.index() ==> !shared(hashes@, *all[k]),
    {
        if in_all(hashes, *p) {
            return Some(*p);
        }
    }
    proof {
        assert forall|p: u32| !shared(hashes@, p) by {
            if shared(hashes@, p) {
                assert(hashes@[0]@.contains(p));
                assert(all.unref().to_set().contains(p));
                let k = choose|k: int| 0 <= k < all.unref().len() && all.unref()[k] == p;
                assert(*all[k] == p);
            }
        }
    }
    None
}

/// The items of `line` from `from` up to, not including, `to`.
pub fn part_of(line: &Vec<char>, from: usize, to: usize) -> (part: Vec<char>)
    requires
        from <= to <= line@.len(),
    ensures
        part@ == line@.subrange(from as int, to as int),
{
    let mut part: Vec<char> = Vec::new();
    let mut i: usize = from;
    while i < to
        invariant
            from <= i <= to <= line@.len(),
            part@ == line@.subrange(from as int, i as int),
        decreases to - i,
    {
        part.push(line[i]);
        i += 1;
        assert(part@ =~= line@.subrange(from as int, i as int));
    }
    part
}

/// Whether `p` is the priority of an item that occurs in both halves of
/// the line, the first half being the shorter one of a line of odd length.
pub open spec fn in_both_halves(line: Seq<char>, p: u32) -> bool {
    let half = (line.len() / 2) as int;
    priorities(line.subrange(0, half), half).contains(p) && priorities(
        line.subrange(half, line.len() as int),
        line.len() - half,
    ).contains(p)
}

/// For each line, the priority of an item that is in both of its halves.
/// Returns `None` where a line has no such item.
pub fn common_of_halves(lines: &Vec<Vec<char>>) -> (r: Option<Vec<u32>>)
    requires
        forall|i: int| 0 <= i < lines@.len() ==> all_items(#[trigger] lines@[i]@),
    ensures
        match r {
            Some(found) => found@.len() == lines@.len() && forall|i: int|
                0 <= i < lines@.len() ==> in_both_halves(lines@[i]@, #[trigger] found@[i]),
            None => exists|i: int|
                0 <= i < lines@.len() && forall|p: u32| !in_both_halves(#[trigger] lines@[i]@, p),
        },
{
    let mut found: Vec<u32> = Vec::new();
    let mut i: usize = 0;
    while i < lines.len()
        invariant
            i <= lines@.len(),
            found@.len() == i,
            forall|i: int| 0 <= i < lines@.len() ==> all_items(#[trigger] lines@[i]@),
            forall|k: int| 0 <= k < i ==> in_both_halves(lines@[k]@, #[trigger] found@[k]),
        decreases lines@.len() - i,
    {
        let line = &lines[i];
        assert(all_items(lines@[i as int]@));
        let half = line.len() / 2;
        let a = part_of(line, 0, half);
        let b = part_of(line, half, line.len());
        let mut sets: Vec<HashSet<u32>> = Vec::new();
        sets.push(line_to_hash(&a));
        sets.push(line_to_hash(&b));
        match common_element(&sets) {
            Some(p) => {
                assert(sets@[0]@.contains(p) && sets@[1]@.contains(p));
                found.push(p);
            },
            None => {
                proof {
                    assert forall|p: u32| !in_both_halves(lines@[i as int]@, p) by {
                        if in_both_halves(lines@[i as int]@, p) {
                            assert forall|k: int| 0 <= k < sets@.len() implies (
                            #[trigger] sets@[k])@.contains(p) by {
                                if k == 0 {
                                } else {
                                    assert(k == 1);
                                }
                            }
                            assert(shared(sets@, p));
                        }
                    }
                }
                return None;
            },
        }
        i += 1;
    }
    Some(found)
}

/// Whether `p` is the priority of an item that occurs in each of the lines
/// from `from` up to, not including, `to`.
pub open spec fn in_each_line(lines: Seq<Vec<char>>, from: int, to: int, p: u32) -> bool {
    forall|k: int| from <= k < to ==> priorities(#[trigger] lines[k]@, lines[k]@.len() as int).contains(p)
}

/// Where the group of `size` lines that starts at line `from` ends.
pub open spec fn group_end(count: int, from: int, size: int) -> int {
    if from + size <= count {
        from + size
    } else {
        count
    }
}

/// Whether `p` is the priority of an item that occurs in each line of the
/// group number `g` of groups of `size` lines.
pub open spec fn group_shares(lines: Seq<Vec<char>>, size: int, g: int, p: u32) -> bool {
    in_each_line(lines, g * size, group_end(lines.len() as int, g * size, size), p)
}

/// Group number `g` starts inside the lines and its lines share no item.
pub open spec fn shares_nothing(lines: Seq<Vec<char>>, size: int, g: int) -> bool {
    0 <= g && g * size < lines.len() && forall|p: u32| !group_shares(lines, size, g, p)
}

/// For each group of `size` lines, the last group being shorter where
/// the lines run out, the priority of an item that is in each line of the
/// group. Returns `None` where a group has no such item.
pub fn common_of_groups(lines: &Vec<Vec<char>>, size: usize) -> (r: Option<Vec<u32>>)
    requires
        size > 0,
        forall|i: int| 0 <= i < lines@.len() ==> all_items(#[trigger] lines@[i]@),
    ensures
        match r {
            Some(found) => found@.len() == (lines@.len() + size - 1) / (size as int) && forall|g: int|
                0 <= g < found@.len() ==> group_shares(lines@, size as int, g, #[trigger] found@[g]),
            None => exists|g: int| shares_nothing(lines@, size as int, g),
        },
{
    let mut found: Vec<u32> = Vec::new();
    let mut from: usize = 0;
    let ghost mut groups: int = 0;
    let total = lines.len();
    assert(0 * size == 0) by (nonlinear_arith);
    while from < total
        invariant
            size > 0,
            total == lines@.len(),
            from == groups * size,
            0 <= groups,
            from <= total || found@.len() == (total + size - 1) / (size as int),
            from <= total ==> found@.len() == groups,
            found@.len() <= groups,
            forall|i: int| 0 <= i < lines@.len() ==> all_items(#[trigger] lines@[i]@),
            forall|g: int|
                0 <= g < found@.len() ==> group_shares(lines@, size as int, g, #[trigger] found@[g]),
        decreases total - from,
    {
        let to = if size <= total - from {
            from + size
        } else {
            total
        };
        let mut sets: Vec<HashSet<u32>> = Vec::new();
        let mut k: usize = from;
        while k < to
            invariant
                from <= k <= to <= total,
                total == lines@.len(),
                sets@.len() == k - from,
                forall|i: int| 0 <= i < lines@.len() ==> all_items(#[trigger] lines@[i]@),
                forall|j: int|
                    0 <= j < sets@.len() ==> (#[trigger] sets@[j])@ == priorities(
                        lines@[from + j]@,
                        lines@[from + j]@.len() as int,
                    ),
            decreases to - k,
        {
            assert(all_items(lines@[k as int]@));
            sets.push(line_to_hash(&lines[k]));
            k += 1;
        }
        match common_element(&sets) {
            Some(p) => {
                proof {
                    assert forall|j: int| from <= j < to implies priorities(
                        #[trigger] lines@[j]@,
                        lines@[j]@.len() as int,
                    ).contains(p) by {
                        assert(sets@[j - from]@.contains(p));
                    }
                }
                found.push(p);
            },
            None => {
                proof {
                    assert forall|p: u32| !group_shares(lines@, size as int, groups, p) by {
                        if in_each_line(lines@, from as int, to as int, p) {
                            assert forall|j: int| 0 <= j < sets@.len() implies (
                            #[trigger] sets@[j])@.contains(p) by {
                                assert(priorities(lines@[from + j]@, lines@[from + j]@.len() as int).contains(p));
                            }
                            assert(shared(sets@, p));
                        }
                    }
                    assert(shares_nothing(lines@, size as int, groups));
                }
                return None;
            },
        }
        proof {
            assert((groups + 1) * size == groups * size + size) by (nonlinear_arith);
            if to == total {
                // the last group: no further group starts inside the lines
                let count = groups + 1;
                assert(count == (total + size - 1) / (size as int)) by (nonlinear_arith)
                    requires
                        from == groups * size,
                        from < total,
                        total <= from + size,
                        size > 0,
                        count == groups + 1,
                ;
            }
            groups = groups + 1;
        }
        if size > total - from {
            assert(found@.len() == (total + size - 1) / (size as int));
            return Some(found);
        }
        from = from + size;
    }
    proof {
        if from == total {
            assert(groups == (total + size - 1) / (size as int)) by (nonlinear_arith)
                requires
                    total == groups * size,
                    size > 0,
                    groups >= 0,
            ;
        }
    }
    Some(found)
}

/// The sum of the first `n` numbers.
pub open spec fn sum_of(v: Seq<u32>, n: nat) -> nat
    decreases n,
{
    if n == 0 {
        0
    } else {
        sum_of(v, (n - 1) as nat) + v[n - 1] as nat
    }
}

/// The sum of the numbers, or `None` where it does not fit in 32 bits.
pub fn sum_all(v: &Vec<u32>) -> (r: Option<u32>)
    ensures
        match r {
            Some(sum) => sum == sum_of(v@, v@.len()),
            None => sum_of(v@, v@.len()) > u32::MAX,
        },
{
    let mut sum: u64 = 0;
    let mut i: usize = 0;
    while i < v.len()
        invariant
            i <= v@.len(),
            sum == sum_of(v@, i as nat),
            sum <= i * 0xffff_ffff,
            i <= usize::MAX,
        decreases v@.len() - i,
    {
        assert(i * 0xffff_ffff + 0xffff_ffff <= 0xffff_ffff_ffff_ffff * 0xffff_ffff + 0xffff_ffff);
        if sum > 0xffff_ffff {
            proof {
                lemma_sum_grows(v@, i as nat, v@.len());
            }
            return None;
        }
        sum = sum + v[i] as u64;
        i += 1;
    }
    if sum > 0xffff_ffff {
        None
    } else {
        Some(sum as u32)
    }
}

/// A sum of more numbers is not smaller.
pub proof fn lemma_sum_grows(v: Seq<u32>, k: nat, n: nat)
    requires
        k <= n,
    ensures
        sum_of(v, k) <= sum_of(v, n),
    decreases n - k,
{
    if k < n {
        lemma_sum_grows(v, k, (n - 1) as nat);
    }
}

} // verus!
