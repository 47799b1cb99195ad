//! Runs of numbers, their sums, and the largest of the sums.

use vstd::prelude::*;
use crate::text::{plus_value, read_plus_u32};

verus! {

/// The sums of the runs that are closed within the first `n` lines, and
/// the sum of the run that is still open. A line that writes a number adds
/// it to the open run; any other line closes the run.
pub open spec fn runs(lines: Seq<Vec<char>>, n: nat) -> (Seq<nat>, nat)
    decreases n,
{
    if n == 0 {
        (Seq::empty(), 0)
    } else {
        let (closed, open) = runs(lines, (n - 1) as nat);
        match plus_value(lines[n - 1]@, u32::MAX as nat) {
            Some(v) => (closed, open + v),
            None => (closed.push(open), 0),
        }
    }
}

/// The sums of all the runs of the lines, the last run included.
pub open spec fn totals(lines: Seq<Vec<char>>) -> Seq<nat> {
    runs(lines, lines.len()).0.push(runs(lines, lines.len()).1)
}

/// Every sum along the first `n` lines fits in 32 bits.
pub open spec fn runs_fit(lines: Seq<Vec<char>>, n: nat) -> bool
    decreases n,
{
    n == 0 || (runs_fit(lines, (n - 1) as nat) && runs(lines, n).1 <= u32::MAX)
}

/// Sums that do not fit along the first `k` lines do not fit further on.
pub proof fn lemma_runs_overflow(lines: Seq<Vec<char>>, k: nat, n: nat)
    requires
        !runs_fit(lines, k),
        k <= n,
    ensures
        !runs_fit(lines, n),
    decreases n - k,
{
    if k < n {
        lemma_runs_overflow(lines, k, (n - 1) as nat);
    }
}

/// The numbers as they are in the wider type.
pub open spec fn widened(v: Seq<u32>) -> Seq<nat> {
    Seq::new(v.len(), |i: int| v[i] as nat)
}

/// Adds up each run of lines that write numbers. Returns `None` where a
/// sum does not fit in 32 bits.
pub fn group_totals(lines: &Vec<Vec<char>>) -> (r: Option<Vec<u32>>)
    ensures
        r is Some == runs_fit(lines@, lines@.len()),
        r matches Some(v) ==> widened(v@) == totals(lines@),
{
    let mut cals: Vec<u32> = Vec::new();
    let mut run: u32 = 0;
    let mut i: usize = 0;
    assert(widened(cals@) =~= Seq::empty());
    while i < lines.len()
        invariant
            i <= lines@.len(),
            runs_fit(lines@, i as nat),
            widened(cals@) == runs(lines@, i as nat).0,
            run == runs(lines@, i as nat).1,
        decreases lines@.len() - i,
    {
        let ghost before = cals@;
        match read_plus_u32(&lines[i]) {
            Some(v) => {
                match run.checked_add(v) {
                    Some(sum) => {
                        run = sum;
                    },
                    None => {
                        proof {
                            lemma_runs_overflow(lines@, (i + 1) as nat, lines@.len());
                        }
                        return None;
                    },
                }
            },
            None => {
                cals.push(run);
                run = 0;
                assert(widened(cals@) =~= widened(before).push(runs(lines@, i as nat).1));
            },
        }
        i += 1;
    }
    let ghost before = cals@;
    cals.push(run);
    assert(widened(cals@) =~= widened(before).push(run as nat));
    Some(cals)
}

/// The index of the largest number, the first of them where there are
/// several; zero for no number.
pub open spec fn max_index(s: Seq<u32>) -> int
    decreases s.len(),
{
    if s.len() <= 1 {
        0
    } else {
        let before = max_index(s.drop_last());
        if s.last() > s[before] {
            s.len() - 1
        } else {
            before
        }
    }
}

/// The sum of the `k` largest numbers, or of all where there are fewer.
pub open spec fn top_sum(s: Seq<u32>, k: nat) -> nat
    decreases k,
{
    if k == 0 || s.len() == 0 {
        0
    } else {
        s[max_index(s)] as nat + top_sum(s.remove(max_index(s)), (k - 1) as nat)
    }
}

/// The index of the largest number, the first of them where there are
/// several.
pub fn find_max(v: &Vec<u32>) -> (at: usize)
    requires
        v@.len() > 0,
    ensures
        at == max_index(v@),
        at < v@.len(),
{
    let mut best: usize = 0;
    let mut i: usize = 1;
    assert(v@.take(1).len() == 1);
    while i < v.len()
        invariant
            1 <= i <= v@.len(),
            best == max_index(v@.take(i as int)),
            best < i,
        decreases v@.len() - i,
    {
        assert(v@.take(i + 1).drop_last() =~= v@.take(i as int));
        assert(v@.take(i + 1).last() == v@[i as int]);
        assert(v@.take(i + 1)[best as int] == v@[best as int]);
        if v[i] > v[best] {
            best = i;
        }
        i += 1;
    }
    assert(v@.take(v@.len() as int) =~= v@);
    best
}

/// The largest of the numbers and the sum of the three largest, or `None`
/// where that sum does not fit in 32 bits.
pub fn top_three(totals: &Vec<u32>) -> (r: Option<(u32, u32)>)
    requires
        totals@.len() > 0,
    ensures
        r is Some == (top_sum(totals@, 3) <= u32::MAX),
        r matches Some((most, most_3)) ==> most == totals@[max_index(totals@)] && most_3 == top_sum(
            totals@,
            3,
        ),
{
    let mut left: Vec<u32> = Vec::new();
    let mut i: usize = 0;
    while i < totals.len()
        invariant
            i <= totals@.len(),
            left@ == totals@.take(i as int),
        decreases totals@.len() - i,
    {
        left.push(totals[i]);
        i += 1;
        assert(left@ =~= totals@.take(i as int));
    }
    assert(left@ =~= totals@);
    let first = find_max(&left);
    let most = left[first];
    let mut sum: u64 = 0;
    let mut taken: usize = 0;
    while taken < 3 && left.len() > 0
        invariant
            taken <= 3,
            sum + top_sum(left@, (3 - taken) as nat) == top_sum(totals@, 3),
            sum <= taken * 0xffff_ffff,
        decreases 3 - taken,
    {
        let at = find_max(&left);
        sum = sum + left[at] as u64;
        left.remove(at);
        taken += 1;
    }
    if sum > 0xffff_ffff {
        None
    } else {
        Some((most, sum as u32))
    }
}

} // verus!
