//! Rock, paper, scissors: moves, outcomes and scores.

use vstd::prelude::*;

verus! {

/// A move.
#[derive(Copy, Clone, Debug, PartialEq, Eq, Structural)]
pub enum Rps {
    Rock,
    Paper,
    Scissors,
}

/// Whether move `a` wins against move `b`.
pub open spec fn beats(a: Rps, b: Rps) -> bool {
    (a == Rps::Rock && b == Rps::Scissors) || (a == Rps::Paper && b == Rps::Rock) || (a
        == Rps::Scissors && b == Rps::Paper)
}

/// The points for the outcome of a round: 6 for a win, 3 for a draw, 0 for a
/// loss.
pub open spec fn outcome(opp: Rps, us: Rps) -> nat {
    if beats(us, opp) {
        6
    } else if us == opp {
        3
    } else {
        0
    }
}

/// The points for the move itself.
pub open spec fn bonus(us: Rps) -> nat {
    match us {
        Rps::Rock => 1,
        Rps::Paper => 2,
        Rps::Scissors => 3,
    }
}

/// Whether `c` names a move.
pub open spec fn is_move(c: char) -> bool {
    c == 'A' || c == 'B' || c == 'C' || c == 'X' || c == 'Y' || c == 'Z'
}

/// The move that `c` names.
pub open spec fn move_of(c: char) -> Rps {
    if c == 'A' || c == 'X' {
        Rps::Rock
    } else if c == 'B' || c == 'Y' {
        Rps::Paper
    } else {
        Rps::Scissors
    }
}

/// Reads a move: `A` or `X` is rock, `B` or `Y` paper, `C` or `Z` scissors.
pub fn parse_rps(c: char) -> (m: Rps)
    requires
        is_move(c),
    ensures
        m == move_of(c),
{
    match c {
        'A' | 'X' => Rps::Rock,
        'B' | 'Y' => Rps::Paper,
        _ => Rps::Scissors,
    }
}

/// The points for the outcome of a round.
pub fn score(opp: Rps, us: Rps) -> (s: u32)
    ensures
        s == outcome(opp, us),
{
    match (opp, us) {
        (Rps::Rock, Rps::Paper) => 6,
        (Rps::Rock, Rps::Scissors) => 0,
        (Rps::Paper, Rps::Rock) => 0,
        (Rps::Paper, Rps::Scissors) => 6,
        (Rps::Scissors, Rps::Rock) => 6,
        (Rps::Scissors, Rps::Paper) => 0,
        _ => 3,
    }
}

/// The points for a round: those for its outcome and those for our move.
pub fn play(theirs: Rps, ours: Rps) -> (s: u32)
    ensures
        s == outcome(theirs, ours) + bonus(ours),
        1 <= s <= 9,
{
    let round_score = score(theirs, ours);
    let round_bonus: u32 = match ours {
        Rps::Rock => 1,
        Rps::Paper => 2,
        Rps::Scissors => 3,
    };
    round_score + round_bonus
}

/// The points that strategy `c` asks for: `X` to lose, `Y` to draw, `Z` to
/// win.
pub open spec fn wanted(c: char) -> nat {
    if c == 'X' {
        0
    } else if c == 'Y' {
        3
    } else {
        6
    }
}

/// The move that gives the outcome the strategy asks for.
pub fn move_for_strategy(opp: Rps, strategy: char) -> (m: Rps)
    requires
        strategy == 'X' || strategy == 'Y' || strategy == 'Z',
    ensures
        outcome(opp, m) == wanted(strategy),
{
    match (opp, strategy) {
        (Rps::Rock, 'X') => Rps::Scissors,
        (Rps::Rock, 'Y') => Rps::Rock,
        (Rps::Rock, 'Z') => Rps::Paper,
        (Rps::Scissors, 'X') => Rps::Paper,
        (Rps::Scissors, 'Y') => Rps::Scissors,
        (Rps::Scissors, 'Z') => Rps::Rock,
        (Rps::Paper, 'X') => Rps::Rock,
        (Rps::Paper, 'Y') => Rps::Paper,
        _ => Rps::Scissors,
    }
}

/// For each outcome there is one move that gives it.
pub proof fn lemma_one_move_per_outcome(opp: Rps, a: Rps, b: Rps)
    requires
        outcome(opp, a) == outcome(opp, b),
    ensures
        a == b,
{
}

/// Whether a round can be scored: its first letter is one of `A`, `B`, `C`
/// and its second one of `X`, `Y`, `Z`.
pub open spec fn is_round(r: (char, char)) -> bool {
    (r.0 == 'A' || r.0 == 'B' || r.0 == 'C') && (r.1 == 'X' || r.1 == 'Y' || r.1 == 'Z')
}

/// The points of the first `n` rounds with the second letter read as a move.
pub open spec fn total_as_moves(rounds: Seq<(char, char)>, n: nat) -> nat
    decreases n,
{
    if n == 0 {
        0
    } else {
        let (a, b) = rounds[n - 1];
        total_as_moves(rounds, (n - 1) as nat) + outcome(move_of(a), move_of(b)) + bonus(
            move_of(b),
        )
    }
}

/// The move of ours with which the round against `opp` ends as `strategy`
/// asks.
pub open spec fn planned(opp: Rps, strategy: char) -> Rps {
    choose|m: Rps| outcome(opp, m) == wanted(strategy)
}

/// The points of the first `n` rounds with the second letter read as the
/// outcome to reach.
pub open spec fn total_as_plans(rounds: Seq<(char, char)>, n: nat) -> nat
    decreases n,
{
    if n == 0 {
        0
    } else {
        let (a, b) = rounds[n - 1];
        total_as_plans(rounds, (n - 1) as nat) + wanted(b) + bonus(planned(move_of(a), b))
    }
}

/// Scores a list of rounds twice: with the second letter read as our move,
/// and with it read as the outcome to reach.
pub fn score_rounds(rounds: &Vec<(char, char)>) -> (totals: (u32, u32))
    requires
        forall|i: int| 0 <= i < rounds@.len() ==> is_round(#[trigger] rounds@[i]),
        9 * rounds@.len() <= u32::MAX,
    ensures
        totals.0 == total_as_moves(rounds@, rounds@.len()),
        totals.1 == total_as_plans(rounds@, rounds@.len()),
{
    let mut total_a: u32 = 0;
    let mut total_b: u32 = 0;
    let mut i: usize = 0;
    while i < rounds.len()
        invariant
            i <= rounds@.len(),
            forall|i: int| 0 <= i < rounds@.len() ==> is_round(#[trigger] rounds@[i]),
            9 * rounds@.len() <= u32::MAX,
            total_a == total_as_moves(rounds@, i as nat),
            total_b == total_as_plans(rounds@, i as nat),
            total_a <= 9 * i,
            total_b <= 9 * i,
        decreases rounds@.len() - i,
    {
        let (a, b) = rounds[i];
        assert(is_round(rounds@[i as int]));
        let theirs = parse_rps(a);
        let ours = parse_rps(b);
        let ours_2 = move_for_strategy(theirs, b);
        proof {
            lemma_one_move_per_outcome(theirs, ours_2, planned(theirs, b));
        }
        total_a += play(theirs, ours);
        total_b += play(theirs, ours_2);
        i += 1;
    }
    (total_a, total_b)
}

} // verus!
