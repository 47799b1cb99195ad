//! Stacks of crates and the crane that moves crates between them.

use vstd::prelude::*;
use crate::pattern::{group, group_text, groups_view, regex_groups, Pattern};
use crate::text::{decimal_value, read_decimal, chars_of};

verus! {

/// How the crane moves several crates: one at a time, or all at once.
#[derive(Debug, PartialEq, Eq, Structural, Clone, Copy)]
pub enum Mode {
    Single,
    Multi,
}

/// The stacks, each from its bottom crate to its top one, and the crane.
#[derive(Debug)]
pub struct Floor {
    pub mode: Mode,
    pub stacks: Vec<Vec<char>>,
}

/// The stacks as sequences.
pub open spec fn stacks_view(stacks: Seq<Vec<char>>) -> Seq<Seq<char>> {
    Seq::new(stacks.len(), |i: int| stacks[i]@)
}

/// The top `amount` crates of a stack in the order in which the crane
/// sets them down: top first where it moves them one at a time, as they
/// lie where it moves them at once.
pub open spec fn lifted(stack: Seq<char>, amount: int, mode: Mode) -> Seq<char> {
    let top = stack.subrange(stack.len() - amount, stack.len() as int);
    if mode == Mode::Multi {
        top
    } else {
        top.reverse()
    }
}

/// The stacks after the crane has moved `amount` crates from stack `from`
/// to stack `to`.
pub open spec fn moved(
    stacks: Seq<Seq<char>>,
    from: int,
    to: int,
    amount: int,
    mode: Mode,
) -> Seq<Seq<char>> {
    let less = stacks.update(from, stacks[from].subrange(0, stacks[from].len() - amount));
    less.update(to, less[to] + lifted(stacks[from], amount, mode))
}

impl Floor {
    /// The content of the stacks.
    pub open spec fn view(&self) -> Seq<Seq<char>> {
        stacks_view(self.stacks@)
    }

    /// Moves `amount` crates from stack `from` to stack `to`.
    pub fn transfer(&mut self, from: usize, to: usize, amount: usize)
        requires
            from < old(self)@.len(),
            to < old(self)@.len(),
            amount <= old(self)@[from as int].len(),
        ensures
            final(self).mode == old(self).mode,
            final(self)@ == moved(old(self)@, from as int, to as int, amount as int, old(self).mode),
    {
        let ghost start = self@;
        let ghost source = start[from as int];
        let mut inter: Vec<char> = Vec::new();
        let mut n: usize = 0;
        while n < amount
            invariant
                n <= amount <= source.len(),
                from < self.stacks@.len(),
                self.mode == old(self).mode,
                self.stacks@.len() == start.len(),
                forall|k: int| 0 <= k < start.len() && k != from ==> (#[trigger] self.stacks@[k])@ == start[k],
                self.stacks@[from as int]@ == source.subrange(0, source.len() - n),
                inter@ == source.subrange(source.len() - n, source.len() as int).reverse(),
            decreases amount - n,
        {
            let ghost before = inter@;
            let c = self.stacks[from].pop();
            match c {
                Some(c) => {
                    inter.push(c);
                },
                None => {},
            }
            n += 1;
            proof {
                assert(self.stacks@[from as int]@ =~= source.subrange(0, source.len() - n));
                assert(inter@ =~= source.subrange(source.len() - n, source.len() as int).reverse());
            }
        }
        if self.mode == Mode::Multi {
            let ghost top_first = inter@;
            let mut back: Vec<char> = Vec::new();
            let mut k: usize = inter.len();
            while k > 0
                invariant
                    k <= inter@.len(),
                    inter@ == top_first,
                    back@ == top_first.reverse().subrange(0, inter@.len() - k),
                decreases k,
            {
                k -= 1;
                back.push(inter[k]);
                assert(back@ =~= top_first.reverse().subrange(0, inter@.len() - k));
            }
            assert(back@ =~= top_first.reverse());
            assert(top_first.reverse() =~= source.subrange(source.len() - amount, source.len() as int));
            inter = back;
        }
        assert(inter@ == lifted(source, amount as int, self.mode));
        let ghost less = stacks_view(self.stacks@);
        self.stacks[to].append(&mut inter);
        proof {
            assert(less =~= start.update(from as int, source.subrange(0, source.len() - amount)));
            assert(self@ =~= less.update(
                to as int,
                less[to as int] + lifted(source, amount as int, self.mode),
            ));
        }
    }

    /// The top crate of each stack.
    pub fn describe(&self) -> (out: String)
        requires
            forall|i: int| 0 <= i < self@.len() ==> (#[trigger] self@[i]).len() > 0,
        ensures
            out@ == Seq::new(self@.len(), |i: int| self@[i].last()),
    {
        let mut out = String::new();
        let mut i: usize = 0;
        while i < self.stacks.len()
            invariant
                i <= self.stacks@.len(),
                forall|i: int| 0 <= i < self@.len() ==> (#[trigger] self@[i]).len() > 0,
                out@ == Seq::new(i as nat, |k: int| self@[k].last()),
            decreases self.stacks@.len() - i,
        {
            let s = &self.stacks[i];
            assert(self@[i as int].len() > 0);
            out.push(s[s.len() - 1]);
            i += 1;
            assert(out@ =~= Seq::new(i as nat, |k: int| self@[k].last()));
        }
        out
    }

    /// Whether every stack holds a crate.
    pub fn all_full(&self) -> (b: bool)
        ensures
            b == (forall|i: int| 0 <= i < self@.len() ==> (#[trigger] self@[i]).len() > 0),
    {
        let mut i: usize = 0;
        while i < self.stacks.len()
            invariant
                i <= self.stacks@.len(),
                forall|k: int| 0 <= k < i ==> (#[trigger] self@[k]).len() > 0,
            decreases self.stacks@.len() - i,
        {
            if self.stacks[i].len() == 0 {
                assert(self@[i as int].len() == 0);
                return false;
            }
            i += 1;
        }
        true
    }
}

/// A move of the crane: how many crates, from which stack and to which,
/// the stacks counted from zero.
pub struct Move {
    pub amount: usize,
    pub from: usize,
    pub to: usize,
}

/// The pattern of a line that orders a move.
pub const MOVE_PATTERN: &'static str = "^move (\\d+) from (\\d+) to (\\d+)$";

/// The number that group `n` writes, where there is such a group, it took
/// part in the match and the number is at most `max`.
pub open spec fn group_count(groups: Seq<Option<Seq<char>>>, n: int, max: nat) -> Option<nat> {
    match group_text(groups, n) {
        Some(text) => decimal_value(text, max),
        None => None,
    }
}

/// The move that the groups of a matched line order: the amount in group
/// one, and in groups two and three the stacks, which the line counts
/// from one.
pub open spec fn move_of(found: Option<Seq<Option<Seq<char>>>>) -> Option<Move> {
    match found {
        Some(groups) => {
            let amount = group_count(groups, 1, usize::MAX as nat);
            let from = group_count(groups, 2, usize::MAX as nat);
            let to = group_count(groups, 3, usize::MAX as nat);
            if amount is Some && from is Some && to is Some && from->0 >= 1 && to->0 >= 1 {
                Some(
                    Move {
                        amount: amount->0 as usize,
                        from: (from->0 - 1) as usize,
                        to: (to->0 - 1) as usize,
                    },
                )
            } else {
                None
            }
        },
        None => None,
    }
}

fn count_in(groups: &Vec<Option<String>>, n: usize) -> (r: Option<usize>)
    ensures
        match group_count(groups_view(Some(*groups))->0, n as int, usize::MAX as nat) {
            Some(v) => r == Some(v as usize),
            None => r is None,
        },
{
    match group(groups, n) {
        Some(text) => {
            let chars = chars_of(text);
            assert(chars@.skip(0) =~= text@);
            match read_decimal(&chars, 0, usize::MAX as u64) {
                Some(v) => Some(v as usize),
                None => None,
            }
        },
        None => None,
    }
}

/// Reads a move from the groups of a matched line.
pub fn move_from_groups(found: Option<Vec<Option<String>>>) -> (r: Option<Move>)
    ensures
        r == move_of(groups_view(found)),
{
    match found {
        Some(groups) => {
            let amount = count_in(&groups, 1);
            let from = count_in(&groups, 2);
            let to = count_in(&groups, 3);
            match (amount, from, to) {
                (Some(amount), Some(from), Some(to)) => {
                    if from >= 1 && to >= 1 {
                        Some(Move { amount, from: from - 1, to: to - 1 })
                    } else {
                        None
                    }
                },
                _ => None,
            }
        },
        None => None,
    }
}

/// Reads a move from a line with the given pattern.
pub fn read_move(pattern: &Pattern, line: &str) -> (r: Option<Move>)
    ensures
        r == move_of(regex_groups(pattern.text(), line@)),
{
    move_from_groups(pattern.captures(line))
}

/// Whether the crane can make the move on the stacks.
pub open spec fn can_move(stacks: Seq<Seq<char>>, m: Move) -> bool {
    m.from < stacks.len() && m.to < stacks.len() && m.amount <= stacks[m.from as int].len()
}

/// The stacks after the first `n` moves, or `None` where the crane cannot
/// make one of them.
pub open spec fn after_moves(stacks: Seq<Seq<char>>, moves: Seq<Move>, n: nat, mode: Mode) -> Option<
    Seq<Seq<char>>,
>
    decreases n,
{
    if n == 0 {
        Some(stacks)
    } else {
        match after_moves(stacks, moves, (n - 1) as nat, mode) {
            Some(before) => if can_move(before, moves[n - 1]) {
                Some(
                    moved(
                        before,
                        moves[n - 1].from as int,
                        moves[n - 1].to as int,
                        moves[n - 1].amount as int,
                        mode,
                    ),
                )
            } else {
                None
            },
            None => None,
        }
    }
}

/// Moves that fail after `k` of them fail after more.
pub proof fn lemma_moves_fail(stacks: Seq<Seq<char>>, moves: Seq<Move>, k: nat, n: nat, mode: Mode)
    requires
        after_moves(stacks, moves, k, mode) is None,
        k <= n,
    ensures
        after_moves(stacks, moves, n, mode) is None,
    decreases n - k,
{
    if k < n {
        lemma_moves_fail(stacks, moves, k, (n - 1) as nat, mode);
    }
}

/// Makes the moves one after the other. Returns `false`, with the floor
/// as it was before the move that failed, where the crane cannot make one.
pub fn rearrange(floor: &mut Floor, moves: &Vec<Move>) -> (done: bool)
    ensures
        final(floor).mode == old(floor).mode,
        done == after_moves(old(floor)@, moves@, moves@.len(), old(floor).mode) is Some,
        done ==> final(floor)@ == after_moves(old(floor)@, moves@, moves@.len(), old(floor).mode)->0,
{
    let mut i: usize = 0;
    while i < moves.len()
        invariant
            i <= moves@.len(),
            floor.mode == old(floor).mode,
            after_moves(old(floor)@, moves@, i as nat, old(floor).mode) == Some(floor@),
        decreases moves@.len() - i,
    {
        let m = &moves[i];
        if m.from >= floor.stacks.len() || m.to >= floor.stacks.len() || m.amount
            > floor.stacks[m.from].len() {
            proof {
                assert(!can_move(floor@, moves@[i as int]));
                lemma_moves_fail(old(floor)@, moves@, (i + 1) as nat, moves@.len(), old(floor).mode);
            }
            return false;
        }
        floor.transfer(m.from, m.to, m.amount);
        i += 1;
    }
    true
}

/// Whether the drawing shows a crate on stack `x` in its line `row`: the
/// line is long enough and the character at the stack's place is no blank.
pub open spec fn drawn(lines: Seq<Vec<char>>, x: int, row: int) -> bool {
    0 <= row < lines.len() && 4 * x + 1 < lines[row]@.len() && lines[row]@[4 * x + 1] != ' '
}

/// The crates of stack `x` that the drawing shows in the lines from `from`
/// up to the line above its last, the lowest line first. The last line of
/// the drawing names the stacks and shows no crate.
pub open spec fn drawn_stack(lines: Seq<Vec<char>>, x: int, from: int) -> Seq<char>
    decreases lines.len() - 1 - from,
{
    if from >= lines.len() - 1 || from < 0 {
        Seq::empty()
    } else if drawn(lines, x, from) {
        drawn_stack(lines, x, from + 1).push(lines[from]@[4 * x + 1])
    } else {
        drawn_stack(lines, x, from + 1)
    }
}

/// Every line of the drawing above its last is long enough to show stack
/// `x`.
pub open spec fn shows_stack(lines: Seq<Vec<char>>, x: int) -> bool {
    forall|row: int| 0 <= row < lines.len() - 1 ==> 4 * x + 1 < (#[trigger] lines[row])@.len()
}

/// Reads the stack `x` from a drawing. Returns `None` where a line of the
/// drawing is too short to show the stack.
pub fn read_stack(lines: &Vec<Vec<char>>, x: usize) -> (r: Option<Vec<char>>)
    requires
        lines@.len() > 0,
        4 * x + 1 <= usize::MAX,
    ensures
        r is Some == shows_stack(lines@, x as int),
        r matches Some(stack) ==> stack@ == drawn_stack(lines@, x as int, 0),
{
    let mut stack: Vec<char> = Vec::new();
    let mut row: usize = lines.len() - 1;
    while row > 0
        invariant
            row <= lines@.len() - 1,
            4 * x + 1 <= usize::MAX,
            stack@ == drawn_stack(lines@, x as int, row as int),
            forall|k: int| row <= k < lines@.len() - 1 ==> 4 * x + 1 < (#[trigger] lines@[k])@.len(),
        decreases row,
    {
        row -= 1;
        let line = &lines[row];
        if x * 4 + 1 >= line.len() {
            return None;
        }
        let c = line[x * 4 + 1];
        if c != ' ' {
            stack.push(c);
        }
    }
    Some(stack)
}

} // verus!
