//! Monkeys that inspect items, grow the worry about them and throw them
//! to one another.

use crate::text::{find_from, first_index, plus_value, read_plus, same_text, slice};
use vstd::prelude::*;

verus! {

/// What a monkey's inspection does to the worry about an item.
#[derive(Clone, Copy)]
pub enum MonkeyOp {
    Square,
    Add(usize),
    Multiply(usize),
}

/// An item: the monkey that holds it and the worry about it.
#[derive(Clone, Copy)]
pub struct Item {
    pub owner: usize,
    pub worry: usize,
}

/// A monkey: how many items it has inspected, its number, its operation,
/// and its route: the divisor of its test and the monkeys to throw to
/// where the test holds and where it fails.
#[derive(Clone, Copy)]
pub struct Monkey {
    pub inspected_count: usize,
    pub num: usize,
    pub op: MonkeyOp,
    pub route: [usize; 3],
}

/// Worry above which a level is reduced.
pub const HIGH: usize = 1_000_000_000;

/// The worry after the inspection.
pub open spec fn inspected(op: MonkeyOp, worry: int) -> int {
    match op {
        MonkeyOp::Square => worry * worry,
        MonkeyOp::Add(n) => worry + n,
        MonkeyOp::Multiply(n) => worry * n,
    }
}

/// The worry after relief: divided by `divisor` unless that is one, and
/// then, where it is above `HIGH`, reduced to its remainder by `co_prime`.
pub open spec fn relieved(level: int, divisor: int, co_prime: int) -> int {
    let eased = if divisor != 1 {
        level / divisor
    } else {
        level
    };
    if eased > HIGH {
        eased % co_prime
    } else {
        eased
    }
}

/// The new worry about an item that the monkey inspects.
pub open spec fn new_worry(m: Monkey, worry: int, divisor: int, co_prime: int) -> int {
    relieved(inspected(m.op, worry), divisor, co_prime)
}

/// Whether the monkey can handle an item of the given worry: the
/// inspection stays within `usize` and no division is by zero.
pub open spec fn can_handle(m: Monkey, worry: int, divisor: int, co_prime: int) -> bool {
    &&& inspected(m.op, worry) <= usize::MAX
    &&& divisor != 0
    &&& m.route[0] != 0
    &&& (if divisor != 1 {
        inspected(m.op, worry) / divisor
    } else {
        inspected(m.op, worry)
    }) > HIGH ==> co_prime != 0
}

/// The item after the monkey has handled it, where it holds it.
pub open spec fn handled(m: Monkey, item: Item, divisor: int, co_prime: int) -> Item {
    if item.owner == m.num {
        let level = new_worry(m, item.worry as int, divisor, co_prime);
        Item {
            owner: if level % (m.route[0] as int) == 0 {
                m.route[1]
            } else {
                m.route[2]
            },
            worry: level as usize,
        }
    } else {
        item
    }
}

/// How many of the first `n` items the monkey holds.
pub open spec fn held(items: Seq<Item>, num: usize, n: nat) -> nat
    decreases n,
{
    if n == 0 {
        0
    } else {
        held(items, num, (n - 1) as nat) + (if items[n - 1].owner == num {
            1nat
        } else {
            0nat
        })
    }
}

/// Whether the monkey can handle each of the items it holds.
pub open spec fn can_run(m: Monkey, items: Seq<Item>, divisor: int, co_prime: int) -> bool {
    forall|i: int|
        0 <= i < items.len() && (#[trigger] items[i]).owner == m.num ==> can_handle(
            m,
            items[i].worry as int,
            divisor,
            co_prime,
        )
}

impl Monkey {
    /// Inspects each item the monkey holds, in the order of the items, and
    /// throws it on. Returns `false`, with some items handled, where the
    /// monkey cannot handle one of them or has counted too many.
    pub fn run(&mut self, divisor: usize, co_prime: usize, items: &mut Vec<Item>) -> (done: bool)
        ensures
            final(self).num == old(self).num,
            final(self).op == old(self).op,
            final(self).route == old(self).route,
            final(items)@.len() == old(items)@.len(),
            done == (can_run(*old(self), old(items)@, divisor as int, co_prime as int) && old(
                self,
            ).inspected_count + held(old(items)@, old(self).num, old(items)@.len()) <= usize::MAX),
            done ==> final(self).inspected_count == old(self).inspected_count + held(
                old(items)@,
                old(self).num,
                old(items)@.len(),
            ),
            done ==> forall|i: int|
                0 <= i < old(items)@.len() ==> #[trigger] final(items)@[i] == handled(
                    *old(self),
                    old(items)@[i],
                    divisor as int,
                    co_prime as int,
                ),
    {
        let ghost me = *self;
        let ghost start = items@;
        let mut i: usize = 0;
        while i < items.len()
            invariant
                i <= items@.len(),
                items@.len() == start.len(),
                self.num == me.num,
                self.op == me.op,
                self.route == me.route,
                me == *old(self),
                start == old(items)@,
                self.inspected_count == me.inspected_count + held(start, me.num, i as nat),
                forall|k: int|
                    0 <= k < i && (#[trigger] start[k]).owner == me.num ==> can_handle(
                        me,
                        start[k].worry as int,
                        divisor as int,
                        co_prime as int,
                    ),
                forall|k: int|
                    0 <= k < i ==> #[trigger] items@[k] == handled(
                        me,
                        start[k],
                        divisor as int,
                        co_prime as int,
                    ),
                forall|k: int| i <= k < start.len() ==> #[trigger] items@[k] == start[k],
            decreases items@.len() - i,
        {
            let m = items[i];
            if m.owner == self.num {
                if self.inspected_count == usize::MAX {
                    proof {
                        lemma_held_grows(start, me.num, (i + 1) as nat, start.len());
                    }
                    return false;
                }
                self.inspected_count += 1;
                let level = match self.op {
                    MonkeyOp::Square => m.worry.checked_mul(m.worry),
                    MonkeyOp::Add(n) => m.worry.checked_add(n),
                    MonkeyOp::Multiply(n) => m.worry.checked_mul(n),
                };
                let mut new_level = match level {
                    Some(v) => v,
                    None => {
                        assert(!can_handle(me, start[i as int].worry as int, divisor as int, co_prime as int));
                        return false;
                    },
                };
                if divisor == 0 || self.route[0] == 0 {
                    assert(!can_handle(me, start[i as int].worry as int, divisor as int, co_prime as int));
                    return false;
                }
                if divisor != 1 {
                    new_level = new_level / divisor;
                }
                if new_level > 1_000_000_000 {
                    if co_prime == 0 {
                        assert(!can_handle(
                            me,
                            start[i as int].worry as int,
                            divisor as int,
                            co_prime as int,
                        ));
                        return false;
                    }
                    new_level = new_level % co_prime;
                }
                let target = if new_level % self.route[0] == 0 {
                    self.route[1]
                } else {
                    self.route[2]
                };
                items[i] = Item { owner: target, worry: new_level };
            }
            i += 1;
        }
        true
    }
}

/// A monkey does not hold fewer of more items.
pub proof fn lemma_held_grows(items: Seq<Item>, num: usize, k: nat, n: nat)
    requires
        k <= n,
    ensures
        held(items, num, k) <= held(items, num, n),
    decreases n - k,
{
    if k < n {
        lemma_held_grows(items, num, k, (n - 1) as nat);
    }
}

/// The monkey after a turn that it can finish.
pub open spec fn after_turn(m: Monkey, items: Seq<Item>) -> Monkey {
    Monkey { inspected_count: (m.inspected_count + held(items, m.num, items.len())) as usize, ..m }
}

/// The items after the monkey's turn.
pub open spec fn thrown(m: Monkey, items: Seq<Item>, divisor: int, co_prime: int) -> Seq<Item> {
    Seq::new(items.len(), |i: int| handled(m, items[i], divisor, co_prime))
}

/// Whether the monkey can finish its turn.
pub open spec fn can_turn(m: Monkey, items: Seq<Item>, divisor: int, co_prime: int) -> bool {
    can_run(m, items, divisor, co_prime) && m.inspected_count + held(items, m.num, items.len())
        <= usize::MAX
}

/// The monkeys and the items after the first `n` monkeys have taken their
/// turns, or `None` where one of them cannot finish its turn.
pub open spec fn after_turns(
    monkeys: Seq<Monkey>,
    items: Seq<Item>,
    divisor: int,
    co_prime: int,
    n: nat,
) -> Option<(Seq<Monkey>, Seq<Item>)>
    decreases n,
{
    if n == 0 {
        Some((monkeys, items))
    } else {
        match after_turns(monkeys, items, divisor, co_prime, (n - 1) as nat) {
            Some((ms, its)) => if can_turn(ms[n - 1], its, divisor, co_prime) {
                Some(
                    (
                        ms.update(n - 1, after_turn(ms[n - 1], its)),
                        thrown(ms[n - 1], its, divisor, co_prime),
                    ),
                )
            } else {
                None
            },
            None => None,
        }
    }
}

/// Turns that fail among the first `k` monkeys fail among more.
pub proof fn lemma_turns_fail(
    monkeys: Seq<Monkey>,
    items: Seq<Item>,
    divisor: int,
    co_prime: int,
    k: nat,
    n: nat,
)
    requires
        after_turns(monkeys, items, divisor, co_prime, k) is None,
        k <= n,
    ensures
        after_turns(monkeys, items, divisor, co_prime, n) is None,
    decreases n - k,
{
    if k < n {
        lemma_turns_fail(monkeys, items, divisor, co_prime, k, (n - 1) as nat);
    }
}

/// A troop of monkeys and the items they hold.
pub struct MonkeyTroop {
    pub divisor: usize,
    pub co_prime: usize,
    pub items: Vec<Item>,
    pub monkeys: Vec<Monkey>,
}

impl MonkeyTroop {
    /// Lets each monkey take its turn, in the order of the monkeys.
    /// Returns `false` where a monkey cannot finish its turn.
    pub fn run(&mut self) -> (done: bool)
        ensures
            final(self).divisor == old(self).divisor,
            final(self).co_prime == old(self).co_prime,
            final(self).monkeys@.len() == old(self).monkeys@.len(),
            final(self).items@.len() == old(self).items@.len(),
            done == after_turns(
                old(self).monkeys@,
                old(self).items@,
                old(self).divisor as int,
                old(self).co_prime as int,
                old(self).monkeys@.len(),
            ) is Some,
            done ==> after_turns(
                old(self).monkeys@,
                old(self).items@,
                old(self).divisor as int,
                old(self).co_prime as int,
                old(self).monkeys@.len(),
            ) == Some((final(self).monkeys@, final(self).items@)),
    {
        let ghost monkeys = self.monkeys@;
        let ghost items = self.items@;
        let ghost d = self.divisor as int;
        let ghost c = self.co_prime as int;
        let mut n: usize = 0;
        while n < self.monkeys.len()
            invariant
                n <= self.monkeys@.len(),
                self.divisor == old(self).divisor,
                self.co_prime == old(self).co_prime,
                d == self.divisor,
                c == self.co_prime,
                monkeys == old(self).monkeys@,
                items == old(self).items@,
                self.monkeys@.len() == monkeys.len(),
                self.items@.len() == items.len(),
                after_turns(monkeys, items, d, c, n as nat) == Some((self.monkeys@, self.items@)),
            decreases self.monkeys@.len() - n,
        {
            let mut monkey = self.monkeys[n];
            let ghost before = self.items@;
            let ghost turned = self.monkeys@[n as int];
            let done = monkey.run(self.divisor, self.co_prime, &mut self.items);
            self.monkeys[n] = monkey;
            if !done {
                proof {
                    assert(!can_turn(turned, before, d, c));
                    lemma_turns_fail(monkeys, items, d, c, (n + 1) as nat, monkeys.len());
                }
                return false;
            }
            proof {
                assert(self.items@ =~= thrown(turned, before, d, c));
                assert(monkey == after_turn(turned, before));
            }
            n += 1;
        }
        true
    }

    /// The product of the two largest counts of inspected items, or `None`
    /// for fewer than two monkeys or where the product does not fit.
    pub fn monkey_business(&self) -> (r: Option<usize>)
        ensures
            self.monkeys@.len() < 2 ==> r is None,
            self.monkeys@.len() >= 2 && (forall|i: int, j: int|
                0 <= i < self.monkeys@.len() && 0 <= j < self.monkeys@.len() ==> (
                #[trigger] self.monkeys@[i]).inspected_count * (
                #[trigger] self.monkeys@[j]).inspected_count <= usize::MAX) ==> r is Some,
            r matches Some(v) ==> exists|i: int, j: int|
                0 <= i < self.monkeys@.len() && 0 <= j < self.monkeys@.len() && i != j && v
                    == self.monkeys@[i].inspected_count * self.monkeys@[j].inspected_count
                    && forall|k: int|
                    0 <= k < self.monkeys@.len() && k != i ==> (#[trigger] self.monkeys@[k]).inspected_count
                        <= self.monkeys@[j].inspected_count && self.monkeys@[j].inspected_count
                        <= self.monkeys@[i].inspected_count,
    {
        if self.monkeys.len() < 2 {
            return None;
        }
        let mut first: usize = 0;
        let mut k: usize = 1;
        while k < self.monkeys.len()
            invariant
                1 <= k <= self.monkeys@.len(),
                first < k,
                forall|a: int|
                    0 <= a < k ==> (#[trigger] self.monkeys@[a]).inspected_count
                        <= self.monkeys@[first as int].inspected_count,
            decreases self.monkeys@.len() - k,
        {
            if self.monkeys[k].inspected_count > self.monkeys[first].inspected_count {
                first = k;
            }
            k += 1;
        }
        let mut second: usize = if first == 0 {
            1
        } else {
            0
        };
        let mut k: usize = 0;
        while k < self.monkeys.len()
            invariant
                k <= self.monkeys@.len(),
                second < self.monkeys@.len(),
                first < self.monkeys@.len(),
                second != first,
                forall|a: int|
                    0 <= a < self.monkeys@.len() ==> (#[trigger] self.monkeys@[a]).inspected_count
                        <= self.monkeys@[first as int].inspected_count,
                forall|a: int|
                    0 <= a < k && a != first ==> (#[trigger] self.monkeys@[a]).inspected_count
                        <= self.monkeys@[second as int].inspected_count,
            decreases self.monkeys@.len() - k,
        {
            if k != first && self.monkeys[k].inspected_count > self.monkeys[second].inspected_count {
                second = k;
            }
            k += 1;
        }
        self.monkeys[first].inspected_count.checked_mul(self.monkeys[second].inspected_count)
    }
}

/// The numbers that a list writes: one number, or several with a comma
/// and a blank between them.
pub open spec fn numbers_of(list: Seq<char>) -> Option<Seq<usize>>
    decreases list.len(),
{
    match first_index(list, ',') {
        None => match plus_value(list, usize::MAX as nat) {
            Some(n) => Some(seq![n as usize]),
            None => None,
        },
        Some(i) => if 0 <= i && i + 2 <= list.len() && list[i + 1] == ' ' {
            match (plus_value(list.take(i), usize::MAX as nat), numbers_of(list.skip(i + 2))) {
                (Some(n), Some(rest)) => Some(seq![n as usize] + rest),
                _ => None,
            }
        } else {
            None
        },
    }
}

/// Reads the numbers of a list.
pub fn read_list(list: &Vec<char>) -> (r: Option<Vec<usize>>)
    ensures
        match numbers_of(list@) {
            Some(ns) => r matches Some(v) && v@ == ns,
            None => r is None,
        },
{
    let mut out: Vec<usize> = Vec::new();
    let mut start: usize = 0;
    let total = list.len();
    assert(list@.skip(0) =~= list@);
    loop
        invariant
            start <= list@.len(),
            total == list@.len(),
            numbers_of(list@) == match numbers_of(list@.skip(start as int)) {
                Some(rest) => Some(out@ + rest),
                None => None,
            },
        decreases list@.len() - start,
    {
        let ghost rest = list@.skip(start as int);
        let ghost before = out@;
        match find_from(list, ',', start) {
            None => {
                let token = slice(list, start, total);
                assert(token@ =~= rest);
                match read_plus(&token) {
                    Some(n) => {
                        out.push(n);
                        assert(out@ =~= before + seq![n]);
                        return Some(out);
                    },
                    None => {
                        return None;
                    },
                }
            },
            Some(i) => {
                let ghost at = i - start;
                if total - i < 2 || list[i + 1] != ' ' {
                    proof {
                        if at + 2 <= rest.len() {
                            assert(rest[at + 1] == list@[i + 1]);
                        }
                    }
                    return None;
                }
                proof {
                    assert(rest[at + 1] == list@[i + 1]);
                    assert(rest.skip(at + 2) =~= list@.skip(i + 2));
                }
                let token = slice(list, start, i);
                assert(token@ =~= rest.take(at));
                match read_plus(&token) {
                    Some(n) => {
                        out.push(n);
                        proof {
                            assert(out@ =~= before + seq![n]);
                            match numbers_of(list@.skip(i + 2)) {
                                Some(more) => {
                                    assert(before + (seq![n] + more) =~= out@ + more);
                                },
                                None => {},
                            }
                        }
                        start = i + 2;
                    },
                    None => {
                        return None;
                    },
                }
            },
        }
    }
}

/// The number that stands behind the first `n` characters of a line.
pub open spec fn number_behind(line: Seq<char>, n: nat) -> Option<usize> {
    if line.len() >= n {
        match plus_value(line.skip(n as int), usize::MAX as nat) {
            Some(v) => Some(v as usize),
            None => None,
        }
    } else {
        None
    }
}

/// Reads the number that stands behind the first `n` characters of a
/// line.
pub fn read_behind(line: &Vec<char>, n: usize) -> (r: Option<usize>)
    ensures
        r == number_behind(line@, n as nat),
{
    if line.len() < n {
        return None;
    }
    let rest = slice(line, n, line.len());
    assert(rest@ =~= line@.skip(n as int));
    read_plus(&rest)
}

/// The words of an operation that squares.
pub open spec fn square_words() -> Seq<char> {
    seq!['o', 'l', 'd', ' ', '*', ' ', 'o', 'l', 'd']
}

/// The words with which an operation that adds begins.
pub open spec fn add_words() -> Seq<char> {
    seq!['o', 'l', 'd', ' ', '+', ' ']
}

/// The operation that a line writes behind its first nineteen
/// characters: `old * old` squares, `old + ` and a number adds the
/// number, and six characters of any other kind and a number multiply by
/// the number.
pub open spec fn op_of(line: Seq<char>) -> Option<MonkeyOp> {
    if line.len() < 19 {
        None
    } else if line.skip(19) == square_words() {
        Some(MonkeyOp::Square)
    } else {
        match number_behind(line.skip(19), 6) {
            Some(o) => if line.skip(19).take(6) == add_words() {
                Some(MonkeyOp::Add(o))
            } else {
                Some(MonkeyOp::Multiply(o))
            },
            None => None,
        }
    }
}

/// Reads an operation.
pub fn read_op(line: &Vec<char>) -> (r: Option<MonkeyOp>)
    ensures
        r == op_of(line@),
{
    if line.len() < 19 {
        return None;
    }
    let words = slice(line, 19, line.len());
    assert(words@ =~= line@.skip(19));
    let square = vec!['o', 'l', 'd', ' ', '*', ' ', 'o', 'l', 'd'];
    assert(square@ =~= square_words());
    if same_text(&words, &square) {
        return Some(MonkeyOp::Square);
    }
    match read_behind(&words, 6) {
        Some(o) => {
            let head = slice(&words, 0, 6);
            assert(head@ =~= words@.take(6));
            let add = vec!['o', 'l', 'd', ' ', '+', ' '];
            assert(add@ =~= add_words());
            if same_text(&head, &add) {
                Some(MonkeyOp::Add(o))
            } else {
                Some(MonkeyOp::Multiply(o))
            }
        },
        None => None,
    }
}

/// The monkey that six lines write, with the worries of its items: the
/// second line holds the items behind its first eighteen characters, the
/// third the operation, the fourth the divisor behind its first
/// twenty-one characters, and the fifth and sixth behind their first
/// twenty-nine and thirty characters the monkeys to throw to.
#[verifier::opaque]
pub open spec fn monkey_of(block: Seq<Seq<char>>, m: usize) -> Option<(Monkey, Seq<usize>)> {
    if block[1].len() < 18 {
        None
    } else {
        match (
            numbers_of(block[1].skip(18)),
            op_of(block[2]),
            number_behind(block[3], 21),
            number_behind(block[4], 29),
            number_behind(block[5], 30),
        ) {
            (Some(worries), Some(op), Some(test), Some(a), Some(b)) => Some(
                (Monkey { inspected_count: 0, num: m, op, route: [test, a, b] }, worries),
            ),
            _ => None,
        }
    }
}

/// Reads a monkey and the worries of its items.
pub fn read_monkey(block: &Vec<Vec<char>>, m: usize) -> (r: Option<(Monkey, Vec<usize>)>)
    requires
        block@.len() == 6,
    ensures
        match monkey_of(Seq::new(6, |i: int| block@[i]@), m) {
            Some(found) => r matches Some(got) && got.0 == found.0 && got.1@ == found.1,
            None => r is None,
        },
{
    reveal(monkey_of);
    let ghost lines = Seq::new(6, |i: int| block@[i]@);
    assert(lines[1] == block@[1]@ && lines[2] == block@[2]@ && lines[3] == block@[3]@ && lines[4]
        == block@[4]@ && lines[5] == block@[5]@);
    if block[1].len() < 18 {
        return None;
    }
    let list = slice(&block[1], 18, block[1].len());
    assert(list@ =~= lines[1].skip(18));
    let worries = match read_list(&list) {
        Some(w) => w,
        None => {
            return None;
        },
    };
    let op = match read_op(&block[2]) {
        Some(op) => op,
        None => {
            return None;
        },
    };
    match (read_behind(&block[3], 21), read_behind(&block[4], 29), read_behind(&block[5], 30)) {
        (Some(test), Some(a), Some(b)) => Some(
            (Monkey { inspected_count: 0, num: m, op, route: [test, a, b] }, worries),
        ),
        _ => None,
    }
}

/// The lines among the first `n` that are not empty.
pub open spec fn kept(lines: Seq<Vec<char>>, n: nat) -> Seq<Seq<char>>
    decreases n,
{
    if n == 0 {
        Seq::empty()
    } else if lines[n - 1]@.len() == 0 {
        kept(lines, (n - 1) as nat)
    } else {
        kept(lines, (n - 1) as nat).push(lines[n - 1]@)
    }
}

/// The six lines of the monkey number `m`.
pub open spec fn block_of(texts: Seq<Seq<char>>, m: int) -> Seq<Seq<char>> {
    Seq::new(6, |i: int| texts[6 * m + i])
}

/// The items of the first `k` monkeys, monkey by monkey.
pub open spec fn items_of(texts: Seq<Seq<char>>, k: nat) -> Seq<Item>
    decreases k,
{
    if k == 0 {
        Seq::empty()
    } else {
        let worries = monkey_of(block_of(texts, k - 1), (k - 1) as usize).unwrap().1;
        items_of(texts, (k - 1) as nat) + Seq::new(
            worries.len(),
            |i: int| Item { owner: (k - 1) as usize, worry: worries[i] },
        )
    }
}

/// The product of the divisors of the first `k` monkeys.
pub open spec fn product_of(texts: Seq<Seq<char>>, k: nat) -> int
    decreases k,
{
    if k == 0 {
        1
    } else {
        product_of(texts, (k - 1) as nat) * monkey_of(
            block_of(texts, k - 1),
            (k - 1) as usize,
        ).unwrap().0.route[0]
    }
}

/// Whether lines write a troop: those that are not empty come in sixes,
/// each six write a monkey, and the product of the divisors of any
/// number of the first monkeys can be counted.
pub open spec fn writes_troop(texts: Seq<Seq<char>>) -> bool {
    &&& texts.len() % 6 == 0
    &&& forall|m: int|
        0 <= m < texts.len() / 6 ==> #[trigger] monkey_of(block_of(texts, m), m as usize) is Some
    &&& forall|k: nat| k <= texts.len() / 6 ==> #[trigger] product_of(texts, k) <= usize::MAX
}

/// The six lines from the line `6 * m` on.
fn take_block(all: &Vec<Vec<char>>, m: usize) -> (block: Vec<Vec<char>>)
    requires
        6 * m + 6 <= all@.len(),
    ensures
        block@.len() == 6,
        forall|k: int| 0 <= k < 6 ==> (#[trigger] block@[k])@ == all@[6 * m + k]@,
{
    let total = all.len();
    let mut block: Vec<Vec<char>> = Vec::new();
    let mut j: usize = 0;
    while j < 6
        invariant
            j <= 6,
            6 * m + 6 <= all@.len(),
            total == all@.len(),
            block@.len() == j,
            forall|k: int| 0 <= k < j ==> (#[trigger] block@[k])@ == all@[6 * m + k]@,
        decreases 6 - j,
    {
        let line = &all[6 * m + j];
        let copy = slice(line, 0, line.len());
        assert(copy@ =~= line@);
        block.push(copy);
        j += 1;
    }
    block
}

/// Adds an item of the monkey `owner` for each of the worries.
fn push_items(items: &mut Vec<Item>, owner: usize, worries: &Vec<usize>)
    ensures
        final(items)@ == old(items)@ + Seq::new(
            worries@.len(),
            |i: int| Item { owner, worry: worries@[i] },
        ),
{
    let ghost held = items@;
    let mut w: usize = 0;
    while w < worries.len()
        invariant
            w <= worries@.len(),
            items@ == held + Seq::new(w as nat, |i: int| Item { owner, worry: worries@[i] }),
        decreases worries@.len() - w,
    {
        items.push(Item { owner, worry: worries[w] });
        w += 1;
        assert(items@ =~= held + Seq::new(w as nat, |i: int| Item { owner, worry: worries@[i] }));
    }
}

/// Reads a troop with the divisor given: the monkeys in the order of the
/// lines, their items monkey by monkey, and the product of the divisors
/// of their tests.
pub fn read_troop(lines: &Vec<Vec<char>>, divisor: usize) -> (r: Option<MonkeyTroop>)
    ensures
        r is Some == writes_troop(kept(lines@, lines@.len())),
        r matches Some(troop) ==> {
            let texts = kept(lines@, lines@.len());
            &&& troop.divisor == divisor
            &&& troop.monkeys@.len() == texts.len() / 6
            &&& forall|m: int|
                0 <= m < troop.monkeys@.len() ==> #[trigger] troop.monkeys@[m] == monkey_of(
                    block_of(texts, m),
                    m as usize,
                ).unwrap().0
            &&& troop.items@ == items_of(texts, (texts.len() / 6) as nat)
            &&& troop.co_prime == product_of(texts, (texts.len() / 6) as nat)
        },
{
    let mut all: Vec<Vec<char>> = Vec::new();
    let mut i: usize = 0;
    while i < lines.len()
        invariant
            i <= lines@.len(),
            Seq::new(all@.len(), |k: int| all@[k]@) == kept(lines@, i as nat),
        decreases lines@.len() - i,
    {
        let ghost before = Seq::new(all@.len(), |k: int| all@[k]@);
        if lines[i].len() > 0 {
            let copy = slice(&lines[i], 0, lines[i].len());
            assert(copy@ =~= lines@[i as int]@);
            all.push(copy);
            assert(Seq::new(all@.len(), |k: int| all@[k]@) =~= before.push(lines@[i as int]@));
        }
        i += 1;
    }
    let ghost texts = kept(lines@, lines@.len());
    assert(texts.len() == all@.len());
    assert(forall|k: int| 0 <= k < all@.len() ==> all@[k]@ == texts[k]);
    if all.len() % 6 != 0 {
        return None;
    }
    let total = all.len();
    let count = total / 6;
    let mut monkeys: Vec<Monkey> = Vec::new();
    let mut items: Vec<Item> = Vec::new();
    let mut co_prime: usize = 1;
    let mut m: usize = 0;
    while m < count
        invariant
            m <= count,
            texts == kept(lines@, lines@.len()),
            count == texts.len() / 6,
            texts.len() % 6 == 0,
            texts.len() == all@.len(),
            total == all@.len(),
            forall|k: int| 0 <= k < all@.len() ==> all@[k]@ == texts[k],
            monkeys@.len() == m,
            forall|j: int|
                0 <= j < m ==> #[trigger] monkey_of(block_of(texts, j), j as usize) is Some,
            forall|j: int|
                0 <= j < m ==> #[trigger] monkeys@[j] == monkey_of(
                    block_of(texts, j),
                    j as usize,
                ).unwrap().0,
            items@ == items_of(texts, m as nat),
            co_prime == product_of(texts, m as nat),
            forall|k: nat| k <= m ==> #[trigger] product_of(texts, k) <= usize::MAX,
        decreases count - m,
    {
        let block = take_block(&all, m);
        assert(Seq::new(6, |k: int| block@[k]@) =~= block_of(texts, m as int));
        let (monkey, worries) = match read_monkey(&block, m) {
            Some(found) => found,
            None => {
                assert(monkey_of(block_of(texts, m as int), (m as int) as usize) is None);
                return None;
            },
        };
        assert(monkey_of(block_of(texts, m as int), (m as int) as usize) is Some);
        assert(monkey == monkey_of(block_of(texts, m as int), m).unwrap().0);
        push_items(&mut items, m, &worries);
        assert(items@ =~= items_of(texts, (m + 1) as nat));
        co_prime = match co_prime.checked_mul(monkey.route[0]) {
            Some(p) => p,
            None => {
                assert(product_of(texts, (m + 1) as nat) == co_prime * monkey.route[0]);
                assert(product_of(texts, (m + 1) as nat) > usize::MAX);
                return None;
            },
        };
        monkeys.push(monkey);
        m += 1;
    }
    Some(MonkeyTroop { divisor, co_prime, items, monkeys })
}

} // verus!
