//! Monkeys that shout a number or the result of an operation on what two
//! other monkeys shout, and the number that one of them must shout for
//! two others to agree.

use vstd::prelude::*;
use crate::text::{int_value, read_int, string_of};

verus! {

/// What a monkey does: it shouts a number, or a number that is not known
/// yet, or the result of an operation on the numbers of two monkeys.
pub enum Op {
    KnownConst(isize),
    UnknownConst,
    Add(String, String),
    Subtract(String, String),
    Multiply(String, String),
    Divide(String, String),
    Equal(String, String),
}

/// What a monkey shouts: a number, the number that is not known, or an
/// operation that cannot be worked out because it rests on that number.
pub enum Value {
    Known(isize),
    Unknown,
    Partial(Op, Box<Value>, Box<Value>),
}

/// The kind of an operation; `Other` for a monkey that works nothing out.
#[derive(PartialEq, Eq, Structural, Clone, Copy)]
pub enum Kind {
    Add,
    Subtract,
    Multiply,
    Divide,
    Equal,
    Other,
}

/// The content of what a monkey does.
pub enum Rule {
    Known(isize),
    Unknown,
    Bin(Kind, Seq<char>, Seq<char>),
}

/// The content of what a monkey shouts.
pub enum Term {
    Known(isize),
    Unknown,
    Partial(Kind, Box<Term>, Box<Term>),
}

impl Op {
    /// The kind of the operation.
    pub open spec fn kind(&self) -> Kind {
        match self {
            Op::Add(_, _) => Kind::Add,
            Op::Subtract(_, _) => Kind::Subtract,
            Op::Multiply(_, _) => Kind::Multiply,
            Op::Divide(_, _) => Kind::Divide,
            Op::Equal(_, _) => Kind::Equal,
            _ => Kind::Other,
        }
    }

    /// The content of the operation.
    pub open spec fn model(&self) -> Rule {
        match self {
            Op::KnownConst(v) => Rule::Known(*v),
            Op::UnknownConst => Rule::Unknown,
            Op::Add(a, b) => Rule::Bin(Kind::Add, a@, b@),
            Op::Subtract(a, b) => Rule::Bin(Kind::Subtract, a@, b@),
            Op::Multiply(a, b) => Rule::Bin(Kind::Multiply, a@, b@),
            Op::Divide(a, b) => Rule::Bin(Kind::Divide, a@, b@),
            Op::Equal(a, b) => Rule::Bin(Kind::Equal, a@, b@),
        }
    }

    /// The names of the two monkeys on whose numbers the operation works.
    pub fn operands(&self) -> (r: Option<(&String, &String)>)
        ensures
            r is Some == (self.kind() != Kind::Other),
            r matches Some((a, b)) ==> self.model() == Rule::Bin(self.kind(), a@, b@),
    {
        match self {
            Op::Add(a, b) => Some((a, b)),
            Op::Subtract(a, b) => Some((a, b)),
            Op::Multiply(a, b) => Some((a, b)),
            Op::Divide(a, b) => Some((a, b)),
            Op::Equal(a, b) => Some((a, b)),
            _ => None,
        }
    }

    /// An operation of its own with the same content.
    pub fn copy(&self) -> (c: Op)
        ensures
            c.model() == self.model(),
            c.kind() == self.kind(),
    {
        match self {
            Op::KnownConst(v) => Op::KnownConst(*v),
            Op::UnknownConst => Op::UnknownConst,
            Op::Add(a, b) => Op::Add(a.clone(), b.clone()),
            Op::Subtract(a, b) => Op::Subtract(a.clone(), b.clone()),
            Op::Multiply(a, b) => Op::Multiply(a.clone(), b.clone()),
            Op::Divide(a, b) => Op::Divide(a.clone(), b.clone()),
            Op::Equal(a, b) => Op::Equal(a.clone(), b.clone()),
        }
    }
}

impl Value {
    /// The content of the value.
    pub open spec fn model(&self) -> Term
        decreases self,
    {
        match self {
            Value::Known(v) => Term::Known(*v),
            Value::Unknown => Term::Unknown,
            Value::Partial(op, a, b) => Term::Partial(op.kind(), Box::new(a.model()), Box::new(b.model())),
        }
    }
}

/// The result of an operation on two numbers, or `None` where it does not
/// fit in `isize` or divides by zero. Division rounds towards zero, and
/// `Equal` gives one where the numbers are equal and zero otherwise.
pub open spec fn apply(kind: Kind, x: isize, y: isize) -> Option<isize> {
    match kind {
        Kind::Add => if isize::MIN <= x + y <= isize::MAX {
            Some((x + y) as isize)
        } else {
            None
        },
        Kind::Subtract => if isize::MIN <= x - y <= isize::MAX {
            Some((x - y) as isize)
        } else {
            None
        },
        Kind::Multiply => if isize::MIN <= x * y <= isize::MAX {
            Some((x * y) as isize)
        } else {
            None
        },
        Kind::Divide => x.checked_div(y),
        Kind::Equal => if x == y {
            Some(1isize)
        } else {
            Some(0isize)
        },
        Kind::Other => None,
    }
}

/// The result of an operation on two numbers.
pub fn work_out(op: &Op, x: isize, y: isize) -> (r: Option<isize>)
    ensures
        r == apply(op.kind(), x, y),
{
    match op {
        Op::Add(_, _) => x.checked_add(y),
        Op::Subtract(_, _) => x.checked_sub(y),
        Op::Multiply(_, _) => x.checked_mul(y),
        Op::Divide(_, _) => x.checked_div(y),
        Op::Equal(_, _) => Some(
            if x == y {
                1
            } else {
                0
            },
        ),
        _ => None,
    }
}

/// The monkeys by name. Where a name stands twice, the later one counts.
pub struct Machine {
    pub ops: Vec<(String, Op)>,
}

/// The index of the last of the first `n` monkeys that has the name.
pub open spec fn find(ops: Seq<(String, Op)>, name: Seq<char>, n: nat) -> Option<int>
    decreases n,
{
    if n == 0 {
        None
    } else if ops[n - 1].0@ == name {
        Some(n - 1)
    } else {
        find(ops, name, (n - 1) as nat)
    }
}

/// What the monkey of the given name shouts, worked out through at most
/// `fuel` monkeys that rest on one another; `None` where a monkey is
/// missing, an operation has no result, or the fuel runs out.
pub open spec fn eval(ops: Seq<(String, Op)>, name: Seq<char>, fuel: nat) -> Option<Term>
    decreases fuel,
{
    if fuel == 0 {
        None
    } else {
        match find(ops, name, ops.len()) {
            None => None,
            Some(i) => match ops[i].1.model() {
                Rule::Known(v) => Some(Term::Known(v)),
                Rule::Unknown => Some(Term::Unknown),
                Rule::Bin(kind, a, b) => match (
                    eval(ops, a, (fuel - 1) as nat),
                    eval(ops, b, (fuel - 1) as nat),
                ) {
                    (Some(ta), Some(tb)) => match (ta, tb) {
                        (Term::Known(x), Term::Known(y)) => match apply(kind, x, y) {
                            Some(v) => Some(Term::Known(v)),
                            None => None,
                        },
                        _ => Some(Term::Partial(kind, Box::new(ta), Box::new(tb))),
                    },
                    _ => None,
                },
            },
        }
    }
}

impl Machine {
    /// The index of the monkey of the given name.
    pub fn lookup(&self, name: &String) -> (r: Option<usize>)
        ensures
            r is Some == find(self.ops@, name@, self.ops@.len()) is Some,
            r matches Some(j) ==> j < self.ops@.len() && find(self.ops@, name@, self.ops@.len())
                == Some(j as int),
    {
        let mut n: usize = self.ops.len();
        while n > 0
            invariant
                n <= self.ops@.len(),
                find(self.ops@, name@, self.ops@.len()) == find(self.ops@, name@, n as nat),
            decreases n,
        {
            n -= 1;
            if self.ops[n].0.eq(name) {
                return Some(n);
            }
        }
        None
    }

    /// Gives the monkey of the given name something to do.
    pub fn insert(&mut self, name: String, op: Op)
        ensures
            final(self).ops@ == old(self).ops@.push((name, op)),
    {
        self.ops.push((name, op));
    }

    /// What the monkey of the given name shouts.
    pub fn execute_op(&self, name: &String, fuel: usize) -> (r: Option<Value>)
        ensures
            match eval(self.ops@, name@, fuel as nat) {
                Some(t) => r matches Some(v) && v.model() == t,
                None => r is None,
            },
        decreases fuel,
    {
        if fuel == 0 {
            return None;
        }
        let i = match self.lookup(name) {
            Some(i) => i,
            None => {
                return None;
            },
        };
        let o = &self.ops[i].1;
        match o {
            Op::KnownConst(v) => Some(Value::Known(*v)),
            Op::UnknownConst => Some(Value::Unknown),
            _ => {
                let (a, b) = match o.operands() {
                    Some(names) => names,
                    None => {
                        return None;
                    },
                };
                let va = self.execute_op(a, fuel - 1);
                let vb = self.execute_op(b, fuel - 1);
                match (va, vb) {
                    (Some(va), Some(vb)) => match (&va, &vb) {
                        (Value::Known(ia), Value::Known(ib)) => match work_out(o, *ia, *ib) {
                            Some(v) => Some(Value::Known(v)),
                            None => None,
                        },
                        _ => Some(Value::Partial(o.copy(), Box::new(va), Box::new(vb))),
                    },
                    _ => None,
                }
            },
        }
    }

    /// What the monkey named `root` shouts.
    pub fn run(&self, fuel: usize) -> (r: Option<Value>)
        ensures
            match eval(self.ops@, "root"@, fuel as nat) {
                Some(t) => r matches Some(v) && v.model() == t,
                None => r is None,
            },
    {
        let root = "root".to_owned();
        self.execute_op(&root, fuel)
    }
}

/// One step of solving `unknown = known` for the number that is not
/// known: where `unknown` is an operation with a number on one side, the
/// operation is undone on `known` and the other side is left to solve.
/// A division is undone by multiplying and a multiplication by dividing,
/// rounded towards zero; a sum and a product with a number on both sides
/// are solved for the first. `None` where `unknown` is no such operation,
/// `known` no number, or the undoing has no result.
pub open spec fn unwound(unknown: Term, known: Term) -> Option<(Term, Term)> {
    match (unknown, known) {
        (Term::Partial(kind, a, b), Term::Known(i)) => match kind {
            Kind::Divide => match *b {
                Term::Known(bv) => with_known(*a, apply(Kind::Multiply, i, bv)),
                _ => None,
            },
            Kind::Add => match (*a, *b) {
                (_, Term::Known(bv)) => with_known(*a, apply(Kind::Subtract, i, bv)),
                (Term::Known(av), _) => with_known(*b, apply(Kind::Subtract, i, av)),
                _ => None,
            },
            Kind::Multiply => match (*a, *b) {
                (_, Term::Known(bv)) => with_known(*a, apply(Kind::Divide, i, bv)),
                (Term::Known(av), _) => with_known(*b, apply(Kind::Divide, i, av)),
                _ => None,
            },
            Kind::Subtract => match (*a, *b) {
                (_, Term::Known(bv)) => with_known(*a, apply(Kind::Add, i, bv)),
                (Term::Known(av), _) => with_known(*b, apply(Kind::Subtract, av, i)),
                _ => None,
            },
            _ => None,
        },
        _ => None,
    }
}

/// The side that is left to solve with the number it must equal, where
/// there is such a number.
pub open spec fn with_known(rest: Term, number: Option<isize>) -> Option<(Term, Term)> {
    match number {
        Some(v) => Some((rest, Term::Known(v))),
        None => None,
    }
}

/// The models of a pair of values.
pub open spec fn pair_model(pair: Option<(Value, Value)>) -> Option<(Term, Term)> {
    match pair {
        Some((a, b)) => Some((a.model(), b.model())),
        None => None,
    }
}

fn paired(rest: Value, number: Option<isize>) -> (r: Option<(Value, Value)>)
    ensures
        pair_model(r) == with_known(rest.model(), number),
{
    match number {
        Some(v) => Some((rest, Value::Known(v))),
        None => None,
    }
}

/// One step of solving `unknown = known` for the number that is not
/// known.
pub fn simplify_equality(unknown: Value, known: Value) -> (r: Option<(Value, Value)>)
    ensures
        pair_model(r) == unwound(unknown.model(), known.model()),
{
    let ghost um = unknown.model();
    let ghost km = known.model();
    match (unknown, known) {
        (Value::Partial(op, a, b), Value::Known(i)) => {
            let a = *a;
            let b = *b;
            assert(um == Term::Partial(op.kind(), Box::new(a.model()), Box::new(b.model())));
            assert(km == Term::Known(i));
            match op {
                Op::Divide(_, _) => match b {
                    Value::Known(bv) => paired(a, i.checked_mul(bv)),
                    _ => None,
                },
                Op::Add(_, _) => match (a, b) {
                    (a, Value::Known(bv)) => paired(a, i.checked_sub(bv)),
                    (Value::Known(av), b) => paired(b, i.checked_sub(av)),
                    _ => None,
                },
                Op::Multiply(_, _) => match (a, b) {
                    (a, Value::Known(bv)) => paired(a, i.checked_div(bv)),
                    (Value::Known(av), b) => paired(b, i.checked_div(av)),
                    _ => None,
                },
                Op::Subtract(_, _) => match (a, b) {
                    (a, Value::Known(bv)) => paired(a, i.checked_add(bv)),
                    (Value::Known(av), b) => paired(b, av.checked_sub(i)),
                    _ => None,
                },
                _ => None,
            }
        },
        _ => None,
    }
}

/// The number that one step of solving `unknown = known` leaves on the
/// known side.
pub open spec fn first_step(unknown: Term, known: Term) -> Option<isize> {
    match unwound(unknown, known) {
        Some((_, Term::Known(i))) => Some(i),
        _ => None,
    }
}

/// Solves `unknown = known` as far as the first step that leaves a number
/// on the known side, which is the first step, and returns that number.
pub fn simplify_equality_loop(unknown: Value, known: Value) -> (r: Option<isize>)
    ensures
        r == first_step(unknown.model(), known.model()),
{
    match simplify_equality(unknown, known) {
        Some((_, Value::Known(i))) => Some(i),
        _ => None,
    }
}

/// The number that solving an equation gives: the sides of `value`, an
/// operation, are taken as equal, the side that is a number as the known
/// one, the first where both are.
pub open spec fn solved(value: Term) -> Option<isize> {
    match value {
        Term::Partial(_, a, b) => if *a is Known {
            first_step(*b, *a)
        } else {
            first_step(*a, *b)
        },
        _ => None,
    }
}

/// Solves the equation between the two sides of `value`.
pub fn solve_equality(value: Value) -> (r: Option<isize>)
    ensures
        r == solved(value.model()),
{
    match value {
        Value::Partial(_, a, b) => {
            let a = *a;
            let b = *b;
            let known_first = match &a {
                Value::Known(_) => true,
                _ => false,
            };
            if known_first {
                simplify_equality_loop(b, a)
            } else {
                simplify_equality_loop(a, b)
            }
        },
        _ => None,
    }
}

/// What a line says of a monkey: its name in the first four characters
/// and, from the seventh on, a number, or the names of two monkeys in
/// four characters each with an operator between them, a blank on each
/// side of it. Any operator but `+`, `-` and `*` divides.
pub open spec fn line_rule(s: Seq<char>) -> Option<(Seq<char>, Rule)> {
    if s.len() < 6 {
        None
    } else {
        let name = s.subrange(0, 4);
        let op = s.skip(6);
        if op.len() <= 4 {
            match int_value(op) {
                Some(v) => Some((name, Rule::Known(v as isize))),
                None => None,
            }
        } else if op.len() < 11 {
            None
        } else {
            let a = op.subrange(0, 4);
            let b = op.subrange(7, 11);
            let kind = if op[5] == '+' {
                Kind::Add
            } else if op[5] == '-' {
                Kind::Subtract
            } else if op[5] == '*' {
                Kind::Multiply
            } else {
                Kind::Divide
            };
            Some((name, Rule::Bin(kind, a, b)))
        }
    }
}

/// Reads what a line says of a monkey.
pub fn parse(s: &Vec<char>) -> (r: Option<(String, Op)>)
    ensures
        match line_rule(s@) {
            Some((name, rule)) => r matches Some((n, op)) && n@ == name && op.model() == rule,
            None => r is None,
        },
{
    if s.len() < 6 {
        return None;
    }
    let name = string_of(s, 0, 4);
    let ghost op = s@.skip(6);
    if s.len() - 6 <= 4 {
        return match read_int(s, 6) {
            Some(v) => Some((name, Op::KnownConst(v))),
            None => None,
        };
    }
    if s.len() - 6 < 11 {
        return None;
    }
    let a = string_of(s, 6, 10);
    let b = string_of(s, 13, 17);
    let o = s[11];
    proof {
        assert(op.subrange(0, 4) =~= s@.subrange(6, 10));
        assert(op.subrange(7, 11) =~= s@.subrange(13, 17));
        assert(op[5] == s@[11]);
    }
    let made = if o == '+' {
        Op::Add(a, b)
    } else if o == '-' {
        Op::Subtract(a, b)
    } else if o == '*' {
        Op::Multiply(a, b)
    } else {
        Op::Divide(a, b)
    };
    Some((name, made))
}

} // verus!
