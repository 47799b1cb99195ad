//! A machine with one register that draws a sprite on a screen as its
//! clock ticks.

use vstd::prelude::*;
use crate::text::{find_char, first_index, int_value, read_int};

verus! {

/// The state of the machine.
pub struct Machine {
    pub reg: isize,
    pub pointer: usize,
    pub cycle_number: usize,
    pub pixels: Vec<bool>,
    pub instructions: Vec<isize>,
}

/// The mathematical content of a machine.
pub struct State {
    pub reg: int,
    pub pointer: int,
    pub cycle: int,
    pub pixels: Seq<bool>,
    pub instructions: Seq<isize>,
}

impl State {
    /// Whether the sprite, three pixels wide with its middle at the value
    /// of the register, covers the column that is drawn in this cycle.
    pub open spec fn lit(self) -> bool {
        let column = (self.cycle - 1) % 40;
        column == self.reg || column == self.reg - 1 || column == self.reg + 1
    }

    /// Whether the machine can make a tick: the clock has started, there
    /// is an instruction to run, the pixel to light is on the screen and
    /// the register will hold its new value.
    pub open spec fn can_tick(self) -> bool {
        &&& 1 <= self.cycle < usize::MAX
        &&& 0 <= self.pointer < self.instructions.len()
        &&& self.lit() ==> self.cycle < self.pixels.len()
        &&& isize::MIN <= self.reg + self.instructions[self.pointer] <= isize::MAX
    }

    /// The state after a tick: the pixel of this cycle is lit where the
    /// sprite covers it, the instruction's value is added to the register,
    /// and the pointer and the clock move on.
    pub open spec fn tick(self) -> State {
        State {
            reg: self.reg + self.instructions[self.pointer],
            pointer: self.pointer + 1,
            cycle: self.cycle + 1,
            pixels: if self.lit() {
                self.pixels.update(self.cycle, true)
            } else {
                self.pixels
            },
            instructions: self.instructions,
        }
    }

    /// Whether the machine can make `n` ticks one after the other.
    pub open spec fn can_run(self, n: nat) -> bool
        decreases n,
    {
        n == 0 || (self.can_tick() && self.tick().can_run((n - 1) as nat))
    }

    /// The state after `n` ticks.
    pub open spec fn run(self, n: nat) -> State
        decreases n,
    {
        if n == 0 {
            self
        } else {
            self.tick().run((n - 1) as nat)
        }
    }

    /// The signal strength during a cycle: the register times the number
    /// of the cycle.
    pub open spec fn strength(self) -> int {
        self.reg * self.cycle
    }
}

impl View for Machine {
    type V = State;

    open spec fn view(&self) -> State {
        State {
            reg: self.reg as int,
            pointer: self.pointer as int,
            cycle: self.cycle_number as int,
            pixels: self.pixels@,
            instructions: self.instructions@,
        }
    }
}

/// Running `n` ticks and one more is running `n + 1` ticks.
pub proof fn lemma_run_more(s: State, n: nat)
    ensures
        s.can_run(n + 1) == (s.can_run(n) && s.run(n).can_tick()),
        s.run(n + 1) == s.run(n).tick(),
    decreases n,
{
    if n > 0 {
        lemma_run_more(s.tick(), (n - 1) as nat);
        assert(s.can_run(n + 1) == (s.can_tick() && s.tick().can_run(n)));
        assert(s.can_run(n) == (s.can_tick() && s.tick().can_run((n - 1) as nat)));
        assert(s.run(n + 1) == s.tick().run(n));
        assert(s.run(n) == s.tick().run((n - 1) as nat));
    } else {
        assert(s.can_run(1) == (s.can_tick() && s.tick().can_run(0)));
        assert(s.tick().can_run(0));
        assert(s.run(1) == s.tick().run(0));
        assert(s.tick().run(0) == s.tick());
    }
}

impl Machine {
    /// A machine at the start of the given program, with a dark screen of
    /// 240 pixels.
    pub fn new(instructions: Vec<isize>) -> (m: Machine)
        ensures
            m@.reg == 1,
            m@.pointer == 0,
            m@.cycle == 1,
            m@.instructions == instructions@,
            m@.pixels == Seq::new(240, |i: int| false),
    {
        let mut pixels: Vec<bool> = Vec::new();
        while pixels.len() < 240
            invariant
                pixels@.len() <= 240,
                forall|i: int| 0 <= i < pixels@.len() ==> !pixels@[i],
            decreases 240 - pixels@.len(),
        {
            pixels.push(false);
        }
        assert(pixels@ =~= Seq::new(240, |i: int| false));
        Machine { reg: 1, pointer: 0, pixels, cycle_number: 1, instructions }
    }

    /// Whether the machine can make a tick.
    pub fn ready(&self) -> (b: bool)
        ensures
            b == self@.can_tick(),
    {
        if self.cycle_number < 1 || self.cycle_number == usize::MAX {
            return false;
        }
        if self.pointer >= self.instructions.len() {
            return false;
        }
        let cn = (self.cycle_number - 1) % 40;
        let lit = self.reg >= -1 && self.reg <= 40 && (cn as isize == self.reg || cn as isize
            == self.reg - 1 || cn as isize == self.reg + 1);
        if lit && self.cycle_number >= self.pixels.len() {
            return false;
        }
        self.reg.checked_add(self.instructions[self.pointer]).is_some()
    }

    /// Makes a tick.
    pub fn advance(&mut self)
        requires
            old(self)@.can_tick(),
        ensures
            final(self)@ == old(self)@.tick(),
    {
        let cn = ((self.cycle_number - 1) % 40) as isize;
        if self.reg >= -1 && self.reg <= 40 && (cn == self.reg || cn == self.reg - 1 || cn
            == self.reg + 1) {
            self.pixels[self.cycle_number] = true;
        }
        self.reg += self.instructions[self.pointer];
        assert(self.pointer < self.instructions.len());
        self.pointer += 1;
        self.cycle_number += 1;
        if self.pointer > self.instructions.len() {
            self.pointer = 0;
        }
    }

    /// Makes `n` ticks and returns the signal strength during the last of
    /// them, which is zero for no tick; or stops where the machine cannot
    /// make a tick or a strength is too large, and returns `None`.
    pub fn bulk_advance(&mut self, n: usize) -> (r: Option<isize>)
        ensures
            r is Some == old(self)@.can_measure(n as nat),
            r is Some ==> final(self)@ == old(self)@.run(n as nat),
            r matches Some(p) ==> p == (if n == 0 {
                0
            } else {
                old(self)@.run((n - 1) as nat).strength()
            }),
    {
        let mut p: isize = 0;
        let mut i: usize = 0;
        while i < n
            invariant
                i <= n,
                old(self)@.can_measure(i as nat),
                self@ == old(self)@.run(i as nat),
                p == (if i == 0 {
                    0
                } else {
                    old(self)@.run((i - 1) as nat).strength()
                }),
            decreases n - i,
        {
            proof {
                lemma_run_more(old(self)@, i as nat);
                lemma_measure_more(old(self)@, i as nat);
            }
            if !self.ready() {
                proof {
                    lemma_cannot_measure(old(self)@, (i + 1) as nat, n as nat);
                }
                return None;
            }
            assert(-0x8000_0000_0000_0000 * 0xffff_ffff_ffff_ffff <= self.reg
                * self.cycle_number <= 0x8000_0000_0000_0000 * 0xffff_ffff_ffff_ffff)
                by (nonlinear_arith)
                requires
                    -0x8000_0000_0000_0000 <= self.reg <= 0x8000_0000_0000_0000,
                    0 <= self.cycle_number <= 0xffff_ffff_ffff_ffff,
            ;
            let wide = (self.reg as i128) * (self.cycle_number as i128);
            if wide < isize::MIN as i128 || wide > isize::MAX as i128 {
                proof {
                    lemma_cannot_measure(old(self)@, (i + 1) as nat, n as nat);
                }
                return None;
            }
            p = wide as isize;
            self.advance();
            i += 1;
        }
        Some(p)
    }
}

impl State {
    /// Whether the machine can make `n` ticks one after the other with a
    /// signal strength during each of them that fits in `isize`.
    pub open spec fn can_measure(self, n: nat) -> bool
        decreases n,
    {
        n == 0 || (self.can_measure((n - 1) as nat) && self.run((n - 1) as nat).can_tick() && isize::MIN
            <= self.run((n - 1) as nat).strength() <= isize::MAX)
    }
}

/// What it takes to measure one tick more.
pub proof fn lemma_measure_more(s: State, n: nat)
    ensures
        s.can_measure(n + 1) == (s.can_measure(n) && s.run(n).can_tick() && isize::MIN <= s.run(
            n,
        ).strength() <= isize::MAX),
{
}

/// A machine that cannot be measured for `k` ticks cannot be for more.
pub proof fn lemma_cannot_measure(s: State, k: nat, n: nat)
    requires
        !s.can_measure(k),
        k <= n,
    ensures
        !s.can_measure(n),
    decreases n - k,
{
    if k < n {
        lemma_cannot_measure(s, k, (n - 1) as nat);
    }
}

/// A machine that can be measured for `n` ticks can make them.
pub proof fn lemma_measure_runs(s: State, n: nat)
    requires
        s.can_measure(n),
    ensures
        s.can_run(n),
    decreases n,
{
    if n > 0 {
        lemma_measure_runs(s, (n - 1) as nat);
        lemma_run_more(s, (n - 1) as nat);
    }
}

/// Runs a program for 240 cycles and adds up the signal strengths during
/// the cycles 20, 60, 100, 140, 180 and 220. Returns the sum and the
/// screen, or `None` where the machine cannot finish or add them up.
pub fn run_program(instructions: Vec<isize>) -> (r: Option<(isize, Vec<bool>)>)
    ensures
        r is Some == (at_start(instructions@).can_measure(240) && can_add_up(
            at_start(instructions@),
        )),
        r matches Some((sum, screen)) ==> {
            let start = at_start(instructions@);
            &&& start.can_run(240)
            &&& screen@ == start.run(240).pixels
            &&& sum == strengths(start, 6)
            &&& sum == start.run(19).strength() + start.run(59).strength() + start.run(99).strength()
                + start.run(139).strength() + start.run(179).strength() + start.run(219).strength()
        },
{
    let mut m = Machine::new(instructions);
    let ghost start = m@;
    assert(start == at_start(instructions@));
    proof {
        lemma_measure_sum(start, 20, 40);
        lemma_measure_sum(start, 60, 40);
        lemma_measure_sum(start, 100, 40);
        lemma_measure_sum(start, 140, 40);
        lemma_measure_sum(start, 180, 40);
        lemma_measure_sum(start, 220, 20);
        lemma_measure_sum(start, 20, 220);
        lemma_measure_sum(start, 60, 180);
        lemma_measure_sum(start, 100, 140);
        lemma_measure_sum(start, 140, 100);
        lemma_measure_sum(start, 180, 60);
        lemma_run_sum(start, 20, 39);
        lemma_run_sum(start, 20, 40);
        lemma_run_sum(start, 60, 39);
        lemma_run_sum(start, 60, 40);
        lemma_run_sum(start, 100, 39);
        lemma_run_sum(start, 100, 40);
        lemma_run_sum(start, 140, 39);
        lemma_run_sum(start, 140, 40);
        lemma_run_sum(start, 180, 39);
        lemma_run_sum(start, 180, 40);
        lemma_run_sum(start, 220, 20);
        assert(strengths(start, 1) == start.run(19).strength()) by {
            assert(strengths(start, 0) == 0);
        }
        assert(strengths(start, 2) == strengths(start, 1) + start.run(59).strength());
        assert(strengths(start, 3) == strengths(start, 2) + start.run(99).strength());
        assert(strengths(start, 4) == strengths(start, 3) + start.run(139).strength());
        assert(strengths(start, 5) == strengths(start, 4) + start.run(179).strength());
        assert(strengths(start, 6) == strengths(start, 5) + start.run(219).strength());
    }
    let a = match m.bulk_advance(20) {
        Some(a) => a,
        None => {
            return None;
        },
    };
    let b = match m.bulk_advance(40) {
        Some(b) => b,
        None => {
            return None;
        },
    };
    let c = match m.bulk_advance(40) {
        Some(c) => c,
        None => {
            return None;
        },
    };
    let d = match m.bulk_advance(40) {
        Some(d) => d,
        None => {
            return None;
        },
    };
    let e = match m.bulk_advance(40) {
        Some(e) => e,
        None => {
            return None;
        },
    };
    let f = match m.bulk_advance(40) {
        Some(f) => f,
        None => {
            return None;
        },
    };
    match m.bulk_advance(20) {
        Some(_) => {},
        None => {
            return None;
        },
    }
    proof {
        assert(start.can_measure(240));
        lemma_measure_runs(start, 240);
        assert(m@ == start.run(240));
    }
    let ab = match a.checked_add(b) {
        Some(v) => v,
        None => {
            assert(!(isize::MIN <= strengths(start, 2) <= isize::MAX));
            return None;
        },
    };
    let abc = match ab.checked_add(c) {
        Some(v) => v,
        None => {
            assert(!(isize::MIN <= strengths(start, 3) <= isize::MAX));
            return None;
        },
    };
    let abcd = match abc.checked_add(d) {
        Some(v) => v,
        None => {
            assert(!(isize::MIN <= strengths(start, 4) <= isize::MAX));
            return None;
        },
    };
    let abcde = match abcd.checked_add(e) {
        Some(v) => v,
        None => {
            assert(!(isize::MIN <= strengths(start, 5) <= isize::MAX));
            return None;
        },
    };
    let sum = match abcde.checked_add(f) {
        Some(v) => v,
        None => {
            assert(!(isize::MIN <= strengths(start, 6) <= isize::MAX));
            return None;
        },
    };
    Some((sum, m.pixels))
}

/// The machine at the start of a program: the register holds one, the
/// clock shows the first cycle, and the screen of 240 pixels is dark.
pub open spec fn at_start(instructions: Seq<isize>) -> State {
    State {
        reg: 1,
        pointer: 0,
        cycle: 1,
        pixels: Seq::new(240, |i: int| false),
        instructions,
    }
}

/// The sum of the signal strengths during the first `k` of the cycles 20,
/// 60, 100, 140, 180 and 220.
pub open spec fn strengths(s: State, k: nat) -> int
    decreases k,
{
    if k == 0 {
        0
    } else {
        strengths(s, (k - 1) as nat) + s.run((40 * k - 21) as nat).strength()
    }
}

/// Whether the signal strengths during the cycles 20, 60, 100, 140, 180
/// and 220 can be added up one after the other.
pub open spec fn can_add_up(s: State) -> bool {
    forall|k: nat| 2 <= k <= 6 ==> isize::MIN <= #[trigger] strengths(s, k) <= isize::MAX
}

/// Measuring `a` ticks and then `b` more is measuring `a + b` ticks.
pub proof fn lemma_measure_sum(s: State, a: nat, b: nat)
    ensures
        s.can_measure(a + b) == (s.can_measure(a) && s.run(a).can_measure(b)),
    decreases b,
{
    if b > 0 {
        lemma_measure_sum(s, a, (b - 1) as nat);
        lemma_measure_more(s, (a + b - 1) as nat);
        lemma_measure_more(s.run(a), (b - 1) as nat);
        lemma_run_sum(s, a, (b - 1) as nat);
    }
}

/// Running `a` ticks and then `b` more is running `a + b` ticks.
pub proof fn lemma_run_sum(s: State, a: nat, b: nat)
    ensures
        s.can_run(a + b) == (s.can_run(a) && s.run(a).can_run(b)),
        s.run(a + b) == s.run(a).run(b),
    decreases a,
{
    if a > 0 {
        lemma_run_sum(s.tick(), (a - 1) as nat, b);
    }
}

/// Whether the line is `noop`.
pub open spec fn is_noop(line: Seq<char>) -> bool {
    line.len() == 4 && line[0] == 'n' && line[1] == 'o' && line[2] == 'o' && line[3] == 'p'
}

/// The values that a line of a program adds to the register, one for
/// each cycle the line takes: `noop` takes one cycle and adds nothing; any
/// other line takes two and adds, in the second, the number after its
/// first blank. `None` where such a line has no blank or no number there.
pub open spec fn line_values(line: Seq<char>) -> Option<Seq<isize>> {
    if is_noop(line) {
        Some(seq![0isize])
    } else {
        match first_index(line, ' ') {
            Some(at) => match int_value(line.skip(at + 1)) {
                Some(v) => Some(seq![0isize, v as isize]),
                None => None,
            },
            None => None,
        }
    }
}

/// The values that the first `n` lines add, the empty lines left out.
pub open spec fn program_values(lines: Seq<Vec<char>>, n: nat) -> Option<Seq<isize>>
    decreases n,
{
    if n == 0 {
        Some(Seq::empty())
    } else {
        match program_values(lines, (n - 1) as nat) {
            Some(before) => if lines[n - 1]@.len() == 0 {
                Some(before)
            } else {
                match line_values(lines[n - 1]@) {
                    Some(values) => Some(before + values),
                    None => None,
                }
            },
            None => None,
        }
    }
}

/// Reads the values that one line of a program adds.
pub fn read_line(line: &Vec<char>) -> (r: Option<Vec<isize>>)
    ensures
        match line_values(line@) {
            Some(values) => r matches Some(v) && v@ == values,
            None => r is None,
        },
{
    let mut out: Vec<isize> = Vec::new();
    out.push(0);
    if line.len() == 4 && line[0] == 'n' && line[1] == 'o' && line[2] == 'o' && line[3] == 'p' {
        assert(out@ =~= seq![0isize]);
        return Some(out);
    }
    let at = match find_char(line, ' ') {
        Some(at) => at,
        None => {
            return None;
        },
    };
    assert(at < line.len());
    match read_int(line, at + 1) {
        Some(v) => {
            out.push(v);
            assert(out@ =~= seq![0isize, v]);
            Some(out)
        },
        None => None,
    }
}

/// Reads a program.
pub fn read_program(lines: &Vec<Vec<char>>) -> (r: Option<Vec<isize>>)
    ensures
        match program_values(lines@, lines@.len()) {
            Some(values) => r matches Some(v) && v@ == values,
            None => r is None,
        },
{
    let mut out: Vec<isize> = Vec::new();
    let mut i: usize = 0;
    while i < lines.len()
        invariant
            i <= lines@.len(),
            program_values(lines@, i as nat) == Some(out@),
        decreases lines@.len() - i,
    {
        let line = &lines[i];
        if line.len() > 0 {
            match read_line(line) {
                Some(mut values) => {
                    out.append(&mut values);
                },
                None => {
                    proof {
                        lemma_program_fails(lines@, (i + 1) as nat, lines@.len());
                    }
                    return None;
                },
            }
        }
        i += 1;
    }
    Some(out)
}

/// A program whose first `k` lines cannot be read cannot be read further.
pub proof fn lemma_program_fails(lines: Seq<Vec<char>>, k: nat, n: nat)
    requires
        program_values(lines, k) is None,
        k <= n,
    ensures
        program_values(lines, n) is None,
    decreases n - k,
{
    if k < n {
        lemma_program_fails(lines, k, (n - 1) as nat);
    }
}

} // verus!
