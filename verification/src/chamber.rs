//! A chamber seven units wide into which rocks fall, pushed sideways by
//! jets of gas, until they come to rest.

use crate::text::{decimal, push_decimal};
use vstd::prelude::*;

verus! {

/// The number of ones in the binary form of `x`.
pub open spec fn ones(x: u64) -> nat
    decreases x,
{
    if x == 0 {
        0
    } else {
        (x % 2) as nat + ones(x / 2)
    }
}

/// The number of ones in the binary form of `x`.
pub fn count_ones(x: u64) -> (r: u32)
    ensures
        r == ones(x),
{
    let mut rest = x;
    let mut found: u32 = 0;
    let mut left: u64 = 64;
    while rest > 0
        invariant
            found + ones(rest) == ones(x),
            found + left <= 64,
            left < 64 ==> rest < (1u64 << left),
        decreases rest,
    {
        proof {
            let l = left;
            assert(l > 0) by (bit_vector)
                requires
                    l < 64 ==> rest < (1u64 << l),
                    rest > 0,
            ;
            let m = (l - 1) as u64;
            assert(rest / 2 < (1u64 << m)) by (bit_vector)
                requires
                    l < 64 ==> rest < (1u64 << l),
                    0 < l <= 64,
                    m == l - 1,
            ;
        }
        if rest % 2 == 1 {
            found += 1;
        }
        rest = rest / 2;
        left -= 1;
    }
    found
}

/// The jets: the push of each, one unit to the left or to the right, and
/// the jet that blows next.
#[derive(Clone)]
pub struct Control {
    pub dirs: Vec<isize>,
    pub current: usize,
}

/// The rocks at rest, row by row from the floor, each row as seven bits;
/// and the number of rows that have been cut off below them.
#[derive(Clone)]
pub struct Field {
    pub trimmed: usize,
    pub rows: Vec<u64>,
}

/// A rock: its lines from the top, each as seven bits, flush with the
/// left wall.
#[derive(Clone)]
pub struct Piece {
    pub lines: Vec<u64>,
}

/// A row that is filled from wall to wall.
pub const FULL: u64 = 0b1111111;

/// Whether a line of a rock, moved `x` units to the right, leaves the
/// chamber: the move is none that a shift can make, or it pushes a part of
/// the line out of the seven units.
pub open spec fn lost(line: u64, x: int) -> bool {
    x < 0 || x >= 64 || ones((line >> (x as u64)) & FULL) != ones(line)
}

/// Whether a rock with its top line in row `y`, moved `x` units to the
/// right, leaves the chamber, reaches below the floor or lies on a rock
/// at rest.
pub open spec fn hits(lines: Seq<u64>, rows: Seq<u64>, x: int, y: int) -> bool {
    exists|py: int| 0 <= py < lines.len() && #[trigger] hits_line(lines[py], rows, x, y - py)
}

/// Whether one line of a rock, in row `yw`, leaves the chamber, lies
/// below the floor or on a rock at rest.
pub open spec fn hits_line(line: u64, rows: Seq<u64>, x: int, yw: int) -> bool {
    lost(line, x) || yw < 0 || (yw < rows.len() && rows[yw] & (line >> (x as u64)) != 0)
}

impl Control {
    /// The push of the next jet.
    pub fn next(&mut self) -> (dir: isize)
        requires
            old(self).current < old(self).dirs@.len(),
        ensures
            dir == old(self).dirs@[old(self).current as int],
            final(self).dirs == old(self).dirs,
            final(self).current == (old(self).current + 1) % (old(self).dirs@.len() as int),
    {
        let i = self.dirs[self.current];
        assert(self.current < self.dirs.len());
        self.current = (self.current + 1) % self.dirs.len();
        i
    }
}

/// The highest of the first `n` rows that is full, if any.
pub open spec fn top_full(rows: Seq<u64>, n: nat) -> Option<int>
    decreases n,
{
    if n == 0 {
        None
    } else if rows[n - 1] == FULL {
        Some(n - 1)
    } else {
        top_full(rows, (n - 1) as nat)
    }
}

impl Default for Field {
    /// A chamber without rocks.
    fn default() -> (f: Field)
        ensures
            f.rows@.len() == 0,
            f.trimmed == 0,
    {
        Field { rows: Vec::new(), trimmed: 0 }
    }
}

impl Field {
    /// Cuts off all that lies below the highest full row, where there are
    /// five rows at least and one of them is full, and counts the rows
    /// cut off.
    pub fn trim(&mut self)
        requires
            old(self).trimmed + old(self).rows@.len() <= usize::MAX,
        ensures
            match top_full(old(self).rows@, old(self).rows@.len()) {
                Some(y) => if old(self).rows@.len() >= 5 {
                    final(self).rows@ == old(self).rows@.skip(y) && final(self).trimmed == old(
                        self,
                    ).trimmed + y
                } else {
                    *final(self) == *old(self)
                },
                None => *final(self) == *old(self),
            },
            final(self).rows@.len() <= old(self).rows@.len(),
    {
        if self.rows.len() >= 5 {
            let mut y: usize = self.rows.len();
            while y > 0
                invariant
                    y <= self.rows@.len(),
                    *self == *old(self),
                    self.rows@.len() >= 5,
                    self.trimmed + self.rows@.len() <= usize::MAX,
                    top_full(self.rows@, self.rows@.len()) == top_full(self.rows@, y as nat),
                decreases y,
            {
                y -= 1;
                if self.rows[y] == 0b1111111 {
                    let mut kept: Vec<u64> = Vec::new();
                    let mut k: usize = y;
                    while k < self.rows.len()
                        invariant
                            y <= k <= self.rows@.len(),
                            *self == *old(self),
                            self.rows@.len() >= 5,
                            self.trimmed + self.rows@.len() <= usize::MAX,
                            top_full(self.rows@, self.rows@.len()) == Some(y as int),
                            kept@ == self.rows@.subrange(y as int, k as int),
                        decreases self.rows@.len() - k,
                    {
                        kept.push(self.rows[k]);
                        k += 1;
                        assert(kept@ =~= self.rows@.subrange(y as int, k as int));
                    }
                    assert(kept@ =~= self.rows@.skip(y as int));
                    self.rows = kept;
                    self.trimmed += y;
                    return ;
                }
            }
        }
    }
}

impl Piece {
    /// The five rocks that fall in turn: a bar, a cross, a corner, a
    /// column and a block.
    pub fn default_pieces() -> (pieces: Vec<Piece>)
        ensures
            pieces@.len() == 5,
            pieces@[0].lines@ == seq![0b1111000u64],
            pieces@[1].lines@ == seq![0b0100000u64, 0b1110000u64, 0b0100000u64],
            pieces@[2].lines@ == seq![0b0010000u64, 0b0010000u64, 0b1110000u64],
            pieces@[3].lines@ == seq![0b1000000u64, 0b1000000u64, 0b1000000u64, 0b1000000u64],
            pieces@[4].lines@ == seq![0b1100000u64, 0b1100000u64],
    {
        let mut pieces: Vec<Piece> = Vec::new();
        pieces.push(Piece { lines: vec![0b1111000] });
        pieces.push(Piece { lines: vec![0b0100000, 0b1110000, 0b0100000] });
        pieces.push(Piece { lines: vec![0b0010000, 0b0010000, 0b1110000] });
        pieces.push(Piece { lines: vec![0b1000000, 0b1000000, 0b1000000, 0b1000000] });
        pieces.push(Piece { lines: vec![0b1100000, 0b1100000] });
        pieces
    }

    /// Whether the rock, with its top line in row `y` and moved `x` units
    /// to the right, leaves the chamber, reaches below the floor or lies on
    /// a rock at rest.
    pub fn collides_with_field(&self, field: &Field, pos: (isize, isize)) -> (b: bool)
        requires
            self.lines@.len() <= 0x1000_0000,
            -0x1000_0000 <= pos.1 <= isize::MAX,
        ensures
            b == hits(self.lines@, field.rows@, pos.0 as int, pos.1 as int),
    {
        let (x, y) = pos;
        let mut py: usize = 0;
        while py < self.lines.len()
            invariant
                py <= self.lines@.len(),
                pos == (x, y),
                self.lines@.len() <= 0x1000_0000,
                -0x1000_0000 <= y <= isize::MAX,
                forall|k: int|
                    0 <= k < py ==> !#[trigger] hits_line(self.lines@[k], field.rows@, x as int, y - k),
            decreases self.lines@.len() - py,
        {
            let l = self.lines[py];
            if x < 0 || x >= 64 {
                assert(hits_line(self.lines@[py as int], field.rows@, x as int, y - py));
                return true;
            }
            let shifted = l >> (x as u64);
            if count_ones(shifted & 0b1111111) != count_ones(l) {
                assert(hits_line(self.lines@[py as int], field.rows@, x as int, y - py));
                return true;
            }
            let yw = y - py as isize;
            if yw < 0 {
                assert(hits_line(self.lines@[py as int], field.rows@, x as int, y - py));
                return true;
            }
            if (yw as usize) < field.rows.len() {
                if (field.rows[yw as usize] & shifted) != 0 {
                    assert(hits_line(self.lines@[py as int], field.rows@, x as int, y - py));
                    return true;
                }
            }
            py += 1;
        }
        false
    }
}

/// The rows with as many empty rows on top as it takes to have row `y`.
pub open spec fn raised(rows: Seq<u64>, y: int) -> Seq<u64> {
    if rows.len() > y {
        rows
    } else {
        rows + Seq::new((y + 1 - rows.len()) as nat, |i: int| 0u64)
    }
}

/// The rows after a rock has come to rest with its top line in row `y`,
/// moved `x` units to the right: each of its lines is added to the row in
/// which it lies.
pub open spec fn placed(rows: Seq<u64>, lines: Seq<u64>, x: int, y: int) -> Seq<u64> {
    Seq::new(
        raised(rows, y).len(),
        |r: int|
            if y - lines.len() < r <= y {
                raised(rows, y)[r] | (lines[y - r] >> (x as u64))
            } else {
                raised(rows, y)[r]
            },
    )
}

impl Piece {
    /// Lets the rock come to rest with its top line in row `y`, moved `x`
    /// units to the right.
    pub fn place_on_field(&self, field: &mut Field, pos: (isize, isize))
        requires
            0 <= pos.0 < 64,
            0 <= pos.1 < isize::MAX,
            self.lines@.len() - 1 <= pos.1,
        ensures
            final(field).trimmed == old(field).trimmed,
            final(field).rows@ == placed(old(field).rows@, self.lines@, pos.0 as int, pos.1 as int),
    {
        let (x, y) = pos;
        let ghost start = field.rows@;
        while field.rows.len() <= y as usize
            invariant
                0 <= y < isize::MAX,
                field.trimmed == old(field).trimmed,
                start.len() <= field.rows@.len() <= larger(start.len() as int, y + 1),
                forall|r: int| 0 <= r < start.len() ==> field.rows@[r] == start[r],
                forall|r: int| start.len() <= r < field.rows@.len() ==> field.rows@[r] == 0,
            decreases y + 1 - field.rows@.len(),
        {
            field.rows.push(0);
        }
        assert(field.rows@ =~= raised(start, y as int));
        let ghost up = raised(start, y as int);
        let mut py: usize = 0;
        while py < self.lines.len()
            invariant
                py <= self.lines@.len(),
                0 <= x < 64,
                self.lines@.len() - 1 <= y < isize::MAX,
                field.trimmed == old(field).trimmed,
                up == raised(start, y as int),
                field.rows@.len() == up.len(),
                up.len() > y,
                forall|r: int|
                    0 <= r < up.len() ==> field.rows@[r] == (if y - py < r <= y {
                        up[r] | (self.lines@[y - r] >> (x as u64))
                    } else {
                        up[r]
                    }),
            decreases self.lines@.len() - py,
        {
            let l = self.lines[py];
            let at = y as usize - py;
            let row = field.rows[at];
            field.rows[at] = row | (l >> (x as u64));
            py += 1;
        }
        assert(field.rows@ =~= placed(start, self.lines@, x as int, y as int));
    }
}

/// The larger of two numbers.
pub open spec fn larger(a: int, b: int) -> int {
    if a >= b {
        a
    } else {
        b
    }
}

/// Where a rock comes to rest that hangs with its top line in row `y`,
/// moved `x` units to the right, when jet number `current` blows next:
/// the jet pushes it where it can, then it falls by one row where it
/// can and goes on, or else rests. Returns its place and the jet that
/// blows next.
pub open spec fn fall(
    lines: Seq<u64>,
    rows: Seq<u64>,
    dirs: Seq<isize>,
    current: int,
    x: int,
    y: int,
) -> (int, int, int)
    decreases y,
{
    let next = (current + 1) % (dirs.len() as int);
    let pushed = if hits(lines, rows, x + dirs[current], y) {
        x
    } else {
        x + dirs[current]
    };
    if y > 0 && !hits(lines, rows, pushed, y - 1) {
        fall(lines, rows, dirs, next, pushed, y - 1)
    } else {
        (pushed, y, next)
    }
}

/// The rows, the jet that blows next and the number of rocks that have
/// fallen, after one more rock has fallen: it appears with its lowest line
/// three rows above the highest row and two units from the left wall, and
/// comes to rest where it falls.
pub open spec fn rested(pieces: Seq<Piece>, dirs: Seq<isize>, state: (Seq<u64>, int, int)) -> (
    Seq<u64>,
    int,
    int,
) {
    let lines = pieces[state.2 % 5].lines@;
    let end = fall(lines, state.0, dirs, state.1, 2, (state.0.len() + 2 + lines.len()) as int);
    (placed(state.0, lines, end.0, end.1), end.2, state.2 + 1)
}

/// The same after `n` more rocks have fallen.
pub open spec fn rested_n(
    pieces: Seq<Piece>,
    dirs: Seq<isize>,
    state: (Seq<u64>, int, int),
    n: nat,
) -> (Seq<u64>, int, int)
    decreases n,
{
    if n == 0 {
        state
    } else {
        rested(pieces, dirs, rested_n(pieces, dirs, state, (n - 1) as nat))
    }
}

/// The chamber, the rocks that fall in turn, the jets, and the number of
/// rocks that have fallen.
#[derive(Clone)]
pub struct Game {
    pub pieces: Vec<Piece>,
    pub field: Field,
    pub control: Control,
    pub piece_count: usize,
}

impl Game {
    /// There are five rocks at least, each with a line and none with too
    /// many; there is a jet, the jet that blows next is one of them, and
    /// no jet pushes far; and the numbers kept are not too large.
    pub open spec fn wf(&self) -> bool {
        &&& self.pieces@.len() >= 5
        &&& forall|i: int| 0 <= i < self.pieces@.len() ==> 0 < (#[trigger] self.pieces@[i]).lines@.len() <= 0x1000
        &&& self.control.current < self.control.dirs@.len()
        &&& forall|i: int| 0 <= i < self.control.dirs@.len() ==> -0x1000 <= #[trigger] self.control.dirs@[i] <= 0x1000
        &&& self.field.rows@.len() <= 0x3fff_ffff
        &&& self.piece_count < usize::MAX
    }

    /// Whether another rock can fall.
    pub fn ready(&self) -> (b: bool)
        ensures
            b == self.wf(),
    {
        if self.pieces.len() < 5 || self.control.current >= self.control.dirs.len()
            || self.field.rows.len() > 0x3fff_ffff || self.piece_count == usize::MAX {
            return false;
        }
        let mut i: usize = 0;
        while i < self.pieces.len()
            invariant
                i <= self.pieces@.len(),
                forall|k: int| 0 <= k < i ==> 0 < (#[trigger] self.pieces@[k]).lines@.len() <= 0x1000,
            decreases self.pieces@.len() - i,
        {
            let n = self.pieces[i].lines.len();
            if n == 0 || n > 0x1000 {
                return false;
            }
            i += 1;
        }
        let mut j: usize = 0;
        while j < self.control.dirs.len()
            invariant
                j <= self.control.dirs@.len(),
                forall|k: int| 0 <= k < j ==> -0x1000 <= #[trigger] self.control.dirs@[k] <= 0x1000,
            decreases self.control.dirs@.len() - j,
        {
            let d = self.control.dirs[j];
            if d < -0x1000 || d > 0x1000 {
                return false;
            }
            j += 1;
        }
        true
    }

    /// The rows, the jet that blows next and the number of rocks that
    /// have fallen.
    pub open spec fn state(&self) -> (Seq<u64>, int, int) {
        (self.field.rows@, self.control.current as int, self.piece_count as int)
    }

    /// The height of the rocks at rest, the rows that were cut off
    /// included.
    pub fn height(&self) -> (h: usize)
        requires
            self.field.rows@.len() + self.field.trimmed <= usize::MAX,
        ensures
            h == self.field.rows@.len() + self.field.trimmed,
    {
        self.field.rows.len() + self.field.trimmed
    }

    /// Lets the next rock fall: it appears with its lowest line three rows
    /// above the highest row and two units from the left wall, and comes
    /// to rest where it falls.
    pub fn add_piece(&mut self)
        requires
            old(self).wf(),
        ensures
            final(self).pieces == old(self).pieces,
            final(self).control.dirs == old(self).control.dirs,
            final(self).field.trimmed == old(self).field.trimmed,
            final(self).state() == rested(old(self).pieces@, old(self).control.dirs@, old(self).state()),
            final(self).field.rows@.len() <= old(self).field.rows@.len() + 0x1003,
            final(self).control.current < final(self).control.dirs@.len(),
    {
        let which = self.piece_count % 5;
        self.piece_count += 1;
        let ghost lines = self.pieces@[which as int].lines@;
        let ghost rows = self.field.rows@;
        let ghost dirs = self.control.dirs@;
        let count = self.pieces[which].lines.len();
        let mut pos: (isize, isize) = (2, (self.field.rows.len() + 2 + count) as isize);
        let ghost start = (2int, pos.1 as int);
        let ghost first = self.control.current as int;
        loop
            invariant_except_break
                fall(lines, rows, dirs, first, start.0, start.1) == fall(
                    lines,
                    rows,
                    dirs,
                    self.control.current as int,
                    pos.0 as int,
                    pos.1 as int,
                ),
            invariant
                self.pieces == old(self).pieces,
                self.control.dirs == old(self).control.dirs,
                self.field == old(self).field,
                self.piece_count == old(self).piece_count + 1,
                which < self.pieces@.len(),
                lines == self.pieces@[which as int].lines@,
                0 < lines.len() <= 0x1000,
                rows == self.field.rows@,
                rows.len() <= 0x3fff_ffff,
                dirs == self.control.dirs@,
                self.control.current < dirs.len(),
                forall|i: int| 0 <= i < dirs.len() ==> -0x1000 <= #[trigger] dirs[i] <= 0x1000,
                0 <= pos.0 < 64,
                lines.len() - 1 <= pos.1 <= rows.len() + 2 + lines.len(),
            ensures
                self.pieces == old(self).pieces,
                self.control.dirs == old(self).control.dirs,
                self.field == old(self).field,
                self.piece_count == old(self).piece_count + 1,
                which < self.pieces@.len(),
                lines == self.pieces@[which as int].lines@,
                self.control.current < dirs.len(),
                dirs == self.control.dirs@,
                0 <= pos.0 < 64,
                lines.len() - 1 <= pos.1 <= rows.len() + 2 + lines.len(),
                fall(lines, rows, dirs, first, start.0, start.1) == (
                    pos.0 as int,
                    pos.1 as int,
                    self.control.current as int,
                ),
            decreases pos.1,
        {
            let dir = self.control.next();
            let p = &self.pieces[which];
            if !p.collides_with_field(&self.field, (pos.0 + dir, pos.1)) {
                proof {
                    lemma_free_is_inside(lines, rows, pos.0 + dir, pos.1 as int);
                }
                pos.0 += dir;
            }
            if !p.collides_with_field(&self.field, (pos.0, pos.1 - 1)) {
                proof {
                    lemma_free_is_inside(lines, rows, pos.0 as int, pos.1 - 1);
                }
                pos.1 -= 1;
            } else {
                proof {
                    if pos.1 > 0 {
                    } else {
                        assert(hits_line(lines[0], rows, pos.0 as int, pos.1 - 1 - 0));
                    }
                }
                break ;
            }
        }
        let p = &self.pieces[which];
        p.place_on_field(&mut self.field, pos);
    }

    /// Lets `num` rocks fall.
    pub fn add_pieces(&mut self, num: usize) -> (done: usize)
        requires
            old(self).wf(),
        ensures
            final(self).pieces == old(self).pieces,
            final(self).control.dirs == old(self).control.dirs,
            final(self).field.trimmed == old(self).field.trimmed,
            final(self).state() == rested_n(
                old(self).pieces@,
                old(self).control.dirs@,
                old(self).state(),
                done as nat,
            ),
            final(self).control.current < final(self).control.dirs@.len(),
            done <= num,
            done < num ==> !final(self).wf(),
    {
        let mut n: usize = 0;
        while n < num
            invariant
                n <= num,
                self.wf(),
                self.pieces == old(self).pieces,
                self.control.dirs == old(self).control.dirs,
                self.field.trimmed == old(self).field.trimmed,
                self.state() == rested_n(
                    old(self).pieces@,
                    old(self).control.dirs@,
                    old(self).state(),
                    n as nat,
                ),
            decreases num - n,
        {
            self.add_piece();
            n += 1;
            if self.field.rows.len() > 0x3fff_ffff || self.piece_count == usize::MAX {
                return n;
            }
        }
        n
    }
}

/// A rock that hits nothing has a line, lies inside the chamber and above
/// the floor.
pub proof fn lemma_free_is_inside(lines: Seq<u64>, rows: Seq<u64>, x: int, y: int)
    requires
        lines.len() > 0,
        !hits(lines, rows, x, y),
    ensures
        0 <= x < 64,
        y >= lines.len() - 1,
{
    assert(!hits_line(lines[0], rows, x, y - 0));
    assert(!hits_line(lines[lines.len() - 1], rows, x, y - (lines.len() - 1)));
}

/// The rows above the highest full row, that row included, and the
/// number of rows below it; the rows as they are, and zero, where there
/// are fewer than five rows or none is full.
pub open spec fn cut(rows: Seq<u64>) -> (Seq<u64>, int) {
    match top_full(rows, rows.len()) {
        Some(y) => if rows.len() >= 5 {
            (rows.skip(y), y)
        } else {
            (rows, 0)
        },
        None => (rows, 0),
    }
}

/// The rows, the number of rows cut off, the jet that blows next and the
/// number of rocks that have fallen, after a round: five more rocks have
/// fallen, and the rows below the highest full row have been cut off.
pub open spec fn round_of(pieces: Seq<Piece>, dirs: Seq<isize>, q: (Seq<u64>, int, int, int)) -> (
    Seq<u64>,
    int,
    int,
    int,
) {
    let r = rested_n(pieces, dirs, (q.0, q.2, q.3), 5);
    let c = cut(r.0);
    (c.0, q.1 + c.1, r.1, r.2)
}

/// The same after `k` rounds.
pub open spec fn rounds(
    pieces: Seq<Piece>,
    dirs: Seq<isize>,
    q: (Seq<u64>, int, int, int),
    k: nat,
) -> (Seq<u64>, int, int, int)
    decreases k,
{
    if k == 0 {
        q
    } else {
        round_of(pieces, dirs, rounds(pieces, dirs, q, (k - 1) as nat))
    }
}

/// The same after `m` more rocks have fallen and nothing has been cut
/// off.
pub open spec fn singles(
    pieces: Seq<Piece>,
    dirs: Seq<isize>,
    q: (Seq<u64>, int, int, int),
    m: nat,
) -> (Seq<u64>, int, int, int) {
    let r = rested_n(pieces, dirs, (q.0, q.2, q.3), m);
    (r.0, q.1, r.1, r.2)
}

/// A chamber that looks the same, with `a` more rows cut off and `b`
/// more rocks fallen.
pub open spec fn shifted(q: (Seq<u64>, int, int, int), a: int, b: int) -> (Seq<u64>, int, int, int) {
    (q.0, q.1 + a, q.2, q.3 + b)
}

/// Rocks fall alike in chambers that look the same, where the numbers of
/// rocks fallen differ by a multiple of five.
pub proof fn lemma_rested_n_shift(
    pieces: Seq<Piece>,
    dirs: Seq<isize>,
    s: (Seq<u64>, int, int),
    b: int,
    n: nat,
)
    requires
        b % 5 == 0,
    ensures
        rested_n(pieces, dirs, (s.0, s.1, s.2 + b), n) == ({
            let r = rested_n(pieces, dirs, s, n);
            (r.0, r.1, r.2 + b)
        }),
        rested_n(pieces, dirs, s, n).2 == s.2 + n,
    decreases n,
{
    if n > 0 {
        lemma_rested_n_shift(pieces, dirs, s, b, (n - 1) as nat);
        let r = rested_n(pieces, dirs, s, (n - 1) as nat);
        assert((r.2 + b) % 5 == r.2 % 5);
    }
}

/// Rounds go alike in chambers that look the same, where the numbers of
/// rocks fallen differ by a multiple of five.
pub proof fn lemma_rounds_shift(
    pieces: Seq<Piece>,
    dirs: Seq<isize>,
    q: (Seq<u64>, int, int, int),
    a: int,
    b: int,
    m: nat,
)
    requires
        b % 5 == 0,
    ensures
        rounds(pieces, dirs, shifted(q, a, b), m) == shifted(rounds(pieces, dirs, q, m), a, b),
        rounds(pieces, dirs, q, m).3 == q.3 + 5 * m,
    decreases m,
{
    if m > 0 {
        lemma_rounds_shift(pieces, dirs, q, a, b, (m - 1) as nat);
        let at = rounds(pieces, dirs, q, (m - 1) as nat);
        lemma_rested_n_shift(pieces, dirs, (at.0, at.2, at.3), b, 5);
    }
}

/// Rounds played one after the other add up.
pub proof fn lemma_rounds_add(
    pieces: Seq<Piece>,
    dirs: Seq<isize>,
    q: (Seq<u64>, int, int, int),
    a: nat,
    b: nat,
)
    ensures
        rounds(pieces, dirs, q, a + b) == rounds(pieces, dirs, rounds(pieces, dirs, q, a), b),
    decreases b,
{
    if b > 0 {
        lemma_rounds_add(pieces, dirs, q, a, (b - 1) as nat);
    }
}

/// Where the chamber looks after `k` rounds as it did after `j`, it does
/// so again after every `k - j` rounds more, and each time as many rows
/// more have been cut off.
pub proof fn law_rounds_repeat(
    pieces: Seq<Piece>,
    dirs: Seq<isize>,
    q: (Seq<u64>, int, int, int),
    j: nat,
    k: nat,
    a: int,
    c: nat,
)
    requires
        j < k,
        rounds(pieces, dirs, q, k) == shifted(rounds(pieces, dirs, q, j), a, 5 * (k - j)),
    ensures
        rounds(pieces, dirs, q, (k + c * (k - j)) as nat) == shifted(
            rounds(pieces, dirs, q, k),
            c * a,
            c * (5 * (k - j)),
        ),
    decreases c,
{
    let p = (k - j) as nat;
    let b = 5 * (k - j);
    if c == 0 {
        assert(c * (k - j) == 0 && c * a == 0 && c * b == 0) by (nonlinear_arith)
            requires
                c == 0,
        ;
    } else {
        let e = (c - 1) as nat;
        law_rounds_repeat(pieces, dirs, q, j, k, a, e);
        assert(c * (k - j) == e * (k - j) + (k - j) && c * a == e * a + a && c * b == e * b + b)
            by (nonlinear_arith)
            requires
                e == c - 1,
        ;
        assert(e * (k - j) >= 0) by (nonlinear_arith)
            requires
                e >= 0,
                k - j >= 0,
        ;
        let far = (k + e * (k - j)) as nat;
        lemma_rounds_add(pieces, dirs, q, far, p);
        lemma_rounds_add(pieces, dirs, q, j, p);
        let sj = rounds(pieces, dirs, q, j);
        let sk = rounds(pieces, dirs, q, k);
        assert(e * b == 5 * (e * (k - j))) by (nonlinear_arith)
            requires
                b == 5 * (k - j),
        ;
        assert((e * b) % 5 == 0);
        lemma_rounds_shift(pieces, dirs, sk, e * a, e * b, p);
        lemma_rounds_shift(pieces, dirs, sj, a, b, p);
        assert(rounds(pieces, dirs, sj, p) == sk);
        assert(rounds(pieces, dirs, sk, p) == shifted(sk, a, b));
    }
}

/// A chamber seen after a round: its rows, the jet that blows next, the
/// number of rows cut off and the number of rocks fallen.
pub struct Sight {
    pub rows: Vec<u64>,
    pub current: usize,
    pub trimmed: usize,
    pub piece_count: usize,
}

/// Why rocks stopped falling before the number asked for had fallen.
#[derive(Debug, Clone, Copy, PartialEq, Eq)]
pub enum Stopped {
    Limit,
    Passed,
    TooLarge,
}

/// What a sight holds.
pub open spec fn sight_of(s: Sight) -> (Seq<u64>, int, int, int) {
    (s.rows@, s.trimmed as int, s.current as int, s.piece_count as int)
}

/// Whether two chambers look the same: they have the same rows, and the
/// same jet blows next.
pub open spec fn alike(a: (Seq<u64>, int, int, int), b: (Seq<u64>, int, int, int)) -> bool {
    a.0 == b.0 && a.2 == b.2
}

/// Whether no chamber looks after a round as it did after an earlier
/// one, in the first `limit` rounds.
pub open spec fn no_repeat(
    pieces: Seq<Piece>,
    dirs: Seq<isize>,
    q: (Seq<u64>, int, int, int),
    limit: nat,
) -> bool {
    forall|j: nat, k: nat|
        1 <= j < k <= limit ==> !alike(
            #[trigger] rounds(pieces, dirs, q, j),
            #[trigger] rounds(pieces, dirs, q, k),
        )
}

/// Whether a chamber is too large to be kept: it has too many rows, or
/// its height or the number of its rocks cannot be counted.
pub open spec fn big(s: (Seq<u64>, int, int, int)) -> bool {
    s.0.len() > 0x3fff_ffff || s.1 + s.0.len() > usize::MAX || s.3 >= usize::MAX
}

/// Whether the chamber is too large after some rounds and some rocks
/// more.
pub open spec fn too_large(pieces: Seq<Piece>, dirs: Seq<isize>, q: (Seq<u64>, int, int, int)) -> bool {
    exists|k: nat, m: nat| big(#[trigger] singles(pieces, dirs, rounds(pieces, dirs, q, k), m))
}

/// The highest full row among some rows is one of them.
pub proof fn lemma_top_full(rows: Seq<u64>, n: nat)
    ensures
        top_full(rows, n) matches Some(y) ==> 0 <= y < n,
    decreases n,
{
    if n > 0 && rows[n - 1] != FULL {
        lemma_top_full(rows, (n - 1) as nat);
    }
}

/// No fewer rows have been cut off after more rounds.
pub proof fn lemma_rounds_cut(
    pieces: Seq<Piece>,
    dirs: Seq<isize>,
    q: (Seq<u64>, int, int, int),
    j: nat,
    k: nat,
)
    requires
        j <= k,
    ensures
        rounds(pieces, dirs, q, j).1 <= rounds(pieces, dirs, q, k).1,
    decreases k,
{
    if j < k {
        lemma_rounds_cut(pieces, dirs, q, j, (k - 1) as nat);
        let at = rounds(pieces, dirs, q, (k - 1) as nat);
        let r = rested_n(pieces, dirs, (at.0, at.2, at.3), 5);
        lemma_top_full(r.0, r.0.len());
    }
}

impl Game {
    /// The rows, the number of rows cut off, the jet that blows next and
    /// the number of rocks that have fallen.
    pub open spec fn whole(&self) -> (Seq<u64>, int, int, int) {
        (
            self.field.rows@,
            self.field.trimmed as int,
            self.control.current as int,
            self.piece_count as int,
        )
    }

    /// A chamber seen that looked as this one does, if there was one.
    fn recall(&self, seen: &Vec<Sight>) -> (r: Option<usize>)
        ensures
            match r {
                Some(i) => i < seen@.len() && seen@[i as int].rows@ == self.field.rows@
                    && seen@[i as int].current == self.control.current,
                None => forall|i: int|
                    0 <= i < seen@.len() ==> !((#[trigger] seen@[i]).rows@ == self.field.rows@
                        && seen@[i].current == self.control.current),
            },
    {
        let mut i: usize = 0;
        while i < seen.len()
            invariant
                i <= seen@.len(),
                forall|k: int|
                    0 <= k < i ==> !((#[trigger] seen@[k]).rows@ == self.field.rows@
                        && seen@[k].current == self.control.current),
            decreases seen@.len() - i,
        {
            let s = &seen[i];
            if s.current == self.control.current && s.rows.len() == self.field.rows.len() {
                let mut y: usize = 0;
                while y < s.rows.len() && s.rows[y] == self.field.rows[y]
                    invariant
                        y <= s.rows@.len(),
                        s.rows@.len() == self.field.rows@.len(),
                        forall|k: int| 0 <= k < y ==> s.rows@[k] == self.field.rows@[k],
                    decreases s.rows@.len() - y,
                {
                    y += 1;
                }
                if y == s.rows.len() {
                    assert(s.rows@ =~= self.field.rows@);
                    return Some(i);
                }
                assert(s.rows@[y as int] != self.field.rows@[y as int]);
            }
            i += 1;
        }
        None
    }

    /// The chamber as it is seen now.
    fn sight(&self) -> (s: Sight)
        ensures
            s.rows@ == self.field.rows@,
            s.current == self.control.current,
            s.trimmed == self.field.trimmed,
            s.piece_count == self.piece_count,
    {
        let mut rows: Vec<u64> = Vec::new();
        let mut y: usize = 0;
        while y < self.field.rows.len()
            invariant
                y <= self.field.rows@.len(),
                rows@ == self.field.rows@.take(y as int),
            decreases self.field.rows@.len() - y,
        {
            rows.push(self.field.rows[y]);
            y += 1;
            assert(rows@ =~= self.field.rows@.take(y as int));
        }
        assert(rows@ =~= self.field.rows@);
        Sight {
            rows,
            current: self.control.current,
            trimmed: self.field.trimmed,
            piece_count: self.piece_count,
        }
    }

    /// Lets rocks fall until `num` have fallen, without working through
    /// all of them: rounds of five rocks are played, each followed by
    /// cutting off the rows below the highest full row, until the chamber
    /// looks as it did after an earlier round; the rounds between the two
    /// are then taken to repeat as often as they fit, and the rocks that
    /// are left fall one by one. Returns the number of rounds that the
    /// chamber stands for, or why it stopped: no chamber came again
    /// within `limit` rounds, more than `num` rocks had fallen when one
    /// did, or a number grew too large.
    pub fn add_pieces_bulk(&mut self, num: usize, limit: usize) -> (played: Result<usize, Stopped>)
        requires
            old(self).wf(),
        ensures
            final(self).pieces == old(self).pieces,
            final(self).control.dirs == old(self).control.dirs,
            match played {
                Ok(k) => old(self).piece_count + 5 * k <= num && final(self).whole() == singles(
                    old(self).pieces@,
                    old(self).control.dirs@,
                    rounds(old(self).pieces@, old(self).control.dirs@, old(self).whole(), k as nat),
                    (num - old(self).piece_count - 5 * k) as nat,
                ),
                Err(Stopped::Limit) => final(self).whole() == rounds(
                    old(self).pieces@,
                    old(self).control.dirs@,
                    old(self).whole(),
                    limit as nat,
                ) && no_repeat(
                    old(self).pieces@,
                    old(self).control.dirs@,
                    old(self).whole(),
                    limit as nat,
                ),
                Err(Stopped::Passed) => final(self).piece_count > num && exists|k: nat|
                    1 <= k <= limit && final(self).whole() == #[trigger] rounds(
                        old(self).pieces@,
                        old(self).control.dirs@,
                        old(self).whole(),
                        k,
                    ),
                Err(Stopped::TooLarge) => too_large(
                    old(self).pieces@,
                    old(self).control.dirs@,
                    old(self).whole(),
                ),
            },
    {
        let ghost pieces = self.pieces@;
        let ghost dirs = self.control.dirs@;
        let ghost q = self.whole();
        let start = self.piece_count;
        let mut seen: Vec<Sight> = Vec::new();
        let mut k: usize = 0;
        while k < limit
            invariant
                k <= limit,
                self.wf(),
                self.pieces == old(self).pieces,
                self.control.dirs == old(self).control.dirs,
                pieces == self.pieces@,
                dirs == self.control.dirs@,
                q == old(self).whole(),
                start == q.3,
                self.whole() == rounds(pieces, dirs, q, k as nat),
                no_repeat(pieces, dirs, q, k as nat),
                seen@.len() == (if k == 0 { 0int } else { k - 1 }),
                forall|i: int|
                    0 <= i < seen@.len() ==> sight_of(#[trigger] seen@[i]) == rounds(
                        pieces,
                        dirs,
                        q,
                        (i + 1) as nat,
                    ),
            decreases limit - k,
        {
            if k > 0 {
                let now = self.sight();
                seen.push(now);
            }
            let ghost at = self.whole();
            let done = self.add_pieces(5);
            proof {
                assert(self.whole() == singles(pieces, dirs, at, done as nat));
            }
            if done < 5 || self.field.rows.len() > 0x3fff_ffff || self.piece_count == usize::MAX {
                proof {
                    assert(big(singles(pieces, dirs, rounds(pieces, dirs, q, k as nat), done as nat)));
                }
                return Err(Stopped::TooLarge);
            }
            if self.field.trimmed > usize::MAX - self.field.rows.len() {
                proof {
                    assert(big(singles(pieces, dirs, rounds(pieces, dirs, q, k as nat), 5)));
                }
                return Err(Stopped::TooLarge);
            }
            self.field.trim();
            k += 1;
            proof {
                assert(self.whole() == round_of(pieces, dirs, at));
                lemma_rounds_shift(pieces, dirs, q, 0, 0, k as nat);
            }
            match self.recall(&seen) {
                Some(i) => {
                    let before = &seen[i];
                    let ghost j = (i + 1) as nat;
                    proof {
                        lemma_rounds_shift(pieces, dirs, q, 0, 0, j);
                        lemma_rounds_cut(pieces, dirs, q, j, k as nat);
                        assert(sight_of(*before) == rounds(pieces, dirs, q, j));
                    }
                    if num < self.piece_count {
                        return Err(Stopped::Passed);
                    }
                    let diff = self.piece_count - before.piece_count;
                    let trimmed_diff = self.field.trimmed - before.trimmed;
                    let cycles = (num - self.piece_count) / diff;
                    let ghost far = (k + cycles * (k - j)) as nat;
                    let ghost base = rounds(pieces, dirs, q, far);
                    proof {
                        assert(self.whole() == shifted(
                            rounds(pieces, dirs, q, j),
                            trimmed_diff as int,
                            5 * (k - j),
                        ));
                        law_rounds_repeat(pieces, dirs, q, j, k as nat, trimmed_diff as int, cycles as nat);
                        vstd::arithmetic::div_mod::lemma_fundamental_div_mod(
                            (num - self.piece_count) as int,
                            diff as int,
                        );
                        vstd::arithmetic::div_mod::lemma_mod_bound(
                            (num - self.piece_count) as int,
                            diff as int,
                        );
                        assert(cycles * diff == diff * cycles) by (nonlinear_arith);
                        assert(cycles * (k - j) >= 0) by (nonlinear_arith)
                            requires
                                cycles >= 0,
                                k - j >= 0,
                        ;
                        assert(cycles * (5 * (k - j)) == 5 * (cycles * (k - j))) by (nonlinear_arith);
                        lemma_rounds_shift(pieces, dirs, q, 0, 0, far);
                        assert(base == singles(pieces, dirs, base, 0));
                    }
                    let more = match cycles.checked_mul(trimmed_diff) {
                        Some(m) => m,
                        None => {
                            proof {
                                assert(big(singles(pieces, dirs, base, 0)));
                            }
                            return Err(Stopped::TooLarge);
                        },
                    };
                    if self.field.trimmed > usize::MAX - more {
                        proof {
                            assert(big(singles(pieces, dirs, base, 0)));
                        }
                        return Err(Stopped::TooLarge);
                    }
                    self.piece_count += cycles * diff;
                    self.field.trimmed += more;
                    proof {
                        assert(self.whole() == base);
                    }
                    let played = (self.piece_count - start) / 5;
                    while self.piece_count < num
                        invariant
                            self.piece_count <= num,
                            self.pieces == old(self).pieces,
                            self.control.dirs == old(self).control.dirs,
                            pieces == self.pieces@,
                            dirs == self.control.dirs@,
                            self.pieces@.len() >= 5,
                            forall|i: int|
                                0 <= i < self.pieces@.len() ==> 0 < (#[trigger] self.pieces@[i]).lines@.len()
                                    <= 0x1000,
                            self.control.current < self.control.dirs@.len(),
                            forall|i: int|
                                0 <= i < self.control.dirs@.len() ==> -0x1000
                                    <= #[trigger] self.control.dirs@[i] <= 0x1000,
                            base.3 == start + 5 * far,
                            base.3 <= self.piece_count,
                            played == far,
                            base == rounds(pieces, dirs, q, far),
                            q == old(self).whole(),
                            start == q.3,
                            self.whole() == singles(
                                pieces,
                                dirs,
                                base,
                                (self.piece_count - base.3) as nat,
                            ),
                        decreases num - self.piece_count,
                    {
                        if self.field.rows.len() > 0x3fff_ffff {
                            proof {
                                assert(big(
                                    singles(pieces, dirs, base, (self.piece_count - base.3) as nat),
                                ));
                            }
                            return Err(Stopped::TooLarge);
                        }
                        self.add_piece();
                    }
                    return Ok(played);
                },
                None => {
                    proof {
                        assert forall|a: nat, b: nat| 1 <= a < b <= k implies !alike(
                            #[trigger] rounds(pieces, dirs, q, a),
                            #[trigger] rounds(pieces, dirs, q, b),
                        ) by {
                            if b == k {
                                assert(sight_of(seen@[a - 1]) == rounds(pieces, dirs, q, a));
                            }
                        }
                    }
                },
            }
        }
        Err(Stopped::Limit)
    }
}

/// Whether a rock fills the unit `n` of a row, counted from the left
/// wall.
pub open spec fn filled(row: u64, n: int) -> bool {
    ((row << (n as u64)) & 64u64) == 64u64
}

/// The picture of a row: a `#` for each wall, and between them a `*` for
/// each unit that a rock fills and a dot for each that is free; then a
/// line feed.
pub open spec fn drawn_row(row: u64) -> Seq<char> {
    seq!['#'] + Seq::new(7, |n: int| if filled(row, n) { '*' } else { '.' }) + seq!['#', '\n']
}

/// The picture of the rows above the first `n`, the highest first.
pub open spec fn drawn_rows(rows: Seq<u64>, n: nat) -> Seq<char>
    decreases rows.len() - n,
{
    if n >= rows.len() {
        Seq::empty()
    } else {
        drawn_rows(rows, n + 1) + drawn_row(rows[n as int])
    }
}

/// The picture of a chamber: a line with the number of rows and the jet
/// that blows next, and the rows from the highest down.
pub open spec fn drawn(rows: Seq<u64>, current: nat) -> Seq<char> {
    seq!['F', 'i', 'e', 'l', 'd', ' '] + decimal(rows.len()) + seq![' '] + decimal(current)
        + seq!['\n'] + drawn_rows(rows, 0)
}

impl Game {
    /// The picture of the chamber.
    pub fn show(&self) -> (out: String)
        ensures
            out@ == drawn(self.field.rows@, self.control.current as nat),
    {
        let mut out = String::new();
        out.push('F');
        out.push('i');
        out.push('e');
        out.push('l');
        out.push('d');
        out.push(' ');
        push_decimal(&mut out, self.field.rows.len(), 0);
        out.push(' ');
        push_decimal(&mut out, self.control.current, 0);
        out.push('\n');
        let ghost head = out@;
        assert(head =~= seq!['F', 'i', 'e', 'l', 'd', ' '] + decimal(self.field.rows@.len()) + seq![
            ' ',
        ] + decimal(self.control.current as nat) + seq!['\n']);
        let ghost rows = self.field.rows@;
        let mut c: usize = self.field.rows.len();
        assert(out@ =~= head + drawn_rows(rows, c as nat));
        while c > 0
            invariant
                c <= self.field.rows@.len(),
                rows == self.field.rows@,
                out@ == head + drawn_rows(rows, c as nat),
            decreases c,
        {
            c -= 1;
            let row = self.field.rows[c];
            let ghost before = out@;
            out.push('#');
            let mut n: u64 = 0;
            while n < 7
                invariant
                    n <= 7,
                    out@ == before + seq!['#'] + Seq::new(
                        n as nat,
                        |k: int| if filled(row, k) { '*' } else { '.' },
                    ),
                decreases 7 - n,
            {
                let v = ((row << n) & (1u64 << 6)) == (1u64 << 6);
                assert((1u64 << 6) == 64u64) by (bit_vector);
                if v {
                    out.push('*');
                } else {
                    out.push('.');
                }
                n += 1;
                assert(out@ =~= before + seq!['#'] + Seq::new(
                    n as nat,
                    |k: int| if filled(row, k) { '*' } else { '.' },
                ));
            }
            out.push('#');
            out.push('\n');
            proof {
                assert(out@ =~= before + drawn_row(row));
                assert(drawn_rows(rows, c as nat) =~= drawn_rows(rows, (c + 1) as nat) + drawn_row(
                    row,
                ));
                assert(out@ =~= head + drawn_rows(rows, c as nat));
            }
        }
        out
    }
}

/// The pushes that a line of jets stands for: one unit to the left for
/// a `<`, one to the right for anything else.
pub open spec fn jets_of(line: Seq<char>) -> Seq<isize> {
    Seq::new(line.len(), |i: int| if line[i] == '<' { -1isize } else { 1isize })
}

/// Reads a line of jets.
pub fn read_jets(line: &Vec<char>) -> (dirs: Vec<isize>)
    ensures
        dirs@ == jets_of(line@),
{
    let mut dirs: Vec<isize> = Vec::new();
    let mut i: usize = 0;
    while i < line.len()
        invariant
            i <= line@.len(),
            dirs@ == jets_of(line@.take(i as int)),
        decreases line@.len() - i,
    {
        if line[i] == '<' {
            dirs.push(-1);
        } else {
            dirs.push(1);
        }
        i += 1;
        assert(dirs@ =~= jets_of(line@.take(i as int)));
    }
    assert(line@.take(line@.len() as int) =~= line@);
    dirs
}

} // verus!
