//! Dwarves that spread out over a board. In every round each dwarf that
//! has a neighbour looks north, south, west and east, beginning one
//! direction later each round, and picks the first square towards which
//! all three squares are free. Those whose square nobody else has picked
//! move there.

use vstd::prelude::*;

verus! {

/// A dwarf: the square it has picked, if any; where it stands; and whether
/// it may have a neighbour.
#[derive(Clone, Copy)]
pub struct Dwarf {
    pub dest: Option<(usize, usize)>,
    pub pos: (usize, usize),
    pub awake: bool,
}

/// What a square holds: nothing, the dwarf of that number, the mark of one
/// dwarf that has picked it, or the mark of several.
#[derive(Copy, Clone, PartialEq, Eq, Structural)]
pub enum Square {
    Empty,
    Dwarf(u16),
    Marked,
    OverMarked,
}

/// The board row by row, the dwarves, the number of rounds played, whether
/// the last round moved nobody, and how many moves there have been.
pub struct Board {
    pub width: usize,
    pub height: usize,
    pub round: usize,
    pub finished: bool,
    pub moved: usize,
    pub squares: Vec<Square>,
    pub dwarves: Vec<Dwarf>,
}

/// Whether a dwarf stands on `p`.
pub open spec fn taken(places: Seq<(int, int)>, p: (int, int)) -> bool {
    exists|i: int| 0 <= i < places.len() && #[trigger] places[i] == p
}

/// Whether none of the eight squares around `p` holds a dwarf.
pub open spec fn alone(places: Seq<(int, int)>, p: (int, int)) -> bool {
    &&& !taken(places, (p.0 - 1, p.1 - 1))
    &&& !taken(places, (p.0, p.1 - 1))
    &&& !taken(places, (p.0 + 1, p.1 - 1))
    &&& !taken(places, (p.0 - 1, p.1))
    &&& !taken(places, (p.0 + 1, p.1))
    &&& !taken(places, (p.0 - 1, p.1 + 1))
    &&& !taken(places, (p.0, p.1 + 1))
    &&& !taken(places, (p.0 + 1, p.1 + 1))
}

/// The square next to `p` in direction `k`: north, south, west, east.
pub open spec fn ahead(p: (int, int), k: int) -> (int, int) {
    if k == 0 {
        (p.0, p.1 - 1)
    } else if k == 1 {
        (p.0, p.1 + 1)
    } else if k == 2 {
        (p.0 - 1, p.1)
    } else {
        (p.0 + 1, p.1)
    }
}

/// Whether the three squares next to `p` in direction `k` hold no dwarf.
pub open spec fn free(places: Seq<(int, int)>, p: (int, int), k: int) -> bool {
    if k == 0 {
        !taken(places, (p.0 - 1, p.1 - 1)) && !taken(places, (p.0, p.1 - 1)) && !taken(
            places,
            (p.0 + 1, p.1 - 1),
        )
    } else if k == 1 {
        !taken(places, (p.0 - 1, p.1 + 1)) && !taken(places, (p.0, p.1 + 1)) && !taken(
            places,
            (p.0 + 1, p.1 + 1),
        )
    } else if k == 2 {
        !taken(places, (p.0 - 1, p.1 - 1)) && !taken(places, (p.0 - 1, p.1)) && !taken(
            places,
            (p.0 - 1, p.1 + 1),
        )
    } else {
        !taken(places, (p.0 + 1, p.1 - 1)) && !taken(places, (p.0 + 1, p.1)) && !taken(
            places,
            (p.0 + 1, p.1 + 1),
        )
    }
}

/// The square that a dwarf on `p` picks when it has tried `cn` directions
/// in vain: the one in the first of the other directions that is free.
pub open spec fn choice(places: Seq<(int, int)>, round: int, p: (int, int), cn: int) -> Option<
    (int, int),
>
    decreases 4 - cn,
{
    if cn >= 4 || cn < 0 {
        None
    } else if free(places, p, (cn + round) % 4) {
        Some(ahead(p, (cn + round) % 4))
    } else {
        choice(places, round, p, cn + 1)
    }
}

/// The square that a dwarf on `p` picks: none where it has no neighbour
/// or no direction is free.
pub open spec fn wish(places: Seq<(int, int)>, round: int, p: (int, int)) -> Option<(int, int)> {
    if alone(places, p) {
        None
    } else {
        choice(places, round, p, 0)
    }
}

/// The square that dwarf `i` picks.
pub open spec fn wish_of(places: Seq<(int, int)>, round: int, i: int) -> Option<(int, int)> {
    wish(places, round, places[i])
}

/// Whether another dwarf picks the square that dwarf `i` picks.
pub open spec fn rival(places: Seq<(int, int)>, round: int, i: int) -> bool {
    exists|j: int|
        0 <= j < places.len() && j != i && #[trigger] wish_of(places, round, j) == wish_of(
            places,
            round,
            i,
        )
}

/// Where dwarf `i` stands after the round: on the square it has picked,
/// where it has picked one and nobody else has picked the same.
pub open spec fn next_place(places: Seq<(int, int)>, round: int, i: int) -> (int, int) {
    match wish_of(places, round, i) {
        Some(t) => if rival(places, round, i) {
            places[i]
        } else {
            t
        },
        None => places[i],
    }
}

/// Where the dwarves stand after the round.
pub open spec fn next_places(places: Seq<(int, int)>, round: int) -> Seq<(int, int)> {
    Seq::new(places.len(), |i: int| next_place(places, round, i))
}

/// How many of the first `d` dwarves move in the round.
pub open spec fn movers(places: Seq<(int, int)>, round: int, d: nat) -> nat
    decreases d,
{
    if d == 0 {
        0
    } else {
        movers(places, round, (d - 1) as nat) + if next_place(places, round, d - 1) != places[d
            - 1] {
            1nat
        } else {
            0nat
        }
    }
}

/// How many of the first `d` dwarves pick the square `p`.
pub open spec fn claims(places: Seq<(int, int)>, round: int, d: nat, p: (int, int)) -> nat
    decreases d,
{
    if d == 0 {
        0
    } else {
        claims(places, round, (d - 1) as nat, p) + if wish_of(places, round, d - 1) == Some(p) {
            1nat
        } else {
            0nat
        }
    }
}

/// The square that a dwarf has picked, as a pair of numbers.
pub open spec fn dest_place(d: Dwarf) -> Option<(int, int)> {
    match d.dest {
        Some(t) => Some((t.0 as int, t.1 as int)),
        None => None,
    }
}

/// Squares of one board with different coordinates lie apart in the row
/// of squares, and all of them lie inside it.
pub proof fn lemma_cells(w: int, h: int, x: int, y: int, x2: int, y2: int)
    requires
        0 <= x < w,
        0 <= x2 < w,
        0 <= y < h,
        0 <= y2 < h,
    ensures
        0 <= y * w,
        0 <= y * w + x < w * h,
        y * w + x == y2 * w + x2 ==> x == x2 && y == y2,
{
    assert(0 <= y * w && 0 <= y * w + x < w * h) by (nonlinear_arith)
        requires
            0 <= x < w,
            0 <= y < h,
    ;
    if y < y2 {
        assert(y * w + x < y2 * w + x2) by (nonlinear_arith)
            requires
                0 <= x < w,
                0 <= x2,
                y + 1 <= y2,
        ;
    }
    if y2 < y {
        assert(y2 * w + x2 < y * w + x) by (nonlinear_arith)
            requires
                0 <= x2 < w,
                0 <= x,
                y2 + 1 <= y,
        ;
    }
}

impl Board {
    /// Where the dwarves stand.
    pub open spec fn places(&self) -> Seq<(int, int)> {
        Seq::new(
            self.dwarves@.len(),
            |i: int| (self.dwarves@[i].pos.0 as int, self.dwarves@[i].pos.1 as int),
        )
    }

    /// What the square in column `x` of row `y` holds.
    pub open spec fn at(&self, x: int, y: int) -> Square {
        self.squares@[y * self.width + x]
    }

    /// The board has a square at least and as many as its width and
    /// height say, there are no more dwarves than can be numbered, and
    /// each stands on the board.
    pub open spec fn grid_ok(&self) -> bool {
        &&& 0 < self.width <= isize::MAX
        &&& 0 < self.height <= isize::MAX
        &&& self.squares@.len() == self.width * self.height
        &&& self.dwarves@.len() <= 0x10000
        &&& forall|i: int|
            0 <= i < self.dwarves@.len() ==> (#[trigger] self.dwarves@[i]).pos.0 < self.width
                && self.dwarves@[i].pos.1 < self.height
    }

    /// Each dwarf's square holds its number, and a square that holds a
    /// number is that dwarf's.
    pub open spec fn seated(&self) -> bool {
        &&& forall|i: int|
            0 <= i < self.dwarves@.len() ==> self.at(
                (#[trigger] self.dwarves@[i]).pos.0 as int,
                self.dwarves@[i].pos.1 as int,
            ) == Square::Dwarf(i as u16)
        &&& forall|x: int, y: int|
            0 <= x < self.width && 0 <= y < self.height ==> match #[trigger] self.at(x, y) {
                Square::Dwarf(k) => k < self.dwarves@.len() && self.dwarves@[k as int].pos == (
                    x as usize,
                    y as usize,
                ),
                _ => true,
            }
    }

    /// A dwarf that is not awake has no neighbour.
    pub open spec fn sleepers_alone(&self) -> bool {
        forall|i: int|
            0 <= i < self.dwarves@.len() && !(#[trigger] self.dwarves@[i]).awake ==> alone(
                self.places(),
                self.places()[i],
            )
    }

    /// No dwarf has picked a square and no square is marked.
    pub open spec fn unmarked(&self) -> bool {
        &&& forall|i: int|
            0 <= i < self.dwarves@.len() ==> (#[trigger] self.dwarves@[i]).dest is None
        &&& forall|x: int, y: int|
            0 <= x < self.width && 0 <= y < self.height ==> #[trigger] self.at(x, y)
                != Square::Marked && self.at(x, y) != Square::OverMarked
    }

    /// The board between two rounds.
    pub open spec fn wf(&self) -> bool {
        &&& self.grid_ok()
        &&& self.seated()
        &&& self.sleepers_alone()
        &&& self.unmarked()
    }

    /// Every dwarf has two squares at least between itself and each edge
    /// of the board.
    pub open spec fn roomy(&self) -> bool {
        forall|i: int|
            0 <= i < self.dwarves@.len() ==> 2 <= (#[trigger] self.dwarves@[i]).pos.0
                && self.dwarves@[i].pos.0 + 2 < self.width && 2 <= self.dwarves@[i].pos.1
                && self.dwarves@[i].pos.1 + 2 < self.height
    }

    /// What the square in column `x` of row `y` holds.
    pub fn look(&self, x: usize, y: usize) -> (sq: Square)
        requires
            self.squares@.len() == self.width * self.height,
            x < self.width,
            y < self.height,
        ensures
            sq == self.at(x as int, y as int),
    {
        let total = self.squares.len();
        proof {
            lemma_cells(self.width as int, self.height as int, x as int, y as int, 0, 0);
        }
        self.squares[y * self.width + x]
    }

    /// Lets the square in column `x` of row `y` hold `sq`.
    pub fn put(&mut self, x: usize, y: usize, sq: Square)
        requires
            old(self).squares@.len() == old(self).width * old(self).height,
            x < old(self).width,
            y < old(self).height,
        ensures
            final(self).width == old(self).width,
            final(self).height == old(self).height,
            final(self).round == old(self).round,
            final(self).finished == old(self).finished,
            final(self).moved == old(self).moved,
            final(self).dwarves == old(self).dwarves,
            final(self).squares@.len() == old(self).squares@.len(),
            final(self).at(x as int, y as int) == sq,
            forall|x2: int, y2: int|
                0 <= x2 < old(self).width && 0 <= y2 < old(self).height && (x2 != x || y2 != y)
                    ==> #[trigger] final(self).at(x2, y2) == old(self).at(x2, y2),
    {
        let total = self.squares.len();
        proof {
            lemma_cells(self.width as int, self.height as int, x as int, y as int, 0, 0);
        }
        let at = y * self.width + x;
        self.squares[at] = sq;
        proof {
            assert forall|x2: int, y2: int|
                0 <= x2 < self.width && 0 <= y2 < self.height && (x2 != x
                    || y2 != y) implies #[trigger] self.at(x2, y2) == old(self).at(x2, y2) by {
                lemma_cells(self.width as int, self.height as int, x2, y2, x as int, y as int);
            }
        }
    }
}

/// The three neighbours, out of eight numbered row by row, that lie in
/// direction `k`, as a set of bits.
pub open spec fn mask_of(k: int) -> u8 {
    if k == 0 {
        0b0000_0111
    } else if k == 1 {
        0b1110_0000
    } else if k == 2 {
        0b0010_1001
    } else {
        0b1001_0100
    }
}

/// The step and the three neighbours of direction `k`.
fn check(k: usize) -> (r: ((isize, isize), u8))
    requires
        k < 4,
    ensures
        (r.0.0 as int, r.0.1 as int) == ahead((0, 0), k as int),
        r.1 == mask_of(k as int),
{
    if k == 0 {
        ((0, -1), 0b111)
    } else if k == 1 {
        ((0, 1), 0b11100000)
    } else if k == 2 {
        ((-1, 0), 0b00101001)
    } else {
        ((1, 0), 0b10010100)
    }
}

/// Eight bits put together are zero where each is, and share nothing
/// with the three of a direction where each of those three is zero.
proof fn lemma_masks(a0: u8, a1: u8, a2: u8, a3: u8, a4: u8, a5: u8, a6: u8, a7: u8)
    requires
        a0 == 0 || a0 == 1,
        a1 == 0 || a1 == 2,
        a2 == 0 || a2 == 4,
        a3 == 0 || a3 == 8,
        a4 == 0 || a4 == 16,
        a5 == 0 || a5 == 32,
        a6 == 0 || a6 == 64,
        a7 == 0 || a7 == 128,
    ensures
        ((a0 | a1 | a2 | a3 | a4 | a5 | a6 | a7) == 0) == (a0 == 0 && a1 == 0 && a2 == 0 && a3 == 0
            && a4 == 0 && a5 == 0 && a6 == 0 && a7 == 0),
        ((a0 | a1 | a2 | a3 | a4 | a5 | a6 | a7) & 0b0000_0111 == 0) == (a0 == 0 && a1 == 0 && a2
            == 0),
        ((a0 | a1 | a2 | a3 | a4 | a5 | a6 | a7) & 0b1110_0000 == 0) == (a5 == 0 && a6 == 0 && a7
            == 0),
        ((a0 | a1 | a2 | a3 | a4 | a5 | a6 | a7) & 0b0010_1001 == 0) == (a0 == 0 && a3 == 0 && a5
            == 0),
        ((a0 | a1 | a2 | a3 | a4 | a5 | a6 | a7) & 0b1001_0100 == 0) == (a2 == 0 && a4 == 0 && a7
            == 0),
{
    assert({
        &&& ((a0 | a1 | a2 | a3 | a4 | a5 | a6 | a7) == 0) == (a0 == 0 && a1 == 0 && a2 == 0 && a3
            == 0 && a4 == 0 && a5 == 0 && a6 == 0 && a7 == 0)
        &&& ((a0 | a1 | a2 | a3 | a4 | a5 | a6 | a7) & 0b0000_0111 == 0) == (a0 == 0 && a1 == 0
            && a2 == 0)
        &&& ((a0 | a1 | a2 | a3 | a4 | a5 | a6 | a7) & 0b1110_0000 == 0) == (a5 == 0 && a6 == 0
            && a7 == 0)
        &&& ((a0 | a1 | a2 | a3 | a4 | a5 | a6 | a7) & 0b0010_1001 == 0) == (a0 == 0 && a3 == 0
            && a5 == 0)
        &&& ((a0 | a1 | a2 | a3 | a4 | a5 | a6 | a7) & 0b1001_0100 == 0) == (a2 == 0 && a4 == 0
            && a7 == 0)
    }) by (bit_vector)
        requires
            a0 == 0 || a0 == 1,
            a1 == 0 || a1 == 2,
            a2 == 0 || a2 == 4,
            a3 == 0 || a3 == 8,
            a4 == 0 || a4 == 16,
            a5 == 0 || a5 == 32,
            a6 == 0 || a6 == 64,
            a7 == 0 || a7 == 128,
    ;
}

/// What a square may hold while the dwarves pick, by the number of
/// dwarves that have picked it so far.
pub open spec fn marks_ok(sq: Square, c: nat) -> bool {
    match sq {
        Square::Empty => c == 0,
        Square::Marked => c == 1,
        Square::OverMarked => c >= 2,
        Square::Dwarf(_) => true,
    }
}

impl Board {
    /// The board while the dwarves pick their squares, when the first `d`
    /// of them have done so: nobody has moved, those have picked what
    /// they wish, and the squares are marked by the number of dwarves
    /// that picked them.
    pub open spec fn planned(&self, before: Board, d: int) -> bool {
        &&& self.grid_ok()
        &&& self.seated()
        &&& self.sleepers_alone()
        &&& self.width == before.width
        &&& self.height == before.height
        &&& self.round == before.round
        &&& self.finished == before.finished
        &&& self.moved == before.moved
        &&& self.places() == before.places()
        &&& forall|i: int|
            0 <= i < self.dwarves@.len() ==> dest_place(#[trigger] self.dwarves@[i]) == if i < d {
                wish_of(before.places(), before.round as int, i)
            } else {
                None
            }
        &&& forall|x: int, y: int|
            0 <= x < self.width && 0 <= y < self.height ==> marks_ok(
                #[trigger] self.at(x, y),
                claims(before.places(), before.round as int, d as nat, (x, y)),
            )
    }

    /// Whether the square in column `x` of row `y` holds a dwarf.
    fn sees(&self, x: usize, y: usize) -> (b: bool)
        requires
            self.grid_ok(),
            self.seated(),
            x < self.width,
            y < self.height,
        ensures
            b == taken(self.places(), (x as int, y as int)),
    {
        let sq = self.look(x, y);
        proof {
            let places = self.places();
            if taken(places, (x as int, y as int)) {
                let i = choose|i: int| 0 <= i < places.len() && #[trigger] places[i] == (x as int, y as int);
                assert(self.dwarves@[i].pos == (x, y));
            }
            if let Square::Dwarf(k) = sq {
                assert(places[k as int] == (x as int, y as int));
            }
        }
        matches!(sq, Square::Dwarf(_))
    }

    /// The neighbours of the square in column `x` of row `y`, as a set of
    /// bits: a bit for each of the eight squares around it, row by row,
    /// that holds a dwarf.
    fn around(&self, x: usize, y: usize) -> (m: u8)
        requires
            self.grid_ok(),
            self.seated(),
            1 <= x,
            x + 1 < self.width,
            1 <= y,
            y + 1 < self.height,
        ensures
            (m == 0) == alone(self.places(), (x as int, y as int)),
            forall|k: int|
                0 <= k < 4 ==> #[trigger] free(self.places(), (x as int, y as int), k) == (m
                    & mask_of(k) == 0),
    {
        let a0: u8 = if self.sees(x - 1, y - 1) { 1 } else { 0 };
        let a1: u8 = if self.sees(x, y - 1) { 2 } else { 0 };
        let a2: u8 = if self.sees(x + 1, y - 1) { 4 } else { 0 };
        let a3: u8 = if self.sees(x - 1, y) { 8 } else { 0 };
        let a4: u8 = if self.sees(x + 1, y) { 16 } else { 0 };
        let a5: u8 = if self.sees(x - 1, y + 1) { 32 } else { 0 };
        let a6: u8 = if self.sees(x, y + 1) { 64 } else { 0 };
        let a7: u8 = if self.sees(x + 1, y + 1) { 128 } else { 0 };
        proof {
            lemma_masks(a0, a1, a2, a3, a4, a5, a6, a7);
        }
        a0 | a1 | a2 | a3 | a4 | a5 | a6 | a7
    }
}

/// The square that a dwarf in column `x` of row `y` picks in round
/// `round`, given its neighbours as a set of bits.
fn pick(dwarf_map: u8, round: usize, x: usize, y: usize, Ghost(places): Ghost<Seq<(int, int)>>) -> (target:
    Option<(usize, usize)>)
    requires
        round <= usize::MAX - 4,
        1 <= x < isize::MAX,
        1 <= y < isize::MAX,
        forall|k: int|
            0 <= k < 4 ==> #[trigger] free(places, (x as int, y as int), k) == (dwarf_map & mask_of(
                k,
            ) == 0),
    ensures
        match target {
            Some(t) => choice(places, round as int, (x as int, y as int), 0) == Some(
                (t.0 as int, t.1 as int),
            ) && x - 1 <= t.0 <= x + 1 && y - 1 <= t.1 <= y + 1,
            None => choice(places, round as int, (x as int, y as int), 0) is None,
        },
{
    let ghost p = (x as int, y as int);
    let mut cn: usize = 0;
    let mut target: Option<(usize, usize)> = None;
    while cn < 4 && target.is_none()
        invariant
            cn <= 4,
            round <= usize::MAX - 4,
            p == (x as int, y as int),
            1 <= x < isize::MAX,
            1 <= y < isize::MAX,
            forall|k: int|
                0 <= k < 4 ==> #[trigger] free(places, p, k) == (dwarf_map & mask_of(k) == 0),
            match target {
                None => choice(places, round as int, p, 0) == choice(places, round as int, p, cn as int),
                Some(t) => choice(places, round as int, p, 0) == Some((t.0 as int, t.1 as int)) && x
                    - 1 <= t.0 <= x + 1 && y - 1 <= t.1 <= y + 1,
            },
        decreases 4 - cn + (if target is None { 1int } else { 0int }),
    {
        let k = (cn + round) % 4;
        let (dir, mask) = check(k);
        assert(free(places, p, k as int) == (dwarf_map & mask == 0));
        assert(k as int == (cn as int + round as int) % 4);
        if dwarf_map & mask == 0 {
            let tx = (x as isize + dir.0) as usize;
            let ty = (y as isize + dir.1) as usize;
            assert((tx as int, ty as int) == ahead(p, k as int));
            target = Some((tx, ty));
        } else {
            assert(choice(places, round as int, p, cn as int) == choice(
                places,
                round as int,
                p,
                cn + 1,
            ));
            cn += 1;
        }
    }
    target
}

impl Board {
    /// Lets dwarf `d` pick its square and mark it, where it is awake, has
    /// a neighbour and finds a free direction; sends it to sleep where it
    /// has no neighbour.
    #[verifier::spinoff_prover]
    #[verifier::rlimit(60)]
    fn plan_one(&mut self, d: usize, Ghost(before): Ghost<Board>)
        requires
            old(self).planned(before, d as int),
            before.roomy(),
            d < old(self).dwarves@.len(),
            before.round <= usize::MAX - 4,
            old(self).dwarves@.len() == before.dwarves@.len(),
        ensures
            final(self).planned(before, d + 1),
            final(self).dwarves@.len() == before.dwarves@.len(),
    {
        let ghost places = before.places();
        let ghost round = before.round as int;
        let ghost p = places[d as int];
        let me = self.dwarves[d];
        proof {
            assert(self.places()[d as int] == p);
            assert(before.dwarves@[d as int].pos == me.pos);
        }
        if !me.awake {
            assert(wish_of(places, round, d as int) is None);
            return ;
        }
        let (x, y) = me.pos;
        let dwarf_map = self.around(x, y);
        if dwarf_map == 0 {
            self.dwarves[d] = Dwarf { dest: me.dest, pos: me.pos, awake: false };
            proof {
                assert(self.places() =~= places);
                assert(wish_of(places, round, d as int) is None);
                assert forall|x2: int, y2: int|
                    0 <= x2 < self.width && 0 <= y2 < self.height implies #[trigger] self.at(x2, y2)
                    == old(self).at(x2, y2) by {}
            }
            return ;
        }
        let target = pick(dwarf_map, self.round, x, y, Ghost(places));
        assert(wish_of(places, round, d as int) == choice(places, round, p, 0));
        if let Some((tx, ty)) = target {
            let to = self.look(tx, ty);
            let ghost mid = *self;
            if to == Square::Marked {
                self.put(tx, ty, Square::OverMarked);
            } else if to == Square::Empty {
                self.put(tx, ty, Square::Marked);
            }
            let ghost marked = *self;
            self.dwarves[d] = Dwarf { dest: Some((tx, ty)), pos: me.pos, awake: me.awake };
            proof {
                assert(self.places() =~= places);
                assert(wish_of(places, round, d as int) == Some((tx as int, ty as int)));
                assert forall|x2: int, y2: int|
                    0 <= x2 < self.width && 0 <= y2 < self.height implies #[trigger] self.at(x2, y2)
                    == marked.at(x2, y2) by {}
                assert forall|x2: int, y2: int|
                    0 <= x2 < self.width && 0 <= y2 < self.height implies marks_ok(
                    #[trigger] self.at(x2, y2),
                    claims(places, round, (d + 1) as nat, (x2, y2)),
                ) by {
                    assert(marks_ok(mid.at(x2, y2), claims(places, round, d as nat, (x2, y2))));
                }
                assert forall|i: int| 0 <= i < self.dwarves@.len() implies self.at(
                    (#[trigger] self.dwarves@[i]).pos.0 as int,
                    self.dwarves@[i].pos.1 as int,
                ) == Square::Dwarf(i as u16) by {
                    assert(mid.dwarves@[i].pos == self.dwarves@[i].pos);
                    assert(mid.at(mid.dwarves@[i].pos.0 as int, mid.dwarves@[i].pos.1 as int)
                        == Square::Dwarf(i as u16));
                }
                assert(self.seated());
            }
        } else {
            assert(wish_of(places, round, d as int) is None);
        }
    }
}

/// A square that a dwarf picks after `cn` directions holds no dwarf and
/// lies next to the dwarf.
pub proof fn lemma_choice(places: Seq<(int, int)>, round: int, p: (int, int), cn: int)
    requires
        0 <= cn,
        0 <= round,
    ensures
        match choice(places, round, p, cn) {
            Some(t) => !taken(places, t) && t != p && p.0 - 1 <= t.0 <= p.0 + 1 && p.1 - 1 <= t.1
                <= p.1 + 1,
            None => true,
        },
    decreases 4 - cn,
{
    if cn < 4 && !free(places, p, (cn + round) % 4) {
        lemma_choice(places, round, p, cn + 1);
    }
}

/// A dwarf that picks a square among the first `m` dwarves is counted.
pub proof fn lemma_claims_one(places: Seq<(int, int)>, round: int, m: nat, t: (int, int), j: int)
    requires
        0 <= j < m,
        wish_of(places, round, j) == Some(t),
    ensures
        claims(places, round, m, t) >= 1,
    decreases m,
{
    if j < m - 1 {
        lemma_claims_one(places, round, (m - 1) as nat, t, j);
    }
}

/// Two dwarves that pick the same square are counted twice.
pub proof fn lemma_claims_pair(
    places: Seq<(int, int)>,
    round: int,
    m: nat,
    t: (int, int),
    j: int,
    k: int,
)
    requires
        0 <= j < k < m,
        wish_of(places, round, j) == Some(t),
        wish_of(places, round, k) == Some(t),
    ensures
        claims(places, round, m, t) >= 2,
    decreases m,
{
    if k < m - 1 {
        lemma_claims_pair(places, round, (m - 1) as nat, t, j, k);
    } else {
        lemma_claims_one(places, round, (m - 1) as nat, t, j);
    }
}

/// Where a square is picked more often than by dwarf `d`, another dwarf
/// picks it too.
pub proof fn lemma_other_claimant(
    places: Seq<(int, int)>,
    round: int,
    m: nat,
    t: (int, int),
    d: int,
) -> (j: int)
    requires
        claims(places, round, m, t) >= 1 + (if 0 <= d < m && wish_of(places, round, d) == Some(t) {
            1int
        } else {
            0int
        }),
    ensures
        0 <= j < m,
        j != d,
        wish_of(places, round, j) == Some(t),
    decreases m,
{
    if m == 0 {
        0
    } else if m - 1 != d && wish_of(places, round, m - 1) == Some(t) {
        m - 1
    } else {
        lemma_other_claimant(places, round, (m - 1) as nat, t, d)
    }
}

/// Nobody picks a square on which a dwarf stands.
pub proof fn lemma_taken_unclaimed(places: Seq<(int, int)>, round: int, m: nat, q: (int, int))
    requires
        0 <= round,
        taken(places, q),
    ensures
        claims(places, round, m, q) == 0,
    decreases m,
{
    if m > 0 {
        lemma_taken_unclaimed(places, round, (m - 1) as nat, q);
        lemma_choice(places, round, places[m - 1], 0);
    }
}

/// No more dwarves move than there are.
pub proof fn lemma_movers_bound(places: Seq<(int, int)>, round: int, d: nat)
    ensures
        movers(places, round, d) <= d,
    decreases d,
{
    if d > 0 {
        lemma_movers_bound(places, round, (d - 1) as nat);
    }
}

/// A dwarf without neighbours has none after another dwarf has moved to a
/// square that is not next to it.
pub proof fn lemma_still_alone(
    places: Seq<(int, int)>,
    d: int,
    t: (int, int),
    p: (int, int),
)
    requires
        0 <= d < places.len(),
        alone(places, p),
        t.0 < p.0 - 1 || t.0 > p.0 + 1 || t.1 < p.1 - 1 || t.1 > p.1 + 1,
    ensures
        alone(places.update(d, t), p),
{
    let after = places.update(d, t);
    assert forall|q: (int, int)| taken(after, q) && q != t implies taken(places, q) by {
        let i = choose|i: int| 0 <= i < after.len() && #[trigger] after[i] == q;
        assert(places[i] == q);
    }
}

impl Board {
    /// Wakes the dwarves on the nine squares around column `x` of row `y`.
    fn wake_around(&mut self, x: usize, y: usize)
        requires
            old(self).grid_ok(),
            1 <= x,
            x + 1 < old(self).width,
            1 <= y,
            y + 1 < old(self).height,
            forall|x2: int, y2: int|
                0 <= x2 < old(self).width && 0 <= y2 < old(self).height ==> match #[trigger] old(
                    self,
                ).at(x2, y2) {
                    Square::Dwarf(k) => k < old(self).dwarves@.len(),
                    _ => true,
                },
        ensures
            final(self).width == old(self).width,
            final(self).height == old(self).height,
            final(self).round == old(self).round,
            final(self).finished == old(self).finished,
            final(self).moved == old(self).moved,
            final(self).squares == old(self).squares,
            final(self).dwarves@.len() == old(self).dwarves@.len(),
            forall|i: int|
                0 <= i < old(self).dwarves@.len() ==> (#[trigger] final(self).dwarves@[i]).pos
                    == old(self).dwarves@[i].pos && final(self).dwarves@[i].dest == old(
                    self,
                ).dwarves@[i].dest && (old(self).dwarves@[i].awake ==> final(self).dwarves@[i].awake),
            forall|x2: int, y2: int|
                x - 1 <= x2 <= x + 1 && y - 1 <= y2 <= y + 1 ==> match #[trigger] old(self).at(
                    x2,
                    y2,
                ) {
                    Square::Dwarf(k) => final(self).dwarves@[k as int].awake,
                    _ => true,
                },
    {
        let mut cx: usize = 0;
        while cx < 3
            invariant
                cx <= 3,
                self.grid_ok(),
                1 <= x,
                x + 1 < self.width,
                1 <= y,
                y + 1 < self.height,
                self.width == old(self).width,
                self.height == old(self).height,
                self.round == old(self).round,
                self.finished == old(self).finished,
                self.moved == old(self).moved,
                self.squares == old(self).squares,
                self.dwarves@.len() == old(self).dwarves@.len(),
                forall|x2: int, y2: int|
                    0 <= x2 < self.width && 0 <= y2 < self.height ==> match #[trigger] self.at(
                        x2,
                        y2,
                    ) {
                        Square::Dwarf(k) => k < self.dwarves@.len(),
                        _ => true,
                    },
                forall|i: int|
                    0 <= i < self.dwarves@.len() ==> (#[trigger] self.dwarves@[i]).pos == old(
                        self,
                    ).dwarves@[i].pos && self.dwarves@[i].dest == old(self).dwarves@[i].dest && (old(
                        self,
                    ).dwarves@[i].awake ==> self.dwarves@[i].awake),
                forall|x2: int, y2: int|
                    x - 1 <= x2 < x - 1 + cx && y - 1 <= y2 <= y + 1 ==> match #[trigger] self.at(
                        x2,
                        y2,
                    ) {
                        Square::Dwarf(k) => self.dwarves@[k as int].awake,
                        _ => true,
                    },
            decreases 3 - cx,
        {
            let mut cy: usize = 0;
            while cy < 3
                invariant
                    cx < 3,
                    cy <= 3,
                    self.grid_ok(),
                    1 <= x,
                    x + 1 < self.width,
                    1 <= y,
                    y + 1 < self.height,
                    self.width == old(self).width,
                    self.height == old(self).height,
                    self.round == old(self).round,
                    self.finished == old(self).finished,
                    self.moved == old(self).moved,
                    self.squares == old(self).squares,
                    self.dwarves@.len() == old(self).dwarves@.len(),
                    forall|x2: int, y2: int|
                        0 <= x2 < self.width && 0 <= y2 < self.height ==> match #[trigger] self.at(
                            x2,
                            y2,
                        ) {
                            Square::Dwarf(k) => k < self.dwarves@.len(),
                            _ => true,
                        },
                    forall|i: int|
                        0 <= i < self.dwarves@.len() ==> (#[trigger] self.dwarves@[i]).pos == old(
                            self,
                        ).dwarves@[i].pos && self.dwarves@[i].dest == old(self).dwarves@[i].dest
                            && (old(self).dwarves@[i].awake ==> self.dwarves@[i].awake),
                    forall|x2: int, y2: int|
                        (x - 1 <= x2 < x - 1 + cx && y - 1 <= y2 <= y + 1) || (x2 == x - 1 + cx && y
                            - 1 <= y2 < y - 1 + cy) ==> match #[trigger] self.at(x2, y2) {
                            Square::Dwarf(k) => self.dwarves@[k as int].awake,
                            _ => true,
                        },
                decreases 3 - cy,
            {
                let sq = self.look(x - 1 + cx, y - 1 + cy);
                if let Square::Dwarf(od) = sq {
                    let it = self.dwarves[od as usize];
                    let ghost prior = *self;
                    self.dwarves[od as usize] = Dwarf { dest: it.dest, pos: it.pos, awake: true };
                    proof {
                        assert forall|x2: int, y2: int|
                            0 <= x2 < self.width && 0 <= y2 < self.height implies #[trigger] self.at(
                            x2,
                            y2,
                        ) == prior.at(x2, y2) by {}
                    }
                }
                cy += 1;
            }
            cx += 1;
        }
        proof {
            assert forall|x2: int, y2: int| #[trigger] old(self).at(x2, y2) == self.at(x2, y2) by {}
        }
    }
}

/// What a square may hold while the dwarves move, by the number of
/// dwarves that have picked it and the number of those that have had
/// their turn: a mark stays until the first of them has had it, and no
/// square picked by one dwarf alone stays empty.
pub open spec fn settle_ok(sq: Square, total: nat, done: nat) -> bool {
    match sq {
        Square::Empty => total != 1,
        Square::Marked => total == 1 && done == 0,
        Square::OverMarked => total >= 2 && done == 0,
        Square::Dwarf(_) => true,
    }
}

/// Where a dwarf stands, as a pair of numbers.
pub open spec fn place_of(d: Dwarf) -> (int, int) {
    (d.pos.0 as int, d.pos.1 as int)
}

impl Board {
    /// The board while the dwarves move, when the first `d` of them have
    /// had their turn: those stand where the round takes them, the others
    /// where they stood and with the square they picked.
    pub open spec fn settling(&self, before: Board, d: int) -> bool {
        &&& self.grid_ok()
        &&& self.seated()
        &&& self.sleepers_alone()
        &&& self.width == before.width
        &&& self.height == before.height
        &&& self.round == before.round
        &&& self.finished == before.finished
        &&& self.moved == before.moved + movers(before.places(), before.round as int, d as nat)
        &&& self.dwarves@.len() == before.dwarves@.len()
        &&& forall|i: int|
            0 <= i < self.dwarves@.len() ==> place_of(#[trigger] self.dwarves@[i]) == if i < d {
                next_place(before.places(), before.round as int, i)
            } else {
                before.places()[i]
            }
        &&& forall|i: int|
            0 <= i < self.dwarves@.len() ==> dest_place(#[trigger] self.dwarves@[i]) == if i < d {
                None
            } else {
                wish_of(before.places(), before.round as int, i)
            }
        &&& forall|x: int, y: int|
            0 <= x < self.width && 0 <= y < self.height ==> settle_ok(
                #[trigger] self.at(x, y),
                claims(
                    before.places(),
                    before.round as int,
                    before.dwarves@.len() as nat,
                    (x, y),
                ),
                claims(before.places(), before.round as int, d as nat, (x, y)),
            )
    }

    /// Lets dwarf `d` have its turn: it moves to the square it picked
    /// where the square bears the mark of one dwarf, and takes a mark of
    /// several away.
    #[verifier::spinoff_prover]
    #[verifier::rlimit(60)]
    fn settle_one(&mut self, d: usize, Ghost(before): Ghost<Board>) -> (went: bool)
        requires
            old(self).settling(before, d as int),
            before.roomy(),
            before.grid_ok(),
            d < old(self).dwarves@.len(),
            before.moved + before.dwarves@.len() <= usize::MAX,
        ensures
            final(self).settling(before, d + 1),
            went == (next_place(before.places(), before.round as int, d as int)
                != before.places()[d as int]),
    {
        let ghost places = before.places();
        let ghost round = before.round as int;
        let ghost n = before.dwarves@.len();
        let ghost p = places[d as int];
        let me = self.dwarves[d];
        let mut went = false;
        proof {
            assert(place_of(me) == p);
            assert(dest_place(me) == wish_of(places, round, d as int));
            lemma_choice(places, round, p, 0);
            lemma_movers_bound(places, round, d as nat);
            assert(before.dwarves@[d as int].pos == me.pos);
        }
        if let Some((dx, dy)) = me.dest {
            let (px, py) = me.pos;
            let ghost t = (dx as int, dy as int);
            let sq = self.look(dx, dy);
            proof {
                assert(wish_of(places, round, d as int) == Some(t));
                lemma_claims_one(places, round, n as nat, t, d as int);
                if let Square::Dwarf(k) = sq {
                    assert(place_of(self.dwarves@[k as int]) == t);
                    if k < d {
                        assert(rival(places, round, k as int));
                    } else {
                        assert(places[k as int] == t);
                    }
                    assert(false);
                }
                if sq != Square::Marked {
                    let j = lemma_other_claimant(places, round, n as nat, t, d as int);
                    assert(rival(places, round, d as int));
                } else {
                    if rival(places, round, d as int) {
                        let j = choose|j: int|
                            0 <= j < places.len() && j != d && #[trigger] wish_of(places, round, j)
                                == wish_of(places, round, d as int);
                        if j < d {
                            lemma_claims_pair(places, round, n as nat, t, j, d as int);
                        } else {
                            lemma_claims_pair(places, round, n as nat, t, d as int, j);
                        }
                    }
                }
            }
            if sq == Square::OverMarked {
                self.put(dx, dy, Square::Empty);
            } else if sq == Square::Marked {
                went = true;
                self.moved += 1;
                proof {
                    assert(taken(places, p));
                    lemma_taken_unclaimed(places, round, n as nat, p);
                }
                let ghost counted = *self;
                self.put(px, py, Square::Empty);
                let ghost left = *self;
                self.put(dx, dy, Square::Dwarf(d as u16));
                let ghost lit = *self;
                proof {
                    assert forall|x2: int, y2: int|
                        0 <= x2 < self.width && 0 <= y2 < self.height implies match #[trigger] lit.at(
                        x2,
                        y2,
                    ) {
                        Square::Dwarf(k) => k < n && if (x2, y2) == t {
                            k == d
                        } else {
                            k != d && old(self).dwarves@[k as int].pos == (x2 as usize, y2 as usize)
                        },
                        _ => true,
                    } by {
                        if (x2, y2) != t {
                            assert(lit.at(x2, y2) == left.at(x2, y2));
                            if (x2, y2) != p {
                                assert(left.at(x2, y2) == counted.at(x2, y2));
                                assert(counted.at(x2, y2) == old(self).at(x2, y2));
                            }
                        }
                    }
                }
                self.wake_around(dx, dy);
                let now = self.dwarves[d];
                let ghost woken = *self;
                self.dwarves[d] = Dwarf { dest: now.dest, pos: (dx, dy), awake: now.awake };
                proof {
                    assert(woken.at(t.0, t.1) == Square::Dwarf(d as u16));
                    assert(now.awake);
                    assert forall|x2: int, y2: int|
                        0 <= x2 < self.width && 0 <= y2 < self.height implies #[trigger] self.at(
                        x2,
                        y2,
                    ) == lit.at(x2, y2) by {}
                    assert forall|i: int| 0 <= i < self.dwarves@.len() implies self.at(
                        (#[trigger] self.dwarves@[i]).pos.0 as int,
                        self.dwarves@[i].pos.1 as int,
                    ) == Square::Dwarf(i as u16) by {
                        if i != d {
                            assert(self.dwarves@[i].pos == old(self).dwarves@[i].pos);
                            assert(old(self).at(
                                old(self).dwarves@[i].pos.0 as int,
                                old(self).dwarves@[i].pos.1 as int,
                            ) == Square::Dwarf(i as u16));
                        }
                    }
                    assert forall|x2: int, y2: int|
                        0 <= x2 < self.width && 0 <= y2 < self.height implies match #[trigger] self.at(
                        x2,
                        y2,
                    ) {
                        Square::Dwarf(k) => k < self.dwarves@.len() && self.dwarves@[k as int].pos
                            == (x2 as usize, y2 as usize),
                        _ => true,
                    } by {
                        assert(self.at(x2, y2) == lit.at(x2, y2));
                    }
                    assert(self.seated());
                    let was = old(self).places();
                    assert(self.places() =~= was.update(d as int, t));
                    assert forall|i: int|
                        0 <= i < self.dwarves@.len() && !(#[trigger] self.dwarves@[i]).awake implies alone(
                        self.places(),
                        self.places()[i],
                    ) by {
                        assert(!old(self).dwarves@[i].awake);
                        assert(i != d);
                        let q = was[i];
                        assert(alone(was, q));
                        if q.0 - 1 <= t.0 <= q.0 + 1 && q.1 - 1 <= t.1 <= q.1 + 1 {
                            assert(lit.at(q.0, q.1) == Square::Dwarf(i as u16));
                            assert(false);
                        }
                        lemma_still_alone(was, d as int, t, q);
                    }
                    assert(self.sleepers_alone());
                }
            }
            let last = self.dwarves[d];
            let ghost moved_on = *self;
            self.dwarves[d] = Dwarf { dest: None, pos: last.pos, awake: last.awake };
            proof {
                assert(self.places() =~= moved_on.places());
                assert forall|x2: int, y2: int|
                    0 <= x2 < self.width && 0 <= y2 < self.height implies #[trigger] self.at(x2, y2)
                    == moved_on.at(x2, y2) by {}
            }
        }
        went
    }
}

impl Board {
    /// Plays one round: every dwarf that has a neighbour picks the first
    /// free direction, and those whose square nobody else has picked move.
    /// The round is counted, the moves are counted, and the board is
    /// finished where nobody has moved.
    pub fn step(&mut self)
        requires
            old(self).wf(),
            old(self).roomy(),
            old(self).round <= usize::MAX - 4,
            old(self).moved + old(self).dwarves@.len() <= usize::MAX,
        ensures
            final(self).wf(),
            final(self).width == old(self).width,
            final(self).height == old(self).height,
            final(self).places() == next_places(old(self).places(), old(self).round as int),
            final(self).round == old(self).round + 1,
            final(self).moved == old(self).moved + movers(
                old(self).places(),
                old(self).round as int,
                old(self).dwarves@.len() as nat,
            ),
            final(self).finished == (movers(
                old(self).places(),
                old(self).round as int,
                old(self).dwarves@.len() as nat,
            ) == 0),
    {
        let ghost before = *self;
        let ghost places = before.places();
        let ghost round = before.round as int;
        let n = self.dwarves.len();
        let mut d: usize = 0;
        while d < n
            invariant
                d <= n,
                n == before.dwarves@.len(),
                self.dwarves@.len() == n,
                self.planned(before, d as int),
                before.roomy(),
                before.round <= usize::MAX - 4,
            decreases n - d,
        {
            self.plan_one(d, Ghost(before));
            d += 1;
        }
        let mut any_moved = false;
        d = 0;
        proof {
            assert forall|i: int| 0 <= i < self.dwarves@.len() implies place_of(
                #[trigger] self.dwarves@[i],
            ) == places[i] by {
                assert(self.places()[i] == places[i]);
            }
        }
        while d < n
            invariant
                d <= n,
                n == before.dwarves@.len(),
                self.settling(before, d as int),
                before.roomy(),
                before.grid_ok(),
                before.moved + before.dwarves@.len() <= usize::MAX,
                places == before.places(),
                round == before.round as int,
                any_moved == (movers(places, round, d as nat) > 0),
            decreases n - d,
        {
            let went = self.settle_one(d, Ghost(before));
            if went {
                any_moved = true;
            }
            d += 1;
        }
        let ghost settled = *self;
        self.finished = !any_moved;
        self.round += 1;
        proof {
            assert forall|x2: int, y2: int|
                0 <= x2 < self.width && 0 <= y2 < self.height implies #[trigger] self.at(x2, y2)
                == settled.at(x2, y2) by {}
            assert(self.places() =~= settled.places());
            assert(self.places() =~= next_places(places, round)) by {
                assert forall|i: int| 0 <= i < n implies self.places()[i] == next_place(
                    places,
                    round,
                    i,
                ) by {
                    assert(place_of(settled.dwarves@[i]) == next_place(places, round, i));
                }
            }
        }
    }
}

/// The least of `top` and the numbers given.
pub open spec fn lowest(vals: Seq<int>, top: int) -> int
    decreases vals.len(),
{
    if vals.len() == 0 {
        top
    } else if vals.last() < lowest(vals.drop_last(), top) {
        vals.last()
    } else {
        lowest(vals.drop_last(), top)
    }
}

/// The greatest of `bottom` and the numbers given.
pub open spec fn highest(vals: Seq<int>, bottom: int) -> int
    decreases vals.len(),
{
    if vals.len() == 0 {
        bottom
    } else if vals.last() > highest(vals.drop_last(), bottom) {
        vals.last()
    } else {
        highest(vals.drop_last(), bottom)
    }
}

/// The least is one of the numbers or `top`, and none is less.
pub proof fn lemma_lowest(vals: Seq<int>, top: int)
    ensures
        lowest(vals, top) <= top,
        forall|i: int| 0 <= i < vals.len() ==> lowest(vals, top) <= #[trigger] vals[i],
        lowest(vals, top) == top || exists|i: int|
            0 <= i < vals.len() && #[trigger] vals[i] == lowest(vals, top),
    decreases vals.len(),
{
    if vals.len() > 0 {
        let rest = vals.drop_last();
        lemma_lowest(rest, top);
        assert forall|i: int| 0 <= i < vals.len() implies lowest(vals, top) <= #[trigger] vals[i] by {
            if i < rest.len() {
                assert(rest[i] == vals[i]);
            }
        }
        if lowest(vals, top) != top {
            if vals.last() < lowest(rest, top) {
                assert(vals[vals.len() - 1] == lowest(vals, top));
            } else {
                let i = choose|i: int| 0 <= i < rest.len() && #[trigger] rest[i] == lowest(rest, top);
                assert(vals[i] == lowest(vals, top));
            }
        }
    }
}

/// The greatest is one of the numbers or `bottom`, and none is greater.
pub proof fn lemma_highest(vals: Seq<int>, bottom: int)
    ensures
        highest(vals, bottom) >= bottom,
        forall|i: int| 0 <= i < vals.len() ==> highest(vals, bottom) >= #[trigger] vals[i],
        highest(vals, bottom) == bottom || exists|i: int|
            0 <= i < vals.len() && #[trigger] vals[i] == highest(vals, bottom),
    decreases vals.len(),
{
    if vals.len() > 0 {
        let rest = vals.drop_last();
        lemma_highest(rest, bottom);
        assert forall|i: int| 0 <= i < vals.len() implies highest(vals, bottom) >= #[trigger] vals[i] by {
            if i < rest.len() {
                assert(rest[i] == vals[i]);
            }
        }
        if highest(vals, bottom) != bottom {
            if vals.last() > highest(rest, bottom) {
                assert(vals[vals.len() - 1] == highest(vals, bottom));
            } else {
                let i = choose|i: int|
                    0 <= i < rest.len() && #[trigger] rest[i] == highest(rest, bottom);
                assert(vals[i] == highest(vals, bottom));
            }
        }
    }
}

impl Board {
    /// The columns in which the dwarves stand.
    pub open spec fn columns(&self) -> Seq<int> {
        Seq::new(self.dwarves@.len(), |i: int| self.dwarves@[i].pos.0 as int)
    }

    /// The rows in which the dwarves stand.
    pub open spec fn rows(&self) -> Seq<int> {
        Seq::new(self.dwarves@.len(), |i: int| self.dwarves@[i].pos.1 as int)
    }

    /// The number of empty squares of row `y` in the columns from `lx` up
    /// to `x`, the last left out.
    pub open spec fn row_blanks(&self, y: int, lx: int, x: int) -> nat
        decreases x - lx,
    {
        if x <= lx {
            0
        } else {
            self.row_blanks(y, lx, x - 1) + if self.at(x - 1, y) == Square::Empty {
                1nat
            } else {
                0nat
            }
        }
    }

    /// The number of empty squares in the columns from `lx` to `hx` of
    /// the rows from `ly` up to `y`, the last row left out.
    pub open spec fn box_blanks(&self, lx: int, hx: int, ly: int, y: int) -> nat
        decreases y - ly,
    {
        if y <= ly {
            0
        } else {
            self.box_blanks(lx, hx, ly, y - 1) + self.row_blanks(y - 1, lx, hx + 1)
        }
    }

    /// A row has no more empty squares than squares.
    pub proof fn lemma_row_blanks(&self, y: int, lx: int, x: int)
        requires
            0 <= lx,
        ensures
            self.row_blanks(y, lx, x) <= if x <= lx { 0 } else { x - lx },
        decreases x - lx,
    {
        if x > lx {
            self.lemma_row_blanks(y, lx, x - 1);
        }
    }

    /// Some rows of a board have no more empty squares than squares.
    pub proof fn lemma_box_blanks(&self, lx: int, hx: int, ly: int, y: int)
        requires
            0 <= lx,
            hx < self.width,
            0 <= ly,
        ensures
            self.box_blanks(lx, hx, ly, y) <= (if y <= ly { 0 } else { y - ly }) * self.width,
        decreases y - ly,
    {
        if y > ly {
            self.lemma_box_blanks(lx, hx, ly, y - 1);
            self.lemma_row_blanks(y - 1, lx, hx + 1);
            let w = self.width as int;
            if y - 1 <= ly {
                assert((y - ly) * w == w) by (nonlinear_arith)
                    requires
                        y - ly == 1,
                ;
                assert(0 * w == 0);
            } else {
                assert((y - 1 - ly) * w + w == (y - ly) * w) by (nonlinear_arith);
            }
        }
    }

    /// The number of empty squares in the smallest upright rectangle that
    /// holds all dwarves. Without dwarves, the rectangle reaches from the
    /// last square of the board to its first.
    pub fn score(&self) -> (score: usize)
        requires
            self.grid_ok(),
            self.seated(),
        ensures
            score == self.box_blanks(
                lowest(self.columns(), self.width - 1),
                highest(self.columns(), 0),
                lowest(self.rows(), self.height - 1),
                highest(self.rows(), 0) + 1,
            ),
    {
        let ghost xs = self.columns();
        let ghost ys = self.rows();
        let ghost n = self.dwarves@.len();
        let mut low: (usize, usize) = (self.width - 1, self.height - 1);
        let mut high: (usize, usize) = (0, 0);
        let mut y: usize = 0;
        while y < self.height
            invariant
                y <= self.height,
                self.grid_ok(),
                self.seated(),
                xs == self.columns(),
                ys == self.rows(),
                n == self.dwarves@.len(),
                low.0 < self.width,
                low.1 < self.height,
                high.0 < self.width,
                high.1 < self.height,
                forall|i: int|
                    #![trigger xs[i]]
                    #![trigger ys[i]]
                    0 <= i < n && ys[i] < y ==> low.0 <= xs[i] <= high.0 && low.1 <= ys[i] <= high.1,
                low.0 == self.width - 1 || exists|i: int| 0 <= i < n && #[trigger] xs[i] == low.0,
                low.1 == self.height - 1 || exists|i: int| 0 <= i < n && #[trigger] ys[i] == low.1,
                high.0 == 0 || exists|i: int| 0 <= i < n && #[trigger] xs[i] == high.0,
                high.1 == 0 || exists|i: int| 0 <= i < n && #[trigger] ys[i] == high.1,
            decreases self.height - y,
        {
            let mut x: usize = 0;
            while x < self.width
                invariant
                    x <= self.width,
                    y < self.height,
                    self.grid_ok(),
                    self.seated(),
                    xs == self.columns(),
                    ys == self.rows(),
                    n == self.dwarves@.len(),
                    low.0 < self.width,
                    low.1 < self.height,
                    high.0 < self.width,
                    high.1 < self.height,
                    forall|i: int|
                        #![trigger xs[i]]
                        #![trigger ys[i]]
                        0 <= i < n && (ys[i] < y || (ys[i] == y && xs[i] < x)) ==> low.0 <= xs[i]
                            <= high.0 && low.1 <= ys[i] <= high.1,
                    low.0 == self.width - 1 || exists|i: int|
                        0 <= i < n && #[trigger] xs[i] == low.0,
                    low.1 == self.height - 1 || exists|i: int|
                        0 <= i < n && #[trigger] ys[i] == low.1,
                    high.0 == 0 || exists|i: int| 0 <= i < n && #[trigger] xs[i] == high.0,
                    high.1 == 0 || exists|i: int| 0 <= i < n && #[trigger] ys[i] == high.1,
                decreases self.width - x,
            {
                let sq = self.look(x, y);
                if let Square::Dwarf(k) = sq {
                    proof {
                        assert(xs[k as int] == x && ys[k as int] == y);
                    }
                    if x < low.0 {
                        low.0 = x;
                    }
                    if y < low.1 {
                        low.1 = y;
                    }
                    if x > high.0 {
                        high.0 = x;
                    }
                    if y > high.1 {
                        high.1 = y;
                    }
                } else {
                    proof {
                        assert forall|i: int| 0 <= i < n implies !(#[trigger] xs[i] == x && ys[i]
                            == y) by {
                            if xs[i] == x && ys[i] == y {
                                assert(self.dwarves@[i].pos == (x, y));
                            }
                        }
                    }
                }
                x += 1;
            }
            y += 1;
        }
        proof {
            lemma_lowest(xs, self.width - 1);
            lemma_lowest(ys, self.height - 1);
            lemma_highest(xs, 0);
            lemma_highest(ys, 0);
            assert forall|i: int| 0 <= i < n implies (#[trigger] ys[i]) < self.height by {
                assert(self.dwarves@[i].pos.1 < self.height);
            }
            assert(low.0 == lowest(xs, self.width - 1));
            assert(low.1 == lowest(ys, self.height - 1));
            assert(high.0 == highest(xs, 0));
            assert(high.1 == highest(ys, 0));
        }
        let mut score: usize = 0;
        let total = self.squares.len();
        let mut y: usize = low.1;
        while y <= high.1
            invariant
                low.1 <= y,
                y <= high.1 + 1 || high.1 < low.1,
                high.1 < low.1 ==> y == low.1,
                self.grid_ok(),
                low.0 < self.width,
                high.0 < self.width,
                high.1 < self.height,
                total == self.squares@.len(),
                score == self.box_blanks(low.0 as int, high.0 as int, low.1 as int, y as int),
            decreases high.1 + 1 - y,
        {
            let ghost base = score;
            proof {
                self.lemma_box_blanks(low.0 as int, high.0 as int, low.1 as int, y as int);
                lemma_cells(self.width as int, self.height as int, 0, y as int, 0, 0);
                assert((if y <= low.1 { 0 } else { y - low.1 }) * (self.width as int) <= y
                    * self.width) by (nonlinear_arith)
                    requires
                        low.1 <= y,
                        0 <= low.1,
                        self.width > 0,
                ;
            }
            let mut x: usize = low.0;
            while x <= high.0
                invariant
                    low.0 <= x,
                    x <= high.0 + 1 || high.0 < low.0,
                    high.0 < low.0 ==> x == low.0,
                    self.grid_ok(),
                    y < self.height,
                    high.0 < self.width,
                    total == self.squares@.len(),
                    base <= y * self.width,
                    score == base + self.row_blanks(y as int, low.0 as int, x as int),
                decreases high.0 + 1 - x,
            {
                proof {
                    self.lemma_row_blanks(y as int, low.0 as int, x as int);
                    lemma_cells(self.width as int, self.height as int, x as int, y as int, 0, 0);
                }
                let sq = self.look(x, y);
                if let Square::Empty = sq {
                    score += 1;
                }
                x += 1;
            }
            proof {
                if high.0 < low.0 {
                    assert(self.row_blanks(y as int, low.0 as int, high.0 + 1) == 0);
                    assert(x == low.0);
                } else {
                    assert(x == high.0 + 1);
                }
                assert(self.box_blanks(low.0 as int, high.0 as int, low.1 as int, y + 1)
                    == self.box_blanks(low.0 as int, high.0 as int, low.1 as int, y as int)
                    + self.row_blanks(y as int, low.0 as int, high.0 + 1));
            }
            y += 1;
        }
        score
    }

    /// Whether every dwarf has two squares at least between itself and
    /// each edge of the board.
    pub fn has_room(&self) -> (b: bool)
        ensures
            b == self.roomy(),
    {
        let mut i: usize = 0;
        while i < self.dwarves.len()
            invariant
                i <= self.dwarves@.len(),
                forall|k: int|
                    0 <= k < i ==> 2 <= (#[trigger] self.dwarves@[k]).pos.0 && self.dwarves@[k].pos.0
                        + 2 < self.width && 2 <= self.dwarves@[k].pos.1 && self.dwarves@[k].pos.1 + 2
                        < self.height,
            decreases self.dwarves@.len() - i,
        {
            let (x, y) = self.dwarves[i].pos;
            if x < 2 || y < 2 || self.width < 3 || self.height < 3 || x >= self.width - 2 || y
                >= self.height - 2 {
                return false;
            }
            i += 1;
        }
        true
    }
}

/// The squares of the first `x` columns of line `y` of a chart that hold
/// a dwarf, from the left, each moved by `padding` columns and rows: a
/// dot is an empty square, anything else a dwarf.
pub open spec fn row_spots(line: Seq<char>, padding: int, y: int, x: nat) -> Seq<(int, int)>
    decreases x,
{
    if x == 0 {
        Seq::empty()
    } else if line[x - 1] != '.' {
        row_spots(line, padding, y, (x - 1) as nat).push((padding + x - 1, padding + y))
    } else {
        row_spots(line, padding, y, (x - 1) as nat)
    }
}

/// The squares of the first `y` lines of a chart that hold a dwarf, line
/// by line.
pub open spec fn spots(chart: Seq<Seq<char>>, padding: int, y: nat) -> Seq<(int, int)>
    decreases y,
{
    if y == 0 {
        Seq::empty()
    } else {
        spots(chart, padding, (y - 1) as nat) + row_spots(
            chart[y - 1],
            padding,
            y - 1,
            chart[y - 1].len(),
        )
    }
}

/// The lines of a chart as sequences of characters.
pub open spec fn chart_of(lines: &Vec<Vec<char>>) -> Seq<Seq<char>> {
    Seq::new(lines@.len(), |i: int| lines@[i]@)
}

/// Whether a chart with `padding` empty columns and rows on each side
/// makes a board: it has a line, its lines are of one length and not
/// empty, the board's width and height and the number of its squares can
/// be counted, and the dwarves can be numbered.
pub open spec fn fits(chart: Seq<Seq<char>>, padding: int) -> bool {
    &&& chart.len() > 0
    &&& chart[0].len() > 0
    &&& forall|i: int| 0 <= i < chart.len() ==> (#[trigger] chart[i]).len() == chart[0].len()
    &&& 2 * padding + chart[0].len() <= isize::MAX
    &&& 2 * padding + chart.len() <= isize::MAX
    &&& (2 * padding + chart[0].len()) * (2 * padding + chart.len()) <= usize::MAX
    &&& spots(chart, padding, chart.len()).len() <= 0x10000
}

/// The dwarves of more lines are no fewer.
pub proof fn lemma_spots_grow(chart: Seq<Seq<char>>, padding: int, y: nat, z: nat)
    requires
        y <= z,
    ensures
        spots(chart, padding, y).len() <= spots(chart, padding, z).len(),
    decreases z,
{
    if y < z {
        lemma_spots_grow(chart, padding, y, (z - 1) as nat);
    }
}

/// The dwarves of a line's first columns are no more than those of the
/// line.
pub proof fn lemma_row_spots_grow(line: Seq<char>, padding: int, y: int, x: nat, z: nat)
    requires
        x <= z,
    ensures
        row_spots(line, padding, y, x).len() <= row_spots(line, padding, y, z).len(),
    decreases z,
{
    if x < z {
        lemma_row_spots_grow(line, padding, y, x, (z - 1) as nat);
    }
}

impl Board {
    /// The board of a chart, with `padding` empty columns and rows on
    /// each side, before the first round: the dwarves are numbered line
    /// by line, and all are awake.
    pub fn read(lines: &Vec<Vec<char>>, padding: usize) -> (r: Option<Board>)
        ensures
            r is Some == fits(chart_of(lines), padding as int),
            match r {
                Some(b) => b.wf() && b.width == 2 * padding + lines@[0]@.len() && b.height == 2
                    * padding + lines@.len() && b.round == 0 && b.moved == 0 && !b.finished
                    && b.places() == spots(chart_of(lines), padding as int, lines@.len()) && forall|
                    i: int,
                | 0 <= i < b.dwarves@.len() ==> (#[trigger] b.dwarves@[i]).awake,
                None => true,
            },
    {
        let ghost chart = chart_of(lines);
        let ghost pad = padding as int;
        let count = lines.len();
        if count == 0 {
            return None;
        }
        let span = lines[0].len();
        assert(chart[0] == lines@[0]@);
        if span == 0 || padding > (isize::MAX as usize) / 2 {
            return None;
        }
        if span > isize::MAX as usize - 2 * padding || count > isize::MAX as usize - 2 * padding {
            return None;
        }
        let width = 2 * padding + span;
        let height = 2 * padding + count;
        let total = match width.checked_mul(height) {
            Some(t) => t,
            None => {
                return None;
            },
        };
        let mut squares: Vec<Square> = Vec::new();
        let mut k: usize = 0;
        while k < total
            invariant
                k <= total,
                squares@.len() == k,
                forall|j: int| 0 <= j < k ==> squares@[j] == Square::Empty,
            decreases total - k,
        {
            squares.push(Square::Empty);
            k += 1;
        }
        let mut b = Board {
            width,
            height,
            round: 0,
            finished: false,
            moved: 0,
            squares,
            dwarves: Vec::new(),
        };
        proof {
            assert(b.places() =~= spots(chart, pad, 0));
            assert forall|x2: int, y2: int|
                0 <= x2 < b.width && 0 <= y2 < b.height implies #[trigger] b.at(x2, y2)
                == Square::Empty by {
                lemma_cells(b.width as int, b.height as int, x2, y2, 0, 0);
            }
        }
        let mut y: usize = 0;
        while y < count
            invariant
                y <= count,
                count == lines@.len(),
                chart == chart_of(lines),
                pad == padding,
                span == lines@[0]@.len(),
                span > 0,
                forall|i: int| 0 <= i < y ==> (#[trigger] chart[i]).len() == span,
                b.width == 2 * padding + span,
                b.height == 2 * padding + count,
                b.round == 0,
                b.moved == 0,
                !b.finished,
                b.grid_ok(),
                b.seated(),
                b.unmarked(),
                b.places() == spots(chart, pad, y as nat),
                forall|i: int| 0 <= i < b.dwarves@.len() ==> (#[trigger] b.dwarves@[i]).awake,
                forall|i: int| 0 <= i < b.dwarves@.len() ==> (#[trigger] b.places()[i]).1 < pad + y,
            decreases count - y,
        {
            assert(chart[y as int] == lines@[y as int]@);
            if lines[y].len() != span {
                proof {
                    assert(!fits(chart, pad));
                }
                return None;
            }
            let ghost line = chart[y as int];
            let ghost above = spots(chart, pad, y as nat);
            let mut x: usize = 0;
            while x < span
                invariant
                    x <= span,
                    y < count,
                    count == lines@.len(),
                    chart == chart_of(lines),
                    pad == padding,
                    line == chart[y as int],
                    line == lines@[y as int]@,
                    line.len() == span,
                    above == spots(chart, pad, y as nat),
                    b.width == 2 * padding + span,
                    b.height == 2 * padding + count,
                    b.round == 0,
                    b.moved == 0,
                    !b.finished,
                    b.grid_ok(),
                    b.seated(),
                    b.unmarked(),
                    b.places() == above + row_spots(line, pad, y as int, x as nat),
                    forall|i: int| 0 <= i < b.dwarves@.len() ==> (#[trigger] b.dwarves@[i]).awake,
                    forall|i: int|
                        0 <= i < b.dwarves@.len() ==> (#[trigger] b.places()[i]).1 < pad + y || (
                        b.places()[i].1 == pad + y && b.places()[i].0 < pad + x),
                decreases span - x,
            {
                let c = lines[y][x];
                if c != '.' {
                    let num = b.dwarves.len();
                    if num >= 0x10000 {
                        proof {
                            lemma_row_spots_grow(line, pad, y as int, (x + 1) as nat, span as nat);
                            lemma_spots_grow(chart, pad, (y + 1) as nat, count as nat);
                            assert(b.places().len() == num);
                        }
                        return None;
                    }
                    let ghost prior = b;
                    proof {
                        if let Square::Dwarf(k) = b.at(pad + x, pad + y) {
                            assert(b.places()[k as int] == (pad + x, pad + y));
                            assert(false);
                        }
                    }
                    b.put(padding + x, padding + y, Square::Dwarf(num as u16));
                    let ghost lit = b;
                    b.dwarves.push(Dwarf { dest: None, awake: true, pos: (padding + x, padding + y) });
                    proof {
                        assert forall|x2: int, y2: int|
                            0 <= x2 < b.width && 0 <= y2 < b.height implies #[trigger] b.at(x2, y2)
                            == lit.at(x2, y2) by {}
                        assert(b.places() =~= prior.places().push((pad + x, pad + y)));
                        assert(b.places() =~= above + row_spots(line, pad, y as int, (x + 1) as nat));
                        assert forall|i: int| 0 <= i < b.dwarves@.len() implies b.at(
                            (#[trigger] b.dwarves@[i]).pos.0 as int,
                            b.dwarves@[i].pos.1 as int,
                        ) == Square::Dwarf(i as u16) by {
                            if i < num {
                                assert(b.dwarves@[i] == prior.dwarves@[i]);
                                assert(prior.places()[i] != (pad + x, pad + y));
                                assert(prior.at(
                                    prior.dwarves@[i].pos.0 as int,
                                    prior.dwarves@[i].pos.1 as int,
                                ) == Square::Dwarf(i as u16));
                            }
                        }
                        assert forall|x2: int, y2: int|
                            0 <= x2 < b.width && 0 <= y2 < b.height implies match #[trigger] b.at(
                            x2,
                            y2,
                        ) {
                            Square::Dwarf(k) => k < b.dwarves@.len() && b.dwarves@[k as int].pos == (
                                x2 as usize,
                                y2 as usize,
                            ),
                            _ => true,
                        } by {
                            if x2 != pad + x || y2 != pad + y {
                                assert(b.at(x2, y2) == prior.at(x2, y2));
                            }
                        }
                        assert forall|i: int| 0 <= i < b.dwarves@.len() implies (
                        #[trigger] b.places()[i]).1 < pad + y || (b.places()[i].1 == pad + y
                            && b.places()[i].0 < pad + x + 1) by {
                            if i < num {
                                assert(b.places()[i] == prior.places()[i]);
                            }
                        }
                    }
                }
                x += 1;
            }
            proof {
                assert(b.places() =~= spots(chart, pad, (y + 1) as nat));
            }
            y += 1;
        }
        proof {
            assert(b.sleepers_alone());
            assert(fits(chart, pad));
        }
        Some(b)
    }
}

} // verus!
