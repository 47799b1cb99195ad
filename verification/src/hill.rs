//! A map of heights and the shortest climb across it.

use vstd::prelude::*;

verus! {

/// A place: column and row.
pub type Position = (isize, isize);

/// Largest number of rows and of columns of a map.
pub const EDGE: usize = 0x4000;

/// A square of the map: its height, whether the search has entered it,
/// and after how many steps.
#[derive(Copy, Clone)]
pub struct Square {
    pub height: u8,
    pub visited: bool,
    pub cost: usize,
}

/// A map and a search on it. In a forward search a step may climb by one
/// at most and the goal is `end`; in a reverse search a step may descend
/// by one at most and the goal is any square of height zero.
pub struct Grid {
    pub reverse: bool,
    pub squares: Vec<Vec<Square>>,
    pub start: Position,
    pub end: Position,
}

/// The content of a map: the rule of the search and the heights.
pub struct Land {
    pub reverse: bool,
    pub heights: Seq<Seq<u8>>,
    pub start: (int, int),
    pub end: (int, int),
}

impl Land {
    /// The map is a rectangle of at most `EDGE` rows and columns.
    pub open spec fn wf(self) -> bool {
        &&& 0 < self.heights.len() <= EDGE
        &&& self.heights[0].len() <= EDGE
        &&& forall|y: int| 0 <= y < self.heights.len() ==> (#[trigger] self.heights[y]).len() == self.heights[0].len()
    }

    /// Whether the place is on the map.
    pub open spec fn holds(self, p: (int, int)) -> bool {
        0 <= p.1 < self.heights.len() && 0 <= p.0 < self.heights[0].len()
    }

    /// The height at a place.
    pub open spec fn height(self, p: (int, int)) -> int {
        self.heights[p.1][p.0] as int
    }

    /// Whether the search may step from `from` to `to`.
    pub open spec fn allows(self, from: (int, int), to: (int, int)) -> bool {
        &&& self.holds(from)
        &&& self.holds(to)
        &&& beside(from, to)
        &&& if self.reverse {
            self.height(to) >= self.height(from) - 1
        } else {
            self.height(to) <= self.height(from) + 1
        }
    }

    /// Whether a place is a goal of the search.
    pub open spec fn goal(self, p: (int, int)) -> bool {
        if self.reverse {
            self.holds(p) && self.height(p) == 0
        } else {
            p == self.end
        }
    }

    /// Whether the search stands at `p` after exactly `n` steps without
    /// having entered `p` before: at the start for no step, and else at
    /// a place that is entered by step `n` and by none before it.
    pub open spec fn front(self, n: nat, p: (int, int)) -> bool
        decreases n, 1int,
    {
        if n == 0 {
            p == self.start
        } else {
            self.entered(n, p) && !self.entered((n - 1) as nat, p)
        }
    }

    /// Whether the search has entered `p` by one of its first `n` steps.
    /// The start counts as entered only once a step leads back to it.
    pub open spec fn entered(self, n: nat, p: (int, int)) -> bool
        decreases n, 0int,
    {
        if n == 0 {
            false
        } else {
            let m = (n - 1) as nat;
            self.entered(m, p) || (self.front(m, (p.0 - 1, p.1)) && self.allows((p.0 - 1, p.1), p)) || (
            self.front(m, (p.0 + 1, p.1)) && self.allows((p.0 + 1, p.1), p)) || (self.front(
                m,
                (p.0, p.1 - 1),
            ) && self.allows((p.0, p.1 - 1), p)) || (self.front(m, (p.0, p.1 + 1)) && self.allows(
                (p.0, p.1 + 1),
                p,
            ))
        }
    }

    /// Whether step `n` enters a goal.
    pub open spec fn found(self, n: nat) -> bool {
        exists|p: (int, int)| self.goal(p) && #[trigger] self.front(n, p) && n > 0
    }
}

/// Whether `q` is one step to the left or right of `p`, or above or below.
pub open spec fn beside(p: (int, int), q: (int, int)) -> bool {
    ||| q == (p.0 - 1, p.1)
    ||| q == (p.0 + 1, p.1)
    ||| q == (p.0, p.1 - 1)
    ||| q == (p.0, p.1 + 1)
}

/// The place as integers.
pub open spec fn place(p: Position) -> (int, int) {
    (p.0 as int, p.1 as int)
}

/// What is entered lies on the map.
pub proof fn lemma_entered_holds(land: Land, n: nat, p: (int, int))
    requires
        land.entered(n, p),
    ensures
        land.holds(p),
    decreases n,
{
    if n > 0 && land.entered((n - 1) as nat, p) {
        lemma_entered_holds(land, (n - 1) as nat, p);
    }
}

/// What is entered by fewer steps is entered by more.
pub proof fn lemma_entered_grows(land: Land, k: nat, n: nat, p: (int, int))
    requires
        k <= n,
        land.entered(k, p),
    ensures
        land.entered(n, p),
    decreases n - k,
{
    if k < n {
        lemma_entered_grows(land, k, (n - 1) as nat, p);
    }
}

/// A step from the front enters the next place.
pub proof fn lemma_step_enters(land: Land, n: nat, from: (int, int), to: (int, int))
    requires
        land.front(n, from),
        land.allows(from, to),
    ensures
        land.entered(n + 1, to),
{
    assert(((n + 1) - 1) as nat == n);
}

/// Once a step finds the front empty, no later step enters anything.
pub proof fn lemma_front_stays_empty(land: Land, k: nat, n: nat, p: (int, int))
    requires
        k >= 1,
        forall|q: (int, int)| !land.front(k, q),
        k <= n,
    ensures
        !land.front(n, p),
        land.entered(n, p) == land.entered(k, p),
    decreases n - k,
{
    if k < n {
        let m = (n - 1) as nat;
        lemma_front_stays_empty(land, k, m, p);
        lemma_front_stays_empty(land, k, m, (p.0 - 1, p.1));
        lemma_front_stays_empty(land, k, m, (p.0 + 1, p.1));
        lemma_front_stays_empty(land, k, m, (p.0, p.1 - 1));
        lemma_front_stays_empty(land, k, m, (p.0, p.1 + 1));
    }
}

/// How far a search has come: the places to go on from, or the number of
/// steps to the goal.
pub enum PathfindStage {
    Partial(Vec<Position>),
    Complete(usize),
}

/// How many of the first `n` squares of a row have been entered.
pub open spec fn row_seen(row: Seq<Square>, n: nat) -> nat
    decreases n,
{
    if n == 0 {
        0
    } else {
        row_seen(row, (n - 1) as nat) + (if row[n - 1].visited {
            1nat
        } else {
            0nat
        })
    }
}

/// How many squares of the first `m` rows have been entered.
pub open spec fn rows_seen(squares: Seq<Vec<Square>>, m: nat) -> nat
    decreases m,
{
    if m == 0 {
        0
    } else {
        rows_seen(squares, (m - 1) as nat) + row_seen(squares[m - 1]@, squares[m - 1]@.len())
    }
}

/// No more squares of a row have been entered than it has.
pub proof fn lemma_row_seen_bound(row: Seq<Square>, n: nat)
    ensures
        row_seen(row, n) <= n,
    decreases n,
{
    if n > 0 {
        lemma_row_seen_bound(row, (n - 1) as nat);
    }
}

/// No more squares have been entered than the rows have.
pub proof fn lemma_rows_seen_bound(squares: Seq<Vec<Square>>, m: nat, width: nat)
    requires
        m <= squares.len(),
        forall|y: int| 0 <= y < squares.len() ==> (#[trigger] squares[y])@.len() == width,
    ensures
        rows_seen(squares, m) <= m * width,
    decreases m,
{
    if m > 0 {
        lemma_rows_seen_bound(squares, (m - 1) as nat, width);
        lemma_row_seen_bound(squares[m - 1]@, width);
        assert((m - 1) * width + width == m * width) by (nonlinear_arith);
    }
}

/// Entering a square of a row that was not entered raises the count by
/// one.
pub proof fn lemma_row_enter(row: Seq<Square>, after: Seq<Square>, x: int, n: nat)
    requires
        0 <= x < row.len(),
        n <= row.len(),
        !row[x].visited,
        after.len() == row.len(),
        after[x].visited,
        forall|k: int| 0 <= k < row.len() && k != x ==> #[trigger] after[k] == row[k],
    ensures
        row_seen(after, n) == row_seen(row, n) + (if x < n {
            1nat
        } else {
            0nat
        }),
    decreases n,
{
    if n > 0 {
        lemma_row_enter(row, after, x, (n - 1) as nat);
    }
}

/// Entering a square that was not entered raises the count by one.
pub proof fn lemma_rows_enter(before: Seq<Vec<Square>>, after: Seq<Vec<Square>>, p: (int, int), m: nat)
    requires
        m <= before.len(),
        before.len() == after.len(),
        0 <= p.1 < before.len(),
        0 <= p.0 < before[p.1]@.len(),
        !before[p.1]@[p.0].visited,
        after[p.1]@.len() == before[p.1]@.len(),
        after[p.1]@[p.0].visited,
        forall|k: int| 0 <= k < before[p.1]@.len() && k != p.0 ==> #[trigger] after[p.1]@[k] == before[p.1]@[k],
        forall|y: int| 0 <= y < before.len() && y != p.1 ==> (#[trigger] after[y])@ == before[y]@,
    ensures
        rows_seen(after, m) == rows_seen(before, m) + (if p.1 < m {
            1nat
        } else {
            0nat
        }),
    decreases m,
{
    if m > 0 {
        lemma_rows_enter(before, after, p, (m - 1) as nat);
        if p.1 == m - 1 {
            lemma_row_enter(before[p.1]@, after[p.1]@, p.0, before[p.1]@.len());
        }
    }
}

impl Grid {
    /// The map of the search.
    pub open spec fn land(&self) -> Land {
        Land {
            reverse: self.reverse,
            heights: Seq::new(
                self.squares@.len(),
                |y: int| Seq::new(self.squares@[y]@.len(), |x: int| self.squares@[y]@[x].height),
            ),
            start: place(self.start),
            end: place(self.end),
        }
    }

    /// The square at a place.
    pub open spec fn square(&self, p: (int, int)) -> Square {
        self.squares@[p.1]@[p.0]
    }

    /// The search has taken `level` steps, stands at `positions`, and
    /// has found no goal yet.
    pub open spec fn at_level(&self, level: nat, positions: Seq<Position>) -> bool {
        let land = self.land();
        &&& land.wf()
        &&& land.holds(land.start)
        &&& forall|p: (int, int)| land.holds(p) ==> #[trigger] self.square(p).visited == land.entered(level, p)
        &&& forall|k: int|
            0 <= k < positions.len() ==> land.holds(place(#[trigger] positions[k])) && land.front(
                level,
                place(positions[k]),
            ) && self.square(place(positions[k])).cost == level
        &&& forall|p: (int, int)|
            land.front(level, p) ==> exists|k: int|
                0 <= k < positions.len() && place(#[trigger] positions[k]) == p
        &&& forall|n: nat| 1 <= n <= level ==> !land.found(n)
    }

    /// The square at a place, or `None` for a place off the map.
    pub fn get(&self, p: Position) -> (r: Option<Square>)
        requires
            self.land().wf(),
        ensures
            r == (if self.land().holds(place(p)) {
                Some(self.square(place(p)))
            } else {
                None
            }),
    {
        let (px, py) = p;
        if py >= 0 && (py as usize) < self.squares.len() {
            let l = &self.squares[py as usize];
            assert(self.land().heights[py as int].len() == self.land().heights[0].len());
            if px >= 0 && (px as usize) < l.len() {
                return Some(l[px as usize]);
            }
        }
        None
    }

    /// Notes that the search has entered the square at `p` after `cost`
    /// steps.
    pub fn enter(&mut self, p: Position, cost: usize)
        requires
            old(self).land().wf(),
            old(self).land().holds(place(p)),
        ensures
            final(self).land() == old(self).land(),
            final(self).square(place(p)) == (Square {
                visited: true,
                cost,
                ..old(self).square(place(p))
            }),
            forall|q: (int, int)|
                old(self).land().holds(q) && q != place(p) ==> #[trigger] final(self).square(q) == old(
                    self,
                ).square(q),
            !old(self).square(place(p)).visited ==> rows_seen(
                final(self).squares@,
                final(self).squares@.len(),
            ) == rows_seen(old(self).squares@, old(self).squares@.len()) + 1,
    {
        let (px, py) = p;
        assert(self.land().heights[py as int].len() == self.land().heights[0].len());
        let sq = self.squares[py as usize][px as usize];
        self.squares[py as usize][px as usize] = Square { height: sq.height, visited: true, cost };
        proof {
            assert(self.land().heights =~~= old(self).land().heights);
            if !old(self).square(place(p)).visited {
                lemma_rows_enter(old(self).squares@, self.squares@, place(p), self.squares@.len());
            }
        }
    }
}

/// The place one step from `p` in direction number `d`: left, right, up,
/// down.
pub open spec fn step(p: (int, int), d: int) -> (int, int) {
    if d == 0 {
        (p.0 - 1, p.1)
    } else if d == 1 {
        (p.0 + 1, p.1)
    } else if d == 2 {
        (p.0, p.1 - 1)
    } else {
        (p.0, p.1 + 1)
    }
}

/// Whether the search steps to `q` from one of the first `a` positions, or
/// from position number `a` in one of the first `i` directions.
pub open spec fn stepped(land: Land, positions: Seq<Position>, a: int, i: int, q: (int, int)) -> bool {
    (exists|k: int| 0 <= k < a && land.allows(place(#[trigger] positions[k]), q)) || (exists|d: int|
        0 <= d < i && q == #[trigger] step(place(positions[a]), d) && land.allows(
            place(positions[a]),
            q,
        ))
}

impl Grid {
    /// Takes one step from each of the positions, in each direction that
    /// the rule of the search allows, to the squares that have not been
    /// entered. Returns the number of steps where this enters a goal, and
    /// else the squares entered.
    pub fn iterate(&mut self, ps: Vec<Position>, Ghost(level): Ghost<nat>) -> (stage: PathfindStage)
        requires
            old(self).at_level(level, ps@),
            level + 1 < usize::MAX,
        ensures
            final(self).land() == old(self).land(),
            match stage {
                PathfindStage::Complete(cost) => cost == level + 1 && final(self).land().found(level + 1),
                PathfindStage::Partial(next) => final(self).at_level(level + 1, next@) && rows_seen(
                    final(self).squares@,
                    final(self).squares@.len(),
                ) == rows_seen(old(self).squares@, old(self).squares@.len()) + next@.len(),
            },
    {
        let ghost land = self.land();
        let ghost before = rows_seen(self.squares@, self.squares@.len());
        let mut next: Vec<Position> = Vec::new();
        let end = self.end;
        let reverse = self.reverse;
        let mut a: usize = 0;
        while a < ps.len()
            invariant
                a <= ps@.len(),
                land == old(self).land(),
                self.land() == land,
                end == self.end,
                reverse == self.reverse,
                land.wf(),
                land.holds(land.start),
                level + 1 < usize::MAX,
                forall|k: int|
                    0 <= k < ps@.len() ==> land.holds(place(#[trigger] ps@[k])) && land.front(
                        level,
                        place(ps@[k]),
                    ),
                forall|k: int|
                    a <= k < ps@.len() ==> self.square(place(#[trigger] ps@[k])).cost == level,
                forall|p: (int, int)|
                    land.front(level, p) ==> exists|k: int|
                        0 <= k < ps@.len() && place(#[trigger] ps@[k]) == p,
                forall|n: nat| 1 <= n <= level ==> !land.found(n),
                forall|q: (int, int)|
                    land.holds(q) ==> #[trigger] self.square(q).visited == (land.entered(level, q)
                        || stepped(land, ps@, a as int, 0, q)),
                forall|j: int|
                    0 <= j < next@.len() ==> land.holds(place(#[trigger] next@[j])) && land.front(
                        level + 1,
                        place(next@[j]),
                    ) && self.square(place(next@[j])).cost == level + 1 && !land.goal(place(next@[j]))
                        && self.square(place(next@[j])).visited,
                forall|q: (int, int)|
                    land.holds(q) && #[trigger] self.square(q).visited && !land.entered(level, q)
                        ==> exists|j: int| 0 <= j < next@.len() && place(#[trigger] next@[j]) == q,
                rows_seen(self.squares@, self.squares@.len()) == before + next@.len(),
            decreases ps@.len() - a,
        {
            let (px, py) = ps[a];
            let ghost here = place(ps@[a as int]);
            assert(land.holds(here));
            let current = match self.get((px, py)) {
                Some(sq) => sq,
                None => {
                    return PathfindStage::Complete(0);
                },
            };
            let mut i: usize = 0;
            while i < 4
                invariant
                    i <= 4,
                    a < ps@.len(),
                    here == place(ps@[a as int]),
                    here == (px as int, py as int),
                    land == old(self).land(),
                    self.land() == land,
                    end == self.end,
                    reverse == self.reverse,
                    land.wf(),
                    land.holds(land.start),
                    land.holds(here),
                    level + 1 < usize::MAX,
                    current.height == land.height(here),
                    current.cost == level,
                    forall|k: int|
                        0 <= k < ps@.len() ==> land.holds(place(#[trigger] ps@[k])) && land.front(
                            level,
                            place(ps@[k]),
                        ),
                    forall|k: int|
                        a < k < ps@.len() ==> self.square(place(#[trigger] ps@[k])).cost == level,
                    forall|p: (int, int)|
                        land.front(level, p) ==> exists|k: int|
                            0 <= k < ps@.len() && place(#[trigger] ps@[k]) == p,
                    forall|n: nat| 1 <= n <= level ==> !land.found(n),
                    forall|q: (int, int)|
                        land.holds(q) ==> #[trigger] self.square(q).visited == (land.entered(level, q)
                            || stepped(land, ps@, a as int, i as int, q)),
                    forall|j: int|
                        0 <= j < next@.len() ==> land.holds(place(#[trigger] next@[j])) && land.front(
                            level + 1,
                            place(next@[j]),
                        ) && self.square(place(next@[j])).cost == level + 1 && !land.goal(
                            place(next@[j]),
                        ) && self.square(place(next@[j])).visited,
                    forall|q: (int, int)|
                        land.holds(q) && #[trigger] self.square(q).visited && !land.entered(level, q)
                            ==> exists|j: int| 0 <= j < next@.len() && place(#[trigger] next@[j]) == q,
                    rows_seen(self.squares@, self.squares@.len()) == before + next@.len(),
                decreases 4 - i,
            {
                let (dx, dy): (isize, isize) = if i == 0 {
                    (-1, 0)
                } else if i == 1 {
                    (1, 0)
                } else if i == 2 {
                    (0, -1)
                } else {
                    (0, 1)
                };
                let q = (px + dx, py + dy);
                let ghost target = place(q);
                assert(target == step(here, i as int));
                let ghost was = *self;
                let ghost old_next = next@;
                let ghost mut entered_now = false;
                match self.get(q) {
                    Some(sq) => {
                        let height_check = if reverse {
                            sq.height as i32 >= current.height as i32 - 1
                        } else {
                            sq.height as i32 <= current.height as i32 + 1
                        };
                        assert(height_check == land.allows(here, target));
                        if height_check && !sq.visited {
                            let cost = level_cost(current.cost);
                            proof {
                                lemma_step_enters(land, level, here, target);
                                entered_now = true;
                            }
                            self.enter(q, cost);
                            let found = if reverse {
                                sq.height == 0
                            } else {
                                q.0 == end.0 && q.1 == end.1
                            };
                            if found {
                                proof {
                                    let up: nat = level + 1;
                                    assert(land.goal(target));
                                    assert(land.front(up, target));
                                    assert(land.found(up));
                                }
                                return PathfindStage::Complete(cost);
                            }
                            next.push(q);
                        }
                    },
                    None => {},
                }
                proof {
                    assert forall|p: (int, int)| land.holds(p) implies #[trigger] self.square(
                        p,
                    ).visited == (land.entered(level, p) || stepped(land, ps@, a as int, i + 1, p)) by {
                        if p == target {
                            if land.allows(here, target) {
                                assert(stepped(land, ps@, a as int, i + 1, p));
                            } else {
                                if stepped(land, ps@, a as int, i + 1, p) && !stepped(
                                    land,
                                    ps@,
                                    a as int,
                                    i as int,
                                    p,
                                ) {
                                    let d = choose|d: int|
                                        0 <= d < i + 1 && p == #[trigger] step(place(ps@[a as int]), d)
                                            && land.allows(place(ps@[a as int]), p);
                                    assert(d < i);
                                }
                            }
                        } else {
                            assert(self.square(p) == was.square(p));
                            if stepped(land, ps@, a as int, i + 1, p) && !stepped(
                                land,
                                ps@,
                                a as int,
                                i as int,
                                p,
                            ) {
                                let d = choose|d: int|
                                    0 <= d < i + 1 && p == #[trigger] step(place(ps@[a as int]), d)
                                        && land.allows(place(ps@[a as int]), p);
                                assert(d < i);
                            }
                        }
                    }
                    assert forall|p: (int, int)|
                        land.holds(p) && #[trigger] self.square(p).visited && !land.entered(
                            level,
                            p,
                        ) implies exists|j: int|
                        0 <= j < next@.len() && place(#[trigger] next@[j]) == p by {
                        if p == target && entered_now {
                            assert(place(next@[old_next.len() as int]) == p);
                        } else {
                            assert(was.square(p).visited);
                            let j = choose|j: int|
                                0 <= j < old_next.len() && place(#[trigger] old_next[j]) == p;
                            assert(next@[j] == old_next[j]);
                        }
                    }
                    assert forall|j: int| 0 <= j < next@.len() implies land.holds(
                        place(#[trigger] next@[j]),
                    ) && land.front(level + 1, place(next@[j])) && self.square(
                        place(next@[j]),
                    ).cost == level + 1 && !land.goal(place(next@[j])) && self.square(
                        place(next@[j]),
                    ).visited by {
                        if j < old_next.len() {
                            assert(next@[j] == old_next[j]);
                            assert(was.square(place(old_next[j])).visited);
                        }
                    }
                    assert forall|k: int| a < k < ps@.len() implies self.square(
                        place(#[trigger] ps@[k]),
                    ).cost == level by {
                        if entered_now {
                            // a square of the front is the start or has been entered
                            if level == 0 {
                                assert(land.front(0, place(ps@[k])));
                                assert(land.front(0, here));
                            } else {
                                assert(land.front(level, place(ps@[k])));
                                assert(was.square(place(ps@[k])).visited);
                            }
                            assert(place(ps@[k]) != target);
                        }
                        assert(self.square(place(ps@[k])) == was.square(place(ps@[k])));
                    }
                }
                i += 1;
            }
            proof {
                assert forall|q: (int, int)| land.holds(q) implies (stepped(land, ps@, a as int, 4, q)
                    == stepped(land, ps@, a + 1, 0, q)) by {
                    if stepped(land, ps@, a + 1, 0, q) {
                        let k = choose|k: int| 0 <= k < a + 1 && land.allows(place(#[trigger] ps@[k]), q);
                        if k == a {
                            let d: int = if q == (here.0 - 1, here.1) {
                                0
                            } else if q == (here.0 + 1, here.1) {
                                1
                            } else if q == (here.0, here.1 - 1) {
                                2
                            } else {
                                3
                            };
                            assert(q == step(place(ps@[a as int]), d));
                            assert(stepped(land, ps@, a as int, 4, q));
                        } else {
                            assert(stepped(land, ps@, a as int, 4, q));
                        }
                    }
                    if stepped(land, ps@, a as int, 4, q) {
                        if exists|k: int| 0 <= k < a && land.allows(place(#[trigger] ps@[k]), q) {
                            let k = choose|k: int| 0 <= k < a && land.allows(place(#[trigger] ps@[k]), q);
                            assert(0 <= k < a + 1);
                        } else {
                            assert(land.allows(place(ps@[a as int]), q));
                        }
                    }
                }
            }
            a += 1;
        }
        proof {
            let full = ps@.len() as int;
            assert forall|q: (int, int)| land.holds(q) implies #[trigger] self.square(q).visited
                == land.entered(level + 1, q) by {
                if stepped(land, ps@, full, 0, q) {
                    let k = choose|k: int| 0 <= k < full && land.allows(place(#[trigger] ps@[k]), q);
                    lemma_step_enters(land, level, place(ps@[k]), q);
                }
                if land.entered(level, q) {
                    lemma_entered_grows(land, level, level + 1, q);
                }
                if land.entered(level + 1, q) && !land.entered(level, q) {
                    let r = if land.front(level, (q.0 - 1, q.1)) && land.allows((q.0 - 1, q.1), q) {
                        (q.0 - 1, q.1)
                    } else if land.front(level, (q.0 + 1, q.1)) && land.allows((q.0 + 1, q.1), q) {
                        (q.0 + 1, q.1)
                    } else if land.front(level, (q.0, q.1 - 1)) && land.allows((q.0, q.1 - 1), q) {
                        (q.0, q.1 - 1)
                    } else {
                        (q.0, q.1 + 1)
                    };
                    assert(land.front(level, r) && land.allows(r, q));
                    let k = choose|k: int| 0 <= k < ps@.len() && place(#[trigger] ps@[k]) == r;
                    assert(land.allows(place(ps@[k]), q));
                    assert(stepped(land, ps@, full, 0, q));
                }
            }
            let up: nat = level + 1;
            assert forall|p: (int, int)| #[trigger] land.front(up, p) implies exists|k: int|
                0 <= k < next@.len() && place(#[trigger] next@[k]) == p by {
                lemma_entered_holds(land, up, p);
                assert(self.square(p).visited);
            }
            assert forall|n: nat| 1 <= n <= level + 1 implies !land.found(n) by {
                if n == level + 1 && land.found(n) {
                    let p = choose|p: (int, int)| land.goal(p) && #[trigger] land.front(n, p) && n > 0;
                    let k = choose|k: int| 0 <= k < next@.len() && place(#[trigger] next@[k]) == p;
                    assert(!land.goal(place(next@[k])));
                }
            }
        }
        PathfindStage::Partial(next)
    }

    /// Every row of squares is as long as the map is wide.
    pub proof fn lemma_widths(&self)
        requires
            self.land().wf(),
        ensures
            forall|y: int|
                0 <= y < self.squares@.len() ==> (#[trigger] self.squares@[y])@.len()
                    == self.land().heights[0].len(),
    {
        assert forall|y: int| 0 <= y < self.squares@.len() implies (#[trigger] self.squares@[y])@.len()
            == self.land().heights[0].len() by {
            assert(self.land().heights[y].len() == self.squares@[y]@.len());
        }
    }

    /// Searches from the start, step by step, until a step enters a goal
    /// or enters nothing. Returns the number of steps to the goal, or
    /// `None` where no goal can be entered.
    pub fn pathfind(&mut self) -> (r: Option<usize>)
        requires
            old(self).land().wf(),
            old(self).land().holds(place(old(self).start)),
            old(self).square(place(old(self).start)).cost == 0,
            forall|p: (int, int)| old(self).land().holds(p) ==> !(#[trigger] old(self).square(p)).visited,
        ensures
            final(self).land() == old(self).land(),
            match r {
                Some(cost) => cost >= 1 && old(self).land().found(cost as nat) && forall|n: nat|
                    1 <= n < cost ==> !old(self).land().found(n),
                None => forall|n: nat| !old(self).land().found(n),
            },
    {
        let ghost land = self.land();
        let mut positions: Vec<Position> = Vec::new();
        positions.push(self.start);
        let ghost mut level: nat = 0;
        let total = self.squares.len();
        proof {
            self.lemma_widths();
            lemma_rows_seen_bound(self.squares@, total as nat, land.heights[0].len());
            assert(EDGE * EDGE < usize::MAX) by (nonlinear_arith);
            assert(total * land.heights[0].len() <= EDGE * EDGE) by (nonlinear_arith)
                requires
                    total <= EDGE,
                    land.heights[0].len() <= EDGE,
            ;
            assert(place(positions@[0]) == land.start);
        }
        loop
            invariant
                land == old(self).land(),
                self.land() == land,
                self.at_level(level, positions@),
                total == self.squares@.len(),
                level <= rows_seen(self.squares@, total as nat),
                rows_seen(self.squares@, total as nat) <= EDGE * EDGE,
                EDGE * EDGE < usize::MAX,
            decreases EDGE * EDGE - level,
        {
            let stage = self.iterate(positions, Ghost(level));
            proof {
                self.lemma_widths();
                lemma_rows_seen_bound(self.squares@, total as nat, land.heights[0].len());
                assert(total * land.heights[0].len() <= EDGE * EDGE) by (nonlinear_arith)
                    requires
                        total <= EDGE,
                        land.heights[0].len() <= EDGE,
                ;
            }
            match stage {
                PathfindStage::Partial(p) => {
                    if p.len() == 0 {
                        proof {
                            let k = (level + 1) as nat;
                            assert forall|n: nat| !land.found(n) by {
                                if land.found(n) {
                                    let q = choose|q: (int, int)|
                                        land.goal(q) && #[trigger] land.front(n, q) && n > 0;
                                    if n > k {
                                        lemma_front_stays_empty(land, k, n, q);
                                    }
                                }
                            }
                        }
                        return None;
                    }
                    positions = p;
                    proof {
                        level = level + 1;
                    }
                },
                PathfindStage::Complete(v) => {
                    return Some(v);
                },
            }
        }
    }
}

/// The number of steps after one more.
fn level_cost(cost: usize) -> (next: usize)
    requires
        cost < usize::MAX,
    ensures
        next == cost + 1,
{
    cost + 1
}

/// The height that a character of a chart stands for, where it stands
/// for one: the start is as low as `a` and the end as high as `z`, and a
/// small letter is as high as it is far from `a`.
pub open spec fn level_of(c: char) -> Option<u8> {
    if c == 'S' {
        Some(0u8)
    } else if c == 'E' {
        Some(25u8)
    } else if 'a' <= c <= 'z' {
        Some((c as u32 - 'a' as u32) as u8)
    } else {
        None
    }
}

/// Whether every character of a chart stands for a height.
pub open spec fn charted(lines: Seq<Vec<char>>) -> bool {
    forall|y: int, x: int|
        0 <= y < lines.len() && 0 <= x < lines[y]@.len() ==> level_of(#[trigger] lines[y]@[x]) is Some
}

/// Whether `p` is the last place of a chart, line by line, that holds the
/// character `c`.
pub open spec fn last_of(lines: Seq<Vec<char>>, c: char, p: (int, int)) -> bool {
    &&& 0 <= p.1 < lines.len()
    &&& 0 <= p.0 < lines[p.1]@.len()
    &&& lines[p.1]@[p.0] == c
    &&& forall|y: int, x: int|
        0 <= y < lines.len() && 0 <= x < lines[y]@.len() && (y > p.1 || (y == p.1 && x > p.0))
            ==> #[trigger] lines[y]@[x] != c
}

/// Whether a chart holds the character `c`.
pub open spec fn shows(lines: Seq<Vec<char>>, c: char) -> bool {
    exists|y: int, x: int| 0 <= y < lines.len() && 0 <= x < lines[y]@.len() && #[trigger] lines[y]@[x] == c
}

/// What a chart reads as: the squares, the start and the end.
pub struct Chart {
    pub squares: Vec<Vec<Square>>,
    pub start: Position,
    pub end: Position,
}

/// Reads a chart: its squares with their heights, not visited and
/// without cost, and the places of the start and of the end. None where
/// a character stands for no height, the start or the end is missing, or
/// the chart is too large for its places to be counted.
pub fn read_chart(lines: &Vec<Vec<char>>) -> (r: Option<Chart>)
    ensures
        r is Some ==> charted(lines@) && shows(lines@, 'S') && shows(lines@, 'E'),
        charted(lines@) && shows(lines@, 'S') && shows(lines@, 'E') && lines@.len() <= isize::MAX
            && (forall|y: int| 0 <= y < lines@.len() ==> (#[trigger] lines@[y])@.len() <= isize::MAX)
            ==> r is Some,
        r matches Some(land) ==> {
            &&& land.squares@.len() == lines@.len()
            &&& forall|y: int|
                0 <= y < lines@.len() ==> (#[trigger] land.squares@[y])@.len() == lines@[y]@.len()
            &&& forall|y: int, x: int|
                0 <= y < lines@.len() && 0 <= x < lines@[y]@.len() ==> (#[trigger] land.squares@[y]@[x])
                    == (Square { height: level_of(lines@[y]@[x]).unwrap(), visited: false, cost: 0 })
            &&& last_of(lines@, 'S', (land.start.0 as int, land.start.1 as int))
            &&& last_of(lines@, 'E', (land.end.0 as int, land.end.1 as int))
        },
{
    let mut start: Option<Position> = None;
    let mut end: Option<Position> = None;
    let mut squares: Vec<Vec<Square>> = Vec::new();
    if lines.len() > isize::MAX as usize {
        return None;
    }
    let mut cy: usize = 0;
    while cy < lines.len()
        invariant
            cy <= lines@.len(),
            lines@.len() <= isize::MAX,
            squares@.len() == cy,
            forall|y: int| 0 <= y < cy ==> (#[trigger] squares@[y])@.len() == lines@[y]@.len(),
            forall|y: int, x: int|
                0 <= y < cy && 0 <= x < lines@[y]@.len() ==> level_of(#[trigger] lines@[y]@[x]) is Some,
            forall|y: int, x: int|
                0 <= y < cy && 0 <= x < lines@[y]@.len() ==> (#[trigger] squares@[y]@[x]) == (Square {
                    height: level_of(lines@[y]@[x]).unwrap(),
                    visited: false,
                    cost: 0,
                }),
            forall|y: int| 0 <= y < cy ==> (#[trigger] lines@[y])@.len() <= isize::MAX,
            match start {
                Some(p) => last_of(lines@.take(cy as int), 'S', (p.0 as int, p.1 as int)),
                None => !shows(lines@.take(cy as int), 'S'),
            },
            match end {
                Some(p) => last_of(lines@.take(cy as int), 'E', (p.0 as int, p.1 as int)),
                None => !shows(lines@.take(cy as int), 'E'),
            },
        decreases lines@.len() - cy,
    {
        let l = &lines[cy];
        if l.len() > isize::MAX as usize {
            return None;
        }
        let ghost seen = lines@.take(cy as int);
        let ghost upto = lines@.take(cy + 1);
        let mut line: Vec<Square> = Vec::new();
        let mut here_s: Option<usize> = None;
        let mut here_e: Option<usize> = None;
        let mut cx: usize = 0;
        while cx < l.len()
            invariant
                cx <= l@.len(),
                cy < lines@.len(),
                l@ == lines@[cy as int]@,
                l@.len() <= isize::MAX,
                line@.len() == cx,
                forall|x: int| 0 <= x < cx ==> level_of(#[trigger] l@[x]) is Some,
                forall|x: int|
                    0 <= x < cx ==> (#[trigger] line@[x]) == (Square {
                        height: level_of(l@[x]).unwrap(),
                        visited: false,
                        cost: 0,
                    }),
                match here_s {
                    Some(x) => x < cx && l@[x as int] == 'S' && forall|k: int|
                        x < k < cx ==> l@[k] != 'S',
                    None => forall|k: int| 0 <= k < cx ==> l@[k] != 'S',
                },
                match here_e {
                    Some(x) => x < cx && l@[x as int] == 'E' && forall|k: int|
                        x < k < cx ==> l@[k] != 'E',
                    None => forall|k: int| 0 <= k < cx ==> l@[k] != 'E',
                },
            decreases l@.len() - cx,
        {
            let c = l[cx];
            let height: u8 = if c == 'S' {
                here_s = Some(cx);
                0
            } else if c == 'E' {
                here_e = Some(cx);
                25
            } else {
                if c < 'a' || c > 'z' {
                    assert(level_of(lines@[cy as int]@[cx as int]) is None);
                    return None;
                }
                (c as u32 - 'a' as u32) as u8
            };
            line.push(Square { height, cost: 0, visited: false });
            cx += 1;
        }
        proof {
            assert(upto.len() == cy + 1);
            assert(forall|y: int| 0 <= y <= cy ==> upto[y] == lines@[y]);
            assert(forall|y: int| 0 <= y < cy ==> seen[y] == lines@[y]);
        }
        if let Some(x) = here_s {
            start = Some((x as isize, cy as isize));
        } else {
            proof {
                match start {
                    Some(p) => {
                        assert(last_of(upto, 'S', (p.0 as int, p.1 as int)));
                    },
                    None => {
                        if shows(upto, 'S') {
                            let (y, x) = choose|y: int, x: int|
                                0 <= y < upto.len() && 0 <= x < upto[y]@.len() && #[trigger] upto[y]@[x]
                                    == 'S';
                            if y < cy {
                                assert(seen[y]@[x] == 'S');
                                assert(shows(seen, 'S'));
                            }
                            assert(false);
                        }
                    },
                }
            }
        }
        if let Some(x) = here_e {
            end = Some((x as isize, cy as isize));
        } else {
            proof {
                match end {
                    Some(p) => {
                        assert(last_of(upto, 'E', (p.0 as int, p.1 as int)));
                    },
                    None => {
                        if shows(upto, 'E') {
                            let (y, x) = choose|y: int, x: int|
                                0 <= y < upto.len() && 0 <= x < upto[y]@.len() && #[trigger] upto[y]@[x]
                                    == 'E';
                            if y < cy {
                                assert(seen[y]@[x] == 'E');
                                assert(shows(seen, 'E'));
                            }
                            assert(false);
                        }
                    },
                }
            }
        }
        squares.push(line);
        cy += 1;
    }
    proof {
        assert(lines@.take(lines@.len() as int) =~= lines@);
    }
    match (start, end) {
        (Some(s), Some(e)) => {
            proof {
                assert(shows(lines@, 'S')) by {
                    assert(lines@[s.1 as int]@[s.0 as int] == 'S');
                }
                assert(shows(lines@, 'E')) by {
                    assert(lines@[e.1 as int]@[e.0 as int] == 'E');
                }
            }
            Some(Chart { squares, start: s, end: e })
        },
        _ => None,
    }
}

} // verus!
