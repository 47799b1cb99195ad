//! A droplet of small cubes in a box of space, and the space round it that
//! can be reached from outside.

use crate::text::{int_value, nth_part, part, read_int};
use vstd::prelude::*;

verus! {

/// The place of a unit cube.
pub type Cube = (isize, isize, isize);

/// Largest side of a box.
pub const SIDE_MAX: isize = 1024;

/// Margin of the box below the origin.
pub const MARGIN: isize = 2;

/// A unit of space: whether it is part of the droplet, and whether it is
/// known to be reachable from outside.
#[derive(Copy, Clone)]
pub struct Point {
    pub solid: bool,
    pub external: bool,
}

/// A box of space.
pub struct Grid {
    size: isize,
    offset: isize,
    fields: Vec<Point>,
}

/// The six directions to the neighbours of a cube.
pub open spec fn direction(i: int) -> (int, int, int) {
    if i == 0 {
        (-1, 0, 0)
    } else if i == 1 {
        (1, 0, 0)
    } else if i == 2 {
        (0, 0, -1)
    } else if i == 3 {
        (0, 0, 1)
    } else if i == 4 {
        (0, -1, 0)
    } else {
        (0, 1, 0)
    }
}

/// Whether `q` is one of the six neighbours of `p`.
pub open spec fn beside(p: (int, int, int), q: (int, int, int)) -> bool {
    ||| q == (p.0 - 1, p.1, p.2)
    ||| q == (p.0 + 1, p.1, p.2)
    ||| q == (p.0, p.1 - 1, p.2)
    ||| q == (p.0, p.1 + 1, p.2)
    ||| q == (p.0, p.1, p.2 - 1)
    ||| q == (p.0, p.1, p.2 + 1)
}

/// The content of a box: its side and, for each place in it, its unit.
pub struct Space {
    pub size: int,
    pub units: Seq<Point>,
}

impl Space {
    /// The box has a unit for each of its places.
    pub open spec fn wf(self) -> bool {
        0 <= self.size <= SIDE_MAX && self.units.len() == self.size * self.size * self.size
    }

    /// Whether the place lies in the box, which reaches from `-MARGIN` in
    /// each direction.
    pub open spec fn holds(self, p: (int, int, int)) -> bool {
        &&& -MARGIN <= p.0 < self.size - MARGIN
        &&& -MARGIN <= p.1 < self.size - MARGIN
        &&& -MARGIN <= p.2 < self.size - MARGIN
    }

    /// The index of the unit of a place.
    pub open spec fn index(self, p: (int, int, int)) -> int {
        ((p.0 + MARGIN) * self.size + (p.1 + MARGIN)) * self.size + (p.2 + MARGIN)
    }

    /// The unit at a place.
    pub open spec fn unit(self, p: (int, int, int)) -> Point {
        self.units[self.index(p)]
    }

    /// Whether the place lies in the box and is not part of the droplet.
    pub open spec fn open(self, p: (int, int, int)) -> bool {
        self.holds(p) && !self.unit(p).solid
    }

    /// Whether `p` can be reached from `start` in at most `n` steps, each
    /// to a neighbour that lies in the box and is not part of the droplet.
    pub open spec fn reach(self, start: (int, int, int), n: nat, p: (int, int, int)) -> bool
        decreases n,
    {
        if n == 0 {
            p == start
        } else {
            let m = (n - 1) as nat;
            self.reach(start, m, p) || (self.open(p) && (self.reach(start, m, (p.0 - 1, p.1, p.2))
                || self.reach(start, m, (p.0 + 1, p.1, p.2)) || self.reach(
                start,
                m,
                (p.0, p.1 - 1, p.2),
            ) || self.reach(start, m, (p.0, p.1 + 1, p.2)) || self.reach(
                start,
                m,
                (p.0, p.1, p.2 - 1),
            ) || self.reach(start, m, (p.0, p.1, p.2 + 1))))
        }
    }

    /// Whether `p` can be reached from `start`.
    pub open spec fn reachable(self, start: (int, int, int), p: (int, int, int)) -> bool {
        exists|n: nat| self.reach(start, n, p)
    }

    /// How many of the first `n` units are marked as external.
    pub open spec fn marked(self, n: nat) -> nat
        decreases n,
    {
        if n == 0 {
            0
        } else {
            self.marked((n - 1) as nat) + (if self.units[n - 1].external {
                1nat
            } else {
                0nat
            })
        }
    }
}

/// The index of a place in the box is an index of its units, and places
/// that differ have indices that differ.
pub proof fn lemma_index(s: Space, p: (int, int, int))
    requires
        s.wf(),
        s.holds(p),
    ensures
        0 <= s.index(p) < s.units.len(),
{
    let a = p.0 + MARGIN;
    let b = p.1 + MARGIN;
    let c = p.2 + MARGIN;
    let n = s.size;
    assert(0 <= (a * n + b) * n + c < n * n * n) by (nonlinear_arith)
        requires
            0 <= a < n,
            0 <= b < n,
            0 <= c < n,
    ;
}

/// Places of the box that differ have indices that differ.
pub proof fn lemma_index_apart(s: Space, p: (int, int, int), q: (int, int, int))
    requires
        s.wf(),
        s.holds(p),
        s.holds(q),
        s.index(p) == s.index(q),
    ensures
        p == q,
{
    let n = s.size;
    let a = p.0 + MARGIN;
    let b = p.1 + MARGIN;
    let c = p.2 + MARGIN;
    let d = q.0 + MARGIN;
    let e = q.1 + MARGIN;
    let f = q.2 + MARGIN;
    vstd::arithmetic::div_mod::lemma_fundamental_div_mod_converse(s.index(p), n, a * n + b, c);
    vstd::arithmetic::div_mod::lemma_fundamental_div_mod_converse(s.index(q), n, d * n + e, f);
    vstd::arithmetic::div_mod::lemma_fundamental_div_mod_converse(a * n + b, n, a, b);
    vstd::arithmetic::div_mod::lemma_fundamental_div_mod_converse(d * n + e, n, d, e);
}

/// Marking a unit that was not marked raises the count of marked units by
/// one.
pub proof fn lemma_mark(s: Space, t: Space, at: int, n: nat)
    requires
        0 <= at < s.units.len(),
        n <= s.units.len(),
        !s.units[at].external,
        t.units == s.units.update(at, Point { external: true, ..s.units[at] }),
    ensures
        t.marked(n) == s.marked(n) + (if at < n {
            1nat
        } else {
            0nat
        }),
    decreases n,
{
    if n > 0 {
        lemma_mark(s, t, at, (n - 1) as nat);
    }
}

/// No more units are marked than there are.
pub proof fn lemma_marked_bound(s: Space, n: nat)
    requires
        n <= s.units.len(),
    ensures
        s.marked(n) <= n,
    decreases n,
{
    if n > 0 {
        lemma_marked_bound(s, (n - 1) as nat);
    }
}

/// What is reached in fewer steps is reached in more.
pub proof fn lemma_reach_grows(s: Space, start: (int, int, int), k: nat, n: nat, p: (int, int, int))
    requires
        k <= n,
        s.reach(start, k, p),
    ensures
        s.reach(start, n, p),
    decreases n - k,
{
    if k < n {
        lemma_reach_grows(s, start, k, (n - 1) as nat, p);
    }
}

/// A step from what is reached in `k` steps reaches in `k + 1`.
pub proof fn lemma_reach_step(
    s: Space,
    start: (int, int, int),
    k: nat,
    q: (int, int, int),
    p: (int, int, int),
)
    requires
        s.reach(start, k, q),
        beside(q, p),
        s.open(p),
    ensures
        s.reach(start, k + 1, p),
{
    assert(((k + 1) - 1) as nat == k);
}

/// Where a further step reaches nothing new, no number of steps does.
pub proof fn lemma_reach_settled(s: Space, start: (int, int, int), k: nat, n: nat, p: (int, int, int))
    requires
        forall|q: (int, int, int)| s.reach(start, k + 1, q) ==> s.reach(start, k, q),
        s.reach(start, n, p),
    ensures
        s.reach(start, k, p),
    decreases n,
{
    if n > k {
        if !s.reach(start, (n - 1) as nat, p) {
            let m = (n - 1) as nat;
            let q = if s.reach(start, m, (p.0 - 1, p.1, p.2)) {
                (p.0 - 1, p.1, p.2)
            } else if s.reach(start, m, (p.0 + 1, p.1, p.2)) {
                (p.0 + 1, p.1, p.2)
            } else if s.reach(start, m, (p.0, p.1 - 1, p.2)) {
                (p.0, p.1 - 1, p.2)
            } else if s.reach(start, m, (p.0, p.1 + 1, p.2)) {
                (p.0, p.1 + 1, p.2)
            } else if s.reach(start, m, (p.0, p.1, p.2 - 1)) {
                (p.0, p.1, p.2 - 1)
            } else {
                (p.0, p.1, p.2 + 1)
            };
            assert(s.reach(start, m, q));
            lemma_reach_settled(s, start, k, m, q);
            lemma_reach_step(s, start, k, q, p);
        } else {
            lemma_reach_settled(s, start, k, (n - 1) as nat, p);
        }
    } else {
        lemma_reach_grows(s, start, n, k, p);
    }
}

impl View for Grid {
    type V = Space;

    closed spec fn view(&self) -> Space {
        Space { size: self.size as int, units: self.fields@ }
    }
}

/// The place as integers.
pub open spec fn place(p: Cube) -> (int, int, int) {
    (p.0 as int, p.1 as int, p.2 as int)
}

impl Grid {
    /// The box is well-formed and its margin is `MARGIN`.
    pub closed spec fn wf(&self) -> bool {
        self@.wf() && self.offset == MARGIN
    }

    /// An empty box of the given side.
    pub fn new(size: isize) -> (g: Grid)
        requires
            0 <= size <= SIDE_MAX,
        ensures
            g.wf(),
            g@.size == size,
            forall|i: int| 0 <= i < g@.units.len() ==> !(#[trigger] g@.units[i]).solid && !g@.units[i].external,
    {
        assert(size * size * size <= SIDE_MAX * SIDE_MAX * SIDE_MAX && 0 <= size * size <= SIDE_MAX
            * SIDE_MAX && 0 <= size * size * size) by (nonlinear_arith)
            requires
                0 <= size <= SIDE_MAX,
        ;
        let count = (size * size * size) as usize;
        let mut fields: Vec<Point> = Vec::new();
        while fields.len() < count
            invariant
                fields@.len() <= count,
                forall|i: int| 0 <= i < fields@.len() ==> !(#[trigger] fields@[i]).solid && !fields@[i].external,
            decreases count - fields@.len(),
        {
            fields.push(Point { solid: false, external: false });
        }
        Grid { fields, offset: 2, size }
    }

    /// The index of the unit at a place, or `None` for a place outside
    /// the box.
    pub fn locate(&self, point: Cube) -> (r: Option<usize>)
        requires
            self.wf(),
        ensures
            r is Some == self@.holds(place(point)),
            r matches Some(i) ==> i == self@.index(place(point)) && i < self@.units.len(),
    {
        if point.0 < -self.offset || point.0 >= self.size - self.offset || point.1 < -self.offset
            || point.1 >= self.size - self.offset || point.2 < -self.offset || point.2 >= self.size
            - self.offset {
            return None;
        }
        proof {
            lemma_index(self@, place(point));
            let a = point.0 + MARGIN;
            let b = point.1 + MARGIN;
            let n = self.size as int;
            assert(0 <= a * n + b < n * n && 0 <= a * n < n * n && n * n <= SIDE_MAX * SIDE_MAX && 0
                <= (a * n + b) * n < n * n * n && n * n * n <= SIDE_MAX * SIDE_MAX * SIDE_MAX)
                by (nonlinear_arith)
                requires
                    0 <= a < n,
                    0 <= b < n,
                    n <= SIDE_MAX,
            ;
        }
        Some(
            (((point.0 + self.offset) * self.size + (point.1 + self.offset)) * self.size + (point.2
                + self.offset)) as usize,
        )
    }

    /// The unit at a place, or `None` for a place outside the box.
    pub fn get(&self, point: Cube) -> (r: Option<Point>)
        requires
            self.wf(),
        ensures
            r == (if self@.holds(place(point)) {
                Some(self@.unit(place(point)))
            } else {
                None
            }),
    {
        match self.locate(point) {
            Some(i) => Some(self.fields[i]),
            None => None,
        }
    }

    /// Makes the unit at a place part of the droplet. Returns `false`, and
    /// changes nothing, for a place outside the box.
    pub fn fill(&mut self, point: Cube) -> (done: bool)
        requires
            old(self).wf(),
        ensures
            final(self).wf(),
            final(self)@.size == old(self)@.size,
            done == old(self)@.holds(place(point)),
            done ==> final(self)@.units == old(self)@.units.update(
                old(self)@.index(place(point)),
                Point { solid: true, ..old(self)@.unit(place(point)) },
            ),
            !done ==> final(self)@ == old(self)@,
    {
        match self.locate(point) {
            Some(i) => {
                let unit = self.fields[i];
                self.fields[i] = Point { solid: true, external: unit.external };
                true
            },
            None => false,
        }
    }
}

/// The neighbour of `p` in direction number `i`.
pub fn neighbour(p: Cube, i: usize) -> (q: Cube)
    requires
        i < 6,
        -SIDE_MAX <= p.0 <= SIDE_MAX,
        -SIDE_MAX <= p.1 <= SIDE_MAX,
        -SIDE_MAX <= p.2 <= SIDE_MAX,
    ensures
        place(q) == (
            p.0 + direction(i as int).0,
            p.1 + direction(i as int).1,
            p.2 + direction(i as int).2,
        ),
{
    if i == 0 {
        (p.0 - 1, p.1, p.2)
    } else if i == 1 {
        (p.0 + 1, p.1, p.2)
    } else if i == 2 {
        (p.0, p.1, p.2 - 1)
    } else if i == 3 {
        (p.0, p.1, p.2 + 1)
    } else if i == 4 {
        (p.0, p.1 - 1, p.2)
    } else {
        (p.0, p.1 + 1, p.2)
    }
}

/// The place one step from `p` in direction number `d`.
pub open spec fn step(p: (int, int, int), d: int) -> (int, int, int) {
    (p.0 + direction(d).0, p.1 + direction(d).1, p.2 + direction(d).2)
}

/// Whether `q` is a neighbour of one of the first `a` points, or the
/// neighbour of point number `a` in one of the first `i` directions.
pub open spec fn touched(points: Seq<Cube>, a: int, i: int, q: (int, int, int)) -> bool {
    (exists|k: int| 0 <= k < a && beside(place(#[trigger] points[k]), q)) || (exists|d: int|
        0 <= d < i && q == #[trigger] step(place(points[a]), d))
}

/// The neighbours of a place are the places one step from it.
pub proof fn lemma_beside(p: (int, int, int), q: (int, int, int))
    ensures
        beside(p, q) == (exists|d: int| 0 <= d < 6 && q == #[trigger] step(p, d)),
        beside(p, q) == beside(q, p),
{
    if beside(p, q) {
        let d: int = if q == (p.0 - 1, p.1, p.2) {
            0
        } else if q == (p.0 + 1, p.1, p.2) {
            1
        } else if q == (p.0, p.1, p.2 - 1) {
            2
        } else if q == (p.0, p.1, p.2 + 1) {
            3
        } else if q == (p.0, p.1 - 1, p.2) {
            4
        } else {
            5
        };
        assert(q == step(p, d));
    }
}

/// What is reached lies in the box.
pub proof fn lemma_reach_holds(s: Space, start: (int, int, int), n: nat, p: (int, int, int))
    requires
        s.holds(start),
        s.reach(start, n, p),
    ensures
        s.holds(p),
    decreases n,
{
    if n > 0 && s.reach(start, (n - 1) as nat, p) {
        lemma_reach_holds(s, start, (n - 1) as nat, p);
    }
}

/// Marks every place that can be reached from `p` along places that lie in
/// the box and are not part of the droplet, `p` itself included.
pub fn flood_fill_external(grid: &mut Grid, p: Cube)
    requires
        old(grid).wf(),
        old(grid)@.holds(place(p)),
        forall|i: int| 0 <= i < old(grid)@.units.len() ==> !(#[trigger] old(grid)@.units[i]).external,
    ensures
        final(grid).wf(),
        final(grid)@.size == old(grid)@.size,
        forall|i: int|
            0 <= i < old(grid)@.units.len() ==> (#[trigger] final(grid)@.units[i]).solid == old(
                grid,
            )@.units[i].solid,
        forall|q: (int, int, int)|
            old(grid)@.holds(q) ==> #[trigger] final(grid)@.unit(q).external == old(grid)@.reachable(
                place(p),
                q,
            ),
{
    let ghost s0 = grid@;
    let ghost start = place(p);
    let total = grid.fields.len();
    let mut points: Vec<Cube> = Vec::new();
    points.push(p);
    let first = match grid.locate(p) {
        Some(i) => i,
        None => {
            return ;
        },
    };
    let unit = grid.fields[first];
    grid.fields[first] = Point { solid: unit.solid, external: true };
    let ghost mut level: nat = 0;
    let ghost mut count: nat = 1;
    proof {
        lemma_mark(s0, grid@, first as int, total as nat);
        assert(s0.marked(total as nat) == 0) by {
            lemma_none_marked(s0, total as nat);
        }
        assert forall|q: (int, int, int)| s0.holds(q) implies #[trigger] grid@.unit(q).external
            == s0.reach(start, 0, q) by {
            lemma_index(s0, q);
            if q != start {
                if s0.index(q) == s0.index(start) {
                    lemma_index_apart(s0, q, start);
                }
            }
        }
    }
    assert(place(points@[0]) == start);
    loop
        invariant
            s0 == old(grid)@,
            start == place(p),
            s0.wf(),
            s0.holds(start),
            grid.wf(),
            grid@.size == s0.size,
            total == s0.units.len(),
            grid@.units.len() == total,
            forall|i: int| 0 <= i < total ==> (#[trigger] grid@.units[i]).solid == s0.units[i].solid,
            forall|q: (int, int, int)|
                s0.holds(q) ==> #[trigger] grid@.unit(q).external == s0.reach(start, level, q),
            forall|k: int|
                0 <= k < points@.len() ==> s0.holds(place(#[trigger] points@[k])) && s0.reach(
                    start,
                    level,
                    place(points@[k]),
                ),
            forall|q: (int, int, int)|
                s0.reach(start, level, q) && (level == 0 || !s0.reach(start, (level - 1) as nat, q))
                    ==> exists|k: int| 0 <= k < points@.len() && place(#[trigger] points@[k]) == q,
            count == grid@.marked(total as nat),
        ensures
            grid.wf(),
            grid@.size == s0.size,
            forall|i: int| 0 <= i < total ==> (#[trigger] grid@.units[i]).solid == s0.units[i].solid,
            forall|q: (int, int, int)|
                s0.holds(q) ==> #[trigger] grid@.unit(q).external == s0.reachable(start, q),
        decreases total - count,
    {
        let mut next: Vec<Cube> = Vec::new();
        let ghost before = count;
        let mut a: usize = 0;
        while a < points.len()
            invariant
                s0.wf(),
                s0.holds(start),
                grid.wf(),
                grid@.size == s0.size,
                total == s0.units.len(),
                grid@.units.len() == total,
                a <= points@.len(),
                forall|i: int| 0 <= i < total ==> (#[trigger] grid@.units[i]).solid == s0.units[i].solid,
                forall|k: int|
                    0 <= k < points@.len() ==> s0.holds(place(#[trigger] points@[k])) && s0.reach(
                        start,
                        level,
                        place(points@[k]),
                    ),
                forall|q: (int, int, int)|
                    s0.holds(q) ==> #[trigger] grid@.unit(q).external == (s0.reach(start, level, q) || (
                    s0.open(q) && touched(points@, a as int, 0, q))),
                forall|j: int|
                    0 <= j < next@.len() ==> s0.holds(place(#[trigger] next@[j])) && s0.reach(
                        start,
                        level + 1,
                        place(next@[j]),
                    ),
                forall|q: (int, int, int)|
                    s0.holds(q) && #[trigger] grid@.unit(q).external && !s0.reach(start, level, q)
                        ==> exists|j: int| 0 <= j < next@.len() && place(#[trigger] next@[j]) == q,
                count == grid@.marked(total as nat),
                count == before + next@.len(),
            decreases points@.len() - a,
        {
            let point = points[a];
            let mut i: usize = 0;
            while i < 6
                invariant
                    s0.wf(),
                    s0.holds(start),
                    grid.wf(),
                    grid@.size == s0.size,
                    total == s0.units.len(),
                    grid@.units.len() == total,
                    a < points@.len(),
                    point == points@[a as int],
                    i <= 6,
                    forall|i: int|
                        0 <= i < total ==> (#[trigger] grid@.units[i]).solid == s0.units[i].solid,
                    forall|k: int|
                        0 <= k < points@.len() ==> s0.holds(place(#[trigger] points@[k])) && s0.reach(
                            start,
                            level,
                            place(points@[k]),
                        ),
                    forall|q: (int, int, int)|
                        s0.holds(q) ==> #[trigger] grid@.unit(q).external == (s0.reach(start, level, q)
                            || (s0.open(q) && touched(points@, a as int, i as int, q))),
                    forall|j: int|
                        0 <= j < next@.len() ==> s0.holds(place(#[trigger] next@[j])) && s0.reach(
                            start,
                            level + 1,
                            place(next@[j]),
                        ),
                    forall|q: (int, int, int)|
                        s0.holds(q) && #[trigger] grid@.unit(q).external && !s0.reach(start, level, q)
                            ==> exists|j: int| 0 <= j < next@.len() && place(#[trigger] next@[j]) == q,
                    count == grid@.marked(total as nat),
                    count == before + next@.len(),
                decreases 6 - i,
            {
                assert(s0.holds(place(points@[a as int])));
                let np = neighbour(point, i);
                let ghost was = grid@;
                let ghost old_next = next@;
                let mut marked_now = false;
                match grid.locate(np) {
                    Some(idx) => {
                        let cube = grid.fields[idx];
                        if !(cube.solid || cube.external) {
                            grid.fields[idx] = Point { solid: cube.solid, external: true };
                            next.push(np);
                            marked_now = true;
                            proof {
                                lemma_mark(was, grid@, idx as int, total as nat);
                                count = count + 1;
                                lemma_beside(place(point), place(np));
                                lemma_reach_step(s0, start, level, place(point), place(np));
                            }
                        }
                    },
                    None => {},
                }
                proof {
                    let target = place(np);
                    assert(target == step(place(point), i as int));
                    assert forall|q: (int, int, int)| s0.holds(q) implies #[trigger] grid@.unit(
                        q,
                    ).external == (s0.reach(start, level, q) || (s0.open(q) && touched(
                        points@,
                        a as int,
                        i + 1,
                        q,
                    ))) by {
                        lemma_index(s0, q);
                        if q == target {
                            assert(touched(points@, a as int, i + 1, q));
                        } else {
                            if s0.holds(target) && s0.index(q) == s0.index(target) {
                                lemma_index_apart(s0, q, target);
                            }
                            assert(grid@.unit(q) == was.unit(q));
                            if touched(points@, a as int, i + 1, q) && !touched(points@, a as int, i as int, q) {
                                let d = choose|d: int|
                                    0 <= d < i + 1 && q == #[trigger] step(place(points@[a as int]), d);
                                assert(d < i);
                            }
                        }
                    }
                    assert forall|q: (int, int, int)|
                        s0.holds(q) && #[trigger] grid@.unit(q).external && !s0.reach(
                            start,
                            level,
                            q,
                        ) implies exists|j: int|
                        0 <= j < next@.len() && place(#[trigger] next@[j]) == q by {
                        lemma_index(s0, q);
                        if q == target {
                            if marked_now {
                                assert(place(next@[old_next.len() as int]) == q);
                            } else {
                                assert(was.unit(q).external);
                                let j = choose|j: int|
                                    0 <= j < old_next.len() && place(#[trigger] old_next[j]) == q;
                                assert(next@[j] == old_next[j]);
                            }
                        } else {
                            if s0.holds(target) && s0.index(q) == s0.index(target) {
                                lemma_index_apart(s0, q, target);
                            }
                            assert(grid@.unit(q) == was.unit(q));
                            let j = choose|j: int|
                                0 <= j < old_next.len() && place(#[trigger] old_next[j]) == q;
                            assert(next@[j] == old_next[j]);
                        }
                    }
                    assert forall|j: int| 0 <= j < next@.len() implies s0.holds(
                        place(#[trigger] next@[j]),
                    ) && s0.reach(start, level + 1, place(next@[j])) by {
                        if j < old_next.len() {
                            assert(next@[j] == old_next[j]);
                        }
                    }
                }
                i += 1;
            }
            proof {
                assert forall|q: (int, int, int)| s0.holds(q) implies (touched(
                    points@,
                    a as int,
                    6,
                    q,
                ) == touched(points@, a + 1, 0, q)) by {
                    lemma_beside(place(points@[a as int]), q);
                    if touched(points@, a + 1, 0, q) {
                        let k = choose|k: int| 0 <= k < a + 1 && beside(place(#[trigger] points@[k]), q);
                        if k == a {
                            let d = choose|d: int|
                                0 <= d < 6 && q == #[trigger] step(place(points@[a as int]), d);
                            assert(touched(points@, a as int, 6, q));
                        } else {
                            assert(touched(points@, a as int, 6, q));
                        }
                    }
                    if touched(points@, a as int, 6, q) {
                        if exists|k: int| 0 <= k < a && beside(place(#[trigger] points@[k]), q) {
                            let k = choose|k: int| 0 <= k < a && beside(place(#[trigger] points@[k]), q);
                            assert(0 <= k < a + 1);
                        } else {
                            assert(beside(place(points@[a as int]), q));
                        }
                    }
                }
            }
            a += 1;
        }
        proof {
            // every unit now tells whether its place is reached in one step more
            assert forall|q: (int, int, int)| s0.holds(q) implies #[trigger] grid@.unit(q).external
                == s0.reach(start, level + 1, q) by {
                let full = points@.len() as int;
                if s0.open(q) && touched(points@, full, 0, q) {
                    let k = choose|k: int| 0 <= k < full && beside(place(#[trigger] points@[k]), q);
                    lemma_reach_step(s0, start, level, place(points@[k]), q);
                }
                if s0.reach(start, level, q) {
                    lemma_reach_grows(s0, start, level, level + 1, q);
                }
                if s0.reach(start, level + 1, q) && !s0.reach(start, level, q) {
                    let r = if s0.reach(start, level, (q.0 - 1, q.1, q.2)) {
                        (q.0 - 1, q.1, q.2)
                    } else if s0.reach(start, level, (q.0 + 1, q.1, q.2)) {
                        (q.0 + 1, q.1, q.2)
                    } else if s0.reach(start, level, (q.0, q.1 - 1, q.2)) {
                        (q.0, q.1 - 1, q.2)
                    } else if s0.reach(start, level, (q.0, q.1 + 1, q.2)) {
                        (q.0, q.1 + 1, q.2)
                    } else if s0.reach(start, level, (q.0, q.1, q.2 - 1)) {
                        (q.0, q.1, q.2 - 1)
                    } else {
                        (q.0, q.1, q.2 + 1)
                    };
                    assert(s0.reach(start, level, r));
                    assert(beside(r, q));
                    if level > 0 && s0.reach(start, (level - 1) as nat, r) {
                        lemma_reach_step(s0, start, (level - 1) as nat, r, q);
                    }
                    let k = choose|k: int| 0 <= k < points@.len() && place(#[trigger] points@[k]) == r;
                    assert(beside(place(points@[k]), q));
                    assert(touched(points@, full, 0, q));
                }
            }
            lemma_marked_bound(grid@, total as nat);
        }
        if next.len() == 0 {
            proof {
                assert forall|q: (int, int, int)| s0.reach(start, level + 1, q) implies s0.reach(
                    start,
                    level,
                    q,
                ) by {
                    if !s0.reach(start, level, q) {
                        lemma_reach_holds(s0, start, level + 1, q);
                        assert(grid@.unit(q).external);
                    }
                }
                assert forall|q: (int, int, int)| s0.holds(q) implies #[trigger] grid@.unit(
                    q,
                ).external == s0.reachable(start, q) by {
                    if s0.reachable(start, q) {
                        let n = choose|n: nat| s0.reach(start, n, q);
                        lemma_reach_settled(s0, start, level, n, q);
                        lemma_reach_grows(s0, start, level, level + 1, q);
                    }
                }
            }
            return ;
        }
        proof {
            assert forall|q: (int, int, int)|
                s0.reach(start, level + 1, q) && !s0.reach(start, level, q) implies exists|k: int|
                0 <= k < next@.len() && place(#[trigger] next@[k]) == q by {
                lemma_reach_holds(s0, start, level + 1, q);
                assert(grid@.unit(q).external);
            }
            level = level + 1;
        }
        points = next;
    }
}

impl Space {
    /// One where the neighbour of `p` in direction `d` is not part of the
    /// droplet and, if `outside` is asked for, is marked as external;
    /// zero otherwise.
    pub open spec fn side(self, p: (int, int, int), d: int, outside: bool) -> nat {
        let unit = self.unit(step(p, d));
        if !unit.solid && (!outside || unit.external) {
            1
        } else {
            0
        }
    }

    /// How many of the six sides of the cube at `p` count.
    pub open spec fn sides(self, p: (int, int, int), outside: bool) -> nat {
        self.side(p, 0, outside) + self.side(p, 1, outside) + self.side(p, 2, outside) + self.side(
            p,
            3,
            outside,
        ) + self.side(p, 4, outside) + self.side(p, 5, outside)
    }

    /// How many sides of the first `n` cubes count.
    pub open spec fn surface(self, cubes: Seq<Cube>, n: nat, outside: bool) -> nat
        decreases n,
    {
        if n == 0 {
            0
        } else {
            self.surface(cubes, (n - 1) as nat, outside) + self.sides(place(cubes[n - 1]), outside)
        }
    }

    /// Every neighbour of each of the cubes lies in the box.
    pub open spec fn surrounds(self, cubes: Seq<Cube>) -> bool {
        forall|k: int, d: int|
            0 <= k < cubes.len() && 0 <= d < 6 ==> self.holds(#[trigger] step(place(cubes[k]), d))
    }
}

/// Counts the sides of the cubes that are not covered by the droplet, and
/// those of them that are marked as external. Returns `None` where a
/// neighbour of a cube lies outside the box.
pub fn count_surfaces(grid: &Grid, cubes: &Vec<Cube>) -> (r: Option<(u64, u64)>)
    requires
        grid.wf(),
        cubes@.len() <= 0xffff_ffff,
    ensures
        r is Some == grid@.surrounds(cubes@),
        r matches Some((all, outer)) ==> all == grid@.surface(cubes@, cubes@.len(), false) && outer
            == grid@.surface(cubes@, cubes@.len(), true),
{
    let mut surface: u64 = 0;
    let mut surface_external: u64 = 0;
    let mut k: usize = 0;
    while k < cubes.len()
        invariant
            grid.wf(),
            k <= cubes@.len() <= 0xffff_ffff,
            surface == grid@.surface(cubes@, k as nat, false),
            surface_external == grid@.surface(cubes@, k as nat, true),
            surface <= 6 * k,
            surface_external <= 6 * k,
            forall|j: int, d: int|
                0 <= j < k && 0 <= d < 6 ==> grid@.holds(#[trigger] step(place(cubes@[j]), d)),
        decreases cubes@.len() - k,
    {
        let p = cubes[k];
        if p.0 < -1024 || p.0 > 1024 || p.1 < -1024 || p.1 > 1024 || p.2 < -1024 || p.2 > 1024 {
            proof {
                grid.lemma_small();
                assert(!grid@.holds(step(place(cubes@[k as int]), 0)) || !grid@.holds(
                    step(place(cubes@[k as int]), 1),
                ));
            }
            return None;
        }
        let mut here: u64 = 0;
        let mut here_external: u64 = 0;
        let mut d: usize = 0;
        while d < 6
            invariant
                grid.wf(),
                d <= 6,
                k < cubes@.len(),
                p == cubes@[k as int],
                -1024 <= p.0 <= 1024,
                -1024 <= p.1 <= 1024,
                -1024 <= p.2 <= 1024,
                here <= d,
                here_external <= d,
                forall|e: int| 0 <= e < d ==> grid@.holds(#[trigger] step(place(p), e)),
                here == (if d > 0 { grid@.side(place(p), 0, false) } else { 0 }) + (if d > 1 { grid@.side(place(p), 1, false) } else { 0 }) + (if d > 2 { grid@.side(place(p), 2, false) } else { 0 }) + (if d > 3 { grid@.side(place(p), 3, false) } else { 0 }) + (if d > 4 { grid@.side(place(p), 4, false) } else { 0 }) + (if d > 5 { grid@.side(place(p), 5, false) } else { 0 }),
                here_external == (if d > 0 { grid@.side(place(p), 0, true) } else { 0 }) + (if d > 1 { grid@.side(place(p), 1, true) } else { 0 }) + (if d > 2 { grid@.side(place(p), 2, true) } else { 0 }) + (if d > 3 { grid@.side(place(p), 3, true) } else { 0 }) + (if d > 4 { grid@.side(place(p), 4, true) } else { 0 }) + (if d > 5 { grid@.side(place(p), 5, true) } else { 0 }),
            decreases 6 - d,
        {
            let np = neighbour(p, d);
            assert(place(np) == step(place(p), d as int));
            match grid.get(np) {
                Some(cube) => {
                    if !cube.solid {
                        here += 1;
                        if cube.external {
                            here_external += 1;
                        }
                    }
                },
                None => {
                    return None;
                },
            }
            d += 1;
        }
        surface = surface + here;
        surface_external = surface_external + here_external;
        k += 1;
    }
    Some((surface, surface_external))
}

impl Grid {
    /// The box is no larger than the largest box.
    pub proof fn lemma_small(&self)
        requires
            self.wf(),
        ensures
            0 <= self@.size <= SIDE_MAX,
    {
    }
}

/// Where no unit is marked, the count of marked units is zero.
pub proof fn lemma_none_marked(s: Space, n: nat)
    requires
        n <= s.units.len(),
        forall|i: int| 0 <= i < s.units.len() ==> !(#[trigger] s.units[i]).external,
    ensures
        s.marked(n) == 0,
    decreases n,
{
    if n > 0 {
        lemma_none_marked(s, (n - 1) as nat);
    }
}

/// The point that a line writes: three numbers with commas between
/// them. What follows a third comma is passed over.
pub open spec fn point_of(line: Seq<char>) -> Option<(int, int, int)> {
    match (part(line, ',', 0), part(line, ',', 1), part(line, ',', 2)) {
        (Some(a), Some(b), Some(c)) => match (int_value(a), int_value(b), int_value(c)) {
            (Some(x), Some(y), Some(z)) => Some((x, y, z)),
            _ => None,
        },
        _ => None,
    }
}

/// Reads a point.
pub fn read_point(line: &Vec<char>) -> (r: Option<(isize, isize, isize)>)
    ensures
        match point_of(line@) {
            Some(p) => r == Some((p.0 as isize, p.1 as isize, p.2 as isize)),
            None => r is None,
        },
{
    let a = match nth_part(line, ',', 0) {
        Some(a) => a,
        None => {
            return None;
        },
    };
    let b = match nth_part(line, ',', 1) {
        Some(b) => b,
        None => {
            return None;
        },
    };
    let c = match nth_part(line, ',', 2) {
        Some(c) => c,
        None => {
            return None;
        },
    };
    assert(a@.skip(0) =~= a@ && b@.skip(0) =~= b@ && c@.skip(0) =~= c@);
    match (read_int(&a, 0), read_int(&b, 0), read_int(&c, 0)) {
        (Some(x), Some(y), Some(z)) => Some((x, y, z)),
        _ => None,
    }
}

} // verus!
