//! A walled valley that blizzards cross on fixed tracks, and the spread of
//! the places a traveller can have reached.

use vstd::prelude::*;
use crate::bit_grid::{cell, lemma_snapshot_bit, BitGrid, BitView};
use crate::views::{AndNot, Or, Prim, Shifted, ShiftedWrap, Window};

verus! {

/// Whether `(x, y)` lies inside the walls of a valley of the given extent.
pub open spec fn inside(width: int, height: int, x: int, y: int) -> bool {
    1 <= x <= width - 2 && 1 <= y <= height - 2
}

/// Whether a blizzard of `start` stands at `(x, y)` after each has moved by
/// `(dx, dy)` inside the walls, leaving at one side and entering at the
/// other.
pub open spec fn blizzard_at(start: &BitGrid, dx: int, dy: int, x: int, y: int) -> bool {
    let width = start@.width as int;
    let height = start@.height as int;
    inside(width, height, x, y) && start@.bit(
        1 + (x - 1 - dx) % (width - 2),
        1 + (y - 1 - dy) % (height - 2),
    )
}

/// Where the blizzards of `start` stand after each has moved by `(dx, dy)`
/// inside the walls.
pub fn moved(start: &BitGrid, dx: isize, dy: isize) -> (r: BitGrid)
    requires
        start.wf(),
        start@.width >= 2,
        start@.height >= 2,
    ensures
        r.wf(),
        r@.width == start@.width,
        r@.height == start@.height,
        forall|x: int, y: int|
            0 <= x < r@.width && 0 <= y < r@.height ==> r@.bit(x, y) == blizzard_at(start, dx as int, dy as int, x, y),
{
    proof {
        start.lemma_view_is_wf();
    }
    let width = start.width() as isize;
    let height = start.height() as isize;
    let w = Window::new(start, 1, 1, width - 2, height - 2);
    let s = ShiftedWrap::new(&w, dx, dy);
    let nw = Window::new(&s, 0, 0, width, height);
    let out = Shifted::new(&nw, 1, 1);
    let r = BitGrid::from_view(&out);
    proof {
        assert forall|x: int, y: int| 0 <= x < r@.width && 0 <= y < r@.height implies r@.bit(x, y)
            == blizzard_at(start, dx as int, dy as int, x, y) by {
            lemma_snapshot_bit(&out, x, y);
            out.lemma_raw_cell(x, y);
            nw.lemma_raw_cell(x - 1, y - 1);
            s.lemma_raw_cell(x - 1, y - 1);
            if inside(width as int, height as int, x, y) {
                let sx = (x - 1 - dx) % (width - 2);
                let sy = (y - 1 - dy) % (height - 2);
                vstd::arithmetic::div_mod::lemma_mod_bound(x - 1 - dx, width - 2);
                vstd::arithmetic::div_mod::lemma_mod_bound(y - 1 - dy, height - 2);
                w.lemma_raw_cell(sx, sy);
                start.lemma_raw_cell(sx + 1, sy + 1);
            }
        }
    }
    r
}

/// A valley: its walls and, for each of the four directions, the blizzards
/// that move that way, as they stand at time zero.
pub struct Valley {
    pub wall: BitGrid,
    pub north: BitGrid,
    pub south: BitGrid,
    pub east: BitGrid,
    pub west: BitGrid,
}

impl Valley {
    /// The five grids are valid and have one extent, which leaves room
    /// for walls.
    pub open spec fn wf(&self) -> bool {
        &&& self.wall.wf()
        &&& self.north.wf()
        &&& self.south.wf()
        &&& self.east.wf()
        &&& self.west.wf()
        &&& self.wall@.width >= 2
        &&& self.wall@.height >= 2
        &&& self.north@.width == self.wall@.width
        &&& self.south@.width == self.wall@.width
        &&& self.east@.width == self.wall@.width
        &&& self.west@.width == self.wall@.width
        &&& self.north@.height == self.wall@.height
        &&& self.south@.height == self.wall@.height
        &&& self.east@.height == self.wall@.height
        &&& self.west@.height == self.wall@.height
    }

    /// Width of the valley, walls included.
    pub open spec fn cols(&self) -> int {
        self.wall@.width as int
    }

    /// Height of the valley, walls included.
    pub open spec fn rows(&self) -> int {
        self.wall@.height as int
    }

    /// Whether the place `(x, y)` is taken at time `t`, by a wall or by a
    /// blizzard.
    pub open spec fn taken(&self, t: int, x: int, y: int) -> bool {
        ||| self.wall@.bit(x, y)
        ||| blizzard_at(&self.north, 0, -t, x, y)
        ||| blizzard_at(&self.south, 0, t, x, y)
        ||| blizzard_at(&self.east, t, 0, x, y)
        ||| blizzard_at(&self.west, -t, 0, x, y)
    }

    /// Whether the traveller can be at `(x, y)` after a move at time `t`,
    /// having been at one of the places `before`: the place is in the
    /// valley and free at that time, and the traveller was there or on one
    /// of the four places next to it.
    pub open spec fn reach(&self, before: &BitGrid, t: int, x: int, y: int) -> bool {
        &&& 0 <= x < self.cols()
        &&& 0 <= y < self.rows()
        &&& !self.taken(t, x, y)
        &&& (cell(before, x, y) || cell(before, x - 1, y) || cell(before, x + 1, y) || cell(
            before,
            x,
            y - 1,
        ) || cell(before, x, y + 1))
    }

    /// The places the traveller can be at after a move at time `t`, having
    /// been at one of `locations`.
    pub fn step(&self, locations: &BitGrid, time: isize) -> (r: BitGrid)
        requires
            self.wf(),
            locations.wf(),
            locations@.width == self.wall@.width,
            locations@.height == self.wall@.height,
            time > isize::MIN,
        ensures
            r.wf(),
            r@.width == self.wall@.width,
            r@.height == self.wall@.height,
            forall|x: int, y: int|
                0 <= x < r@.width && 0 <= y < r@.height ==> r@.bit(x, y) == self.reach(
                    locations,
                    time as int,
                    x,
                    y,
                ),
    {
        let sa = Shifted::new(locations, 1, 0);
        let sb = Shifted::new(locations, -1, 0);
        let sc = Shifted::new(locations, 0, -1);
        let sd = Shifted::new(locations, 0, 1);
        let or_a = Or::new(locations, &sa);
        let or_b = Or::new(&or_a, &sb);
        let or_c = Or::new(&or_b, &sc);
        let or_d = Or::new(&or_c, &sd);
        let north = moved(&self.north, 0, -time);
        let south = moved(&self.south, 0, time);
        let east = moved(&self.east, time, 0);
        let west = moved(&self.west, -time, 0);
        let less_a = Prim::new(&or_d, &north, AndNot);
        let less_b = Prim::new(&less_a, &south, AndNot);
        let less_c = Prim::new(&less_b, &east, AndNot);
        let less_d = Prim::new(&less_c, &west, AndNot);
        let free = Prim::new(&less_d, &self.wall, AndNot);
        let r = BitGrid::from_view(&free);
        proof {
            assert forall|x: int, y: int| 0 <= x < r@.width && 0 <= y < r@.height implies r@.bit(x, y)
                == self.reach(locations, time as int, x, y) by {
                lemma_snapshot_bit(&free, x, y);
                free.lemma_raw_cell(x, y);
                less_d.lemma_raw_cell(x, y);
                less_c.lemma_raw_cell(x, y);
                less_b.lemma_raw_cell(x, y);
                less_a.lemma_raw_cell(x, y);
                or_d.lemma_raw_cell(x, y);
                or_c.lemma_raw_cell(x, y);
                or_b.lemma_raw_cell(x, y);
                or_a.lemma_raw_cell(x, y);
                sa.lemma_raw_cell(x, y);
                sb.lemma_raw_cell(x, y);
                sc.lemma_raw_cell(x, y);
                sd.lemma_raw_cell(x, y);
                north.lemma_raw_cell(x, y);
                south.lemma_raw_cell(x, y);
                east.lemma_raw_cell(x, y);
                west.lemma_raw_cell(x, y);
                self.wall.lemma_raw_cell(x, y);
                locations.lemma_raw_cell(x, y);
            }
        }
        r
    }

    /// Whether the traveller, who set out from `from` and made the moves at
    /// the times `t0`, `t0 + 1` up to `t0 + n - 1`, can be at `(x, y)`.
    pub open spec fn within(&self, from: (usize, usize), t0: int, n: nat, x: int, y: int) -> bool
        decreases n,
    {
        if n == 0 {
            x == from.0 && y == from.1
        } else {
            let t = t0 + n - 1;
            &&& 0 <= x < self.cols()
            &&& 0 <= y < self.rows()
            &&& !self.taken(t, x, y)
            &&& (self.within(from, t0, (n - 1) as nat, x, y) || self.within(
                from,
                t0,
                (n - 1) as nat,
                x - 1,
                y,
            ) || self.within(from, t0, (n - 1) as nat, x + 1, y) || self.within(
                from,
                t0,
                (n - 1) as nat,
                x,
                y - 1,
            ) || self.within(from, t0, (n - 1) as nat, x, y + 1))
        }
    }

    /// Sets out from `from` at time `time_off` and moves until `to` can be
    /// reached or `limit` moves are made. Returns the time of the move
    /// that first reaches `to`, or `None` where none of the moves does.
    pub fn pathfind(
        &self,
        from: (usize, usize),
        to: (usize, usize),
        time_off: isize,
        limit: usize,
    ) -> (r: Option<isize>)
        requires
            self.wf(),
            from.0 < self.cols(),
            from.1 < self.rows(),
            to.0 < self.cols(),
            to.1 < self.rows(),
            time_off > isize::MIN,
        ensures
            match r {
                Some(t) => time_off <= t < time_off + limit && self.within(
                    from,
                    time_off as int,
                    (t - time_off + 1) as nat,
                    to.0 as int,
                    to.1 as int,
                ) && forall|n: nat|
                    1 <= n <= t - time_off ==> !self.within(
                        from,
                        time_off as int,
                        n,
                        to.0 as int,
                        to.1 as int,
                    ),
                None => forall|n: nat|
                    1 <= n <= limit && time_off + n - 1 <= isize::MAX ==> !self.within(
                        from,
                        time_off as int,
                        n,
                        to.0 as int,
                        to.1 as int,
                    ),
            },
    {
        proof {
            self.wall.lemma_view_is_wf();
        }
        let mut time = time_off;
        let mut locations = BitGrid::new(self.wall.width(), self.wall.height());
        locations.set(from.0, from.1, true);
        let mut done: usize = 0;
        proof {
            assert forall|x: int, y: int| cell(&locations, x, y) == self.within(
                from,
                time_off as int,
                0,
                x,
                y,
            ) by {
                locations.lemma_raw_cell(x, y);
            }
        }
        while done < limit
            invariant
                self.wf(),
                locations.wf(),
                locations@.width == self.wall@.width,
                locations@.height == self.wall@.height,
                to.0 < self.cols(),
                to.1 < self.rows(),
                done <= limit,
                time == time_off + done,
                time_off > isize::MIN,
                forall|x: int, y: int|
                    cell(&locations, x, y) == self.within(from, time_off as int, done as nat, x, y),
                forall|n: nat|
                    1 <= n <= done ==> !self.within(from, time_off as int, n, to.0 as int, to.1 as int),
            decreases limit - done,
        {
            let ghost before = locations;
            locations = self.step(&locations, time);
            proof {
                assert forall|x: int, y: int| cell(&locations, x, y) == self.within(
                    from,
                    time_off as int,
                    (done + 1) as nat,
                    x,
                    y,
                ) by {
                    locations.lemma_raw_cell(x, y);
                }
            }
            if locations.get(to.0, to.1) {
                proof {
                    locations.lemma_raw_cell(to.0 as int, to.1 as int);
                }
                return Some(time);
            }
            proof {
                locations.lemma_raw_cell(to.0 as int, to.1 as int);
            }
            done += 1;
            if time == isize::MAX {
                return None;
            }
            time += 1;
        }
        None
    }
}

/// Whether the chart shows the character `c` at column `x` of row `y`.
pub open spec fn shows(lines: Seq<Vec<char>>, c: char, x: int, y: int) -> bool {
    0 <= y < lines.len() && 0 <= x < lines[y]@.len() && lines[y]@[x] == c
}

/// The width of a chart: the length of its first line.
pub open spec fn chart_width(lines: Seq<Vec<char>>) -> int {
    lines[0]@.len() as int
}

/// The last row of a chart.
pub open spec fn last_row(lines: Seq<Vec<char>>) -> int {
    lines.len() - 1
}

/// Every `c` of the chart stands inside the chart's width.
pub open spec fn fits(lines: Seq<Vec<char>>, c: char) -> bool {
    forall|x: int, y: int| #[trigger] shows(lines, c, x, y) ==> x < chart_width(lines)
}

/// The grid of the places at which the chart shows the character `c`, or
/// `None` where one of them lies beyond the width of the chart.
pub fn mark(lines: &Vec<Vec<char>>, c: char) -> (r: Option<BitGrid>)
    requires
        lines@.len() > 0,
        lines@.len() <= isize::MAX,
        lines@[0]@.len() <= isize::MAX,
    ensures
        r is Some == fits(lines@, c),
        r matches Some(g) ==> g.wf() && g@.width == chart_width(lines@) && g@.height == lines@.len()
            && forall|x: int, y: int| g@.bit(x, y) == shows(lines@, c, x, y),
{
    let width = lines[0].len();
    let height = lines.len();
    let mut grid = BitGrid::new(width, height);
    let mut y: usize = 0;
    while y < height
        invariant
            y <= height,
            height == lines@.len(),
            width == chart_width(lines@),
            grid.wf(),
            grid@.width == width,
            grid@.height == height,
            forall|a: int, b: int| grid@.bit(a, b) == (b < y && shows(lines@, c, a, b)),
            forall|a: int, b: int| b < y && #[trigger] shows(lines@, c, a, b) ==> a < width,
        decreases height - y,
    {
        let line = &lines[y];
        let mut x: usize = 0;
        while x < line.len()
            invariant
                x <= line@.len(),
                y < height,
                height == lines@.len(),
                width == chart_width(lines@),
                line@ == lines@[y as int]@,
                grid.wf(),
                grid@.width == width,
                grid@.height == height,
                forall|a: int, b: int|
                    grid@.bit(a, b) == ((b < y || (b == y && a < x)) && shows(lines@, c, a, b)),
                forall|a: int, b: int|
                    (b < y || (b == y && a < x)) && #[trigger] shows(lines@, c, a, b) ==> a < width,
            decreases line@.len() - x,
        {
            if line[x] == c {
                if x >= width {
                    assert(shows(lines@, c, x as int, y as int));
                    return None;
                }
                grid.set(x, y, true);
            }
            x += 1;
        }
        y += 1;
    }
    Some(grid)
}

/// The last column at which the line shows open ground, if any.
pub fn last_gap(line: &Vec<char>) -> (r: Option<usize>)
    ensures
        match r {
            Some(x) => x < line@.len() && line@[x as int] == '.' && forall|k: int|
                x < k < line@.len() ==> line@[k] != '.',
            None => forall|k: int| 0 <= k < line@.len() ==> line@[k] != '.',
        },
{
    let mut x: usize = line.len();
    while x > 0
        invariant
            x <= line@.len(),
            forall|k: int| x <= k < line@.len() ==> line@[k] != '.',
        decreases x,
    {
        x -= 1;
        if line[x] == '.' {
            return Some(x);
        }
    }
    None
}

/// A valley with the places at which the traveller enters and leaves it.
pub struct Chart {
    pub valley: Valley,
    pub start: (usize, usize),
    pub end: (usize, usize),
}

impl Chart {
    /// Goes from the start to the end, back to the start and to the end
    /// again, each leg setting out at the time at which the leg before it
    /// arrived and ending at the first move that reaches its goal within
    /// `limit` moves. Returns the times at which the first and the third
    /// leg arrive, or `None` where a leg does not arrive.
    pub fn journey(&self, limit: usize) -> (r: Option<(isize, isize)>)
        requires
            self.valley.wf(),
            self.start.0 < self.valley.cols(),
            self.start.1 < self.valley.rows(),
            self.end.0 < self.valley.cols(),
            self.end.1 < self.valley.rows(),
        ensures
            match self.trip(limit as nat) {
                Some(times) => r == Some((times.0 as isize, times.1 as isize)),
                None => r is None,
            },
            r matches Some((a, c)) ==> 0 <= a <= c && self.valley.within(
                self.start,
                0,
                (a + 1) as nat,
                self.end.0 as int,
                self.end.1 as int,
            ),
    {
        let first = self.valley.pathfind(self.start, self.end, 0, limit);
        proof {
            self.valley.lemma_leg(self.start, self.end, 0, limit, first);
        }
        let a = match first {
            Some(a) => a,
            None => {
                return None;
            },
        };
        let second = self.valley.pathfind(self.end, self.start, a, limit);
        proof {
            self.valley.lemma_leg(self.end, self.start, a, limit, second);
        }
        let b = match second {
            Some(b) => b,
            None => {
                return None;
            },
        };
        let third = self.valley.pathfind(self.start, self.end, b, limit);
        proof {
            self.valley.lemma_leg(self.start, self.end, b, limit, third);
        }
        match third {
            Some(c) => Some((a, c)),
            None => None,
        }
    }
}

impl Chart {
    /// The times at which the first and the third leg of a journey
    /// arrive: from the start to the end, back to the start and to the
    /// end again, each leg setting out at the time at which the leg
    /// before it arrived. None where a leg does not arrive.
    pub open spec fn trip(&self, limit: nat) -> Option<(int, int)> {
        match self.valley.leg(self.start, self.end, 0, limit) {
            Some(a) => match self.valley.leg(self.end, self.start, a, limit) {
                Some(b) => match self.valley.leg(self.start, self.end, b, limit) {
                    Some(c) => Some((a, c)),
                    None => None,
                },
                None => None,
            },
            None => None,
        }
    }
}

impl Valley {
    /// The number of the first among the first `n` moves, counted from
    /// one, after which the traveller who set out from `from` at the time
    /// `t0` can be at `to`, if there is one.
    pub open spec fn first_move(&self, from: (usize, usize), to: (usize, usize), t0: int, n: nat) -> Option<
        nat,
    >
        decreases n,
    {
        if n == 0 {
            None
        } else {
            match self.first_move(from, to, t0, (n - 1) as nat) {
                Some(k) => Some(k),
                None => if self.within(from, t0, n, to.0 as int, to.1 as int) {
                    Some(n)
                } else {
                    None
                },
            }
        }
    }

    /// The time of the move that first brings the traveller, who sets out
    /// from `from` at the time `t0`, to `to`: one of the first `limit`
    /// moves, at a time that can be counted. None where none of these
    /// moves does.
    pub open spec fn leg(&self, from: (usize, usize), to: (usize, usize), t0: int, limit: nat) -> Option<
        int,
    > {
        let moves = if t0 + limit - 1 <= isize::MAX {
            limit
        } else if t0 <= isize::MAX {
            (isize::MAX - t0 + 1) as nat
        } else {
            0
        };
        match self.first_move(from, to, t0, moves) {
            Some(k) => Some(t0 + k - 1),
            None => None,
        }
    }

    /// The first move that reaches a place does so, and none before it
    /// does.
    pub proof fn lemma_first_move(&self, from: (usize, usize), to: (usize, usize), t0: int, n: nat)
        ensures
            match self.first_move(from, to, t0, n) {
                Some(k) => 1 <= k <= n && self.within(from, t0, k, to.0 as int, to.1 as int)
                    && forall|j: nat|
                    1 <= j < k ==> !self.within(from, t0, j, to.0 as int, to.1 as int),
                None => forall|j: nat|
                    1 <= j <= n ==> !self.within(from, t0, j, to.0 as int, to.1 as int),
            },
        decreases n,
    {
        if n > 0 {
            self.lemma_first_move(from, to, t0, (n - 1) as nat);
        }
    }

    /// What `pathfind` finds is the leg.
    pub proof fn lemma_leg(
        &self,
        from: (usize, usize),
        to: (usize, usize),
        time_off: isize,
        limit: usize,
        r: Option<isize>,
    )
        requires
            match r {
                Some(t) => time_off <= t < time_off + limit && self.within(
                    from,
                    time_off as int,
                    (t - time_off + 1) as nat,
                    to.0 as int,
                    to.1 as int,
                ) && forall|n: nat|
                    1 <= n <= t - time_off ==> !self.within(
                        from,
                        time_off as int,
                        n,
                        to.0 as int,
                        to.1 as int,
                    ),
                None => forall|n: nat|
                    1 <= n <= limit && time_off + n - 1 <= isize::MAX ==> !self.within(
                        from,
                        time_off as int,
                        n,
                        to.0 as int,
                        to.1 as int,
                    ),
            },
        ensures
            match self.leg(from, to, time_off as int, limit as nat) {
                Some(t) => r == Some(t as isize) && time_off <= t <= isize::MAX,
                None => r is None,
            },
    {
        let t0 = time_off as int;
        let moves: nat = if t0 + limit - 1 <= isize::MAX {
            limit as nat
        } else {
            (isize::MAX - t0 + 1) as nat
        };
        self.lemma_first_move(from, to, t0, moves);
        match r {
            Some(t) => {
                let k = (t - time_off + 1) as nat;
                assert(1 <= k <= moves);
                match self.first_move(from, to, t0, moves) {
                    Some(found) => {
                        if found < k {
                            assert(!self.within(from, t0, found, to.0 as int, to.1 as int));
                        }
                        if k < found {
                            assert(!self.within(from, t0, k, to.0 as int, to.1 as int));
                        }
                    },
                    None => {
                        assert(!self.within(from, t0, k, to.0 as int, to.1 as int));
                    },
                }
            },
            None => {
                match self.first_move(from, to, t0, moves) {
                    Some(found) => {
                        assert(!self.within(from, t0, found, to.0 as int, to.1 as int));
                    },
                    None => {},
                }
            },
        }
    }
}

/// Whether a chart can be read: it has at least two lines, the first at
/// least two characters long, no wall or blizzard beyond the length of the
/// first line, and open ground in its first and in its last line.
pub open spec fn readable(lines: Seq<Vec<char>>) -> bool {
    &&& 2 <= lines.len() <= isize::MAX
    &&& 2 <= lines[0]@.len() <= isize::MAX
    &&& fits(lines, '#')
    &&& fits(lines, '^')
    &&& fits(lines, 'v')
    &&& fits(lines, '>')
    &&& fits(lines, '<')
    &&& exists|x: int| 0 <= x < lines[0]@.len() && lines[0]@[x] == '.'
    &&& exists|x: int| 0 <= x < lines.last()@.len() && lines.last()@[x] == '.'
}

/// Reads a chart: `#` is wall, `^`, `v`, `>` and `<` are blizzards that
/// move up, down, right and left, and the last `.` of the first and of the
/// last line are the places to enter and to leave.
pub fn read_chart(lines: &Vec<Vec<char>>) -> (r: Option<Chart>)
    ensures
        r is Some == readable(lines@),
        r matches Some(chart) ==> {
            &&& chart.valley.wf()
            &&& chart.valley.cols() == chart_width(lines@)
            &&& chart.valley.rows() == lines@.len()
            &&& forall|x: int, y: int| chart.valley.wall@.bit(x, y) == shows(lines@, '#', x, y)
            &&& forall|x: int, y: int| chart.valley.north@.bit(x, y) == shows(lines@, '^', x, y)
            &&& forall|x: int, y: int| chart.valley.south@.bit(x, y) == shows(lines@, 'v', x, y)
            &&& forall|x: int, y: int| chart.valley.east@.bit(x, y) == shows(lines@, '>', x, y)
            &&& forall|x: int, y: int| chart.valley.west@.bit(x, y) == shows(lines@, '<', x, y)
            &&& chart.start.1 == 0
            &&& shows(lines@, '.', chart.start.0 as int, 0)
            &&& forall|x: int| x > chart.start.0 ==> !shows(lines@, '.', x, 0)
            &&& chart.end.1 == last_row(lines@)
            &&& shows(lines@, '.', chart.end.0 as int, last_row(lines@))
            &&& forall|x: int| x > chart.end.0 ==> !shows(lines@, '.', x, last_row(lines@))
        },
{
    let height = lines.len();
    if height < 2 || height > isize::MAX as usize {
        return None;
    }
    let width = lines[0].len();
    if width < 2 || width > isize::MAX as usize {
        return None;
    }
    let wall = mark(lines, '#');
    let north = mark(lines, '^');
    let south = mark(lines, 'v');
    let east = mark(lines, '>');
    let west = mark(lines, '<');
    let start = last_gap(&lines[0]);
    let end = last_gap(&lines[height - 1]);
    proof {
        assert(lines@.last() == lines@[height - 1]);
        if start is Some {
            let x = start->0 as int;
            assert(0 <= x < lines@[0]@.len() && lines@[0]@[x] == '.');
        }
        if end is Some {
            let x = end->0 as int;
            assert(0 <= x < lines@.last()@.len() && lines@.last()@[x] == '.');
        }
    }
    match (wall, north, south, east, west, start, end) {
        (Some(wall), Some(north), Some(south), Some(east), Some(west), Some(sx), Some(ex)) => {
            proof {
                wall.lemma_view_is_wf();
            }
            Some(
                Chart {
                    valley: Valley { wall, north, south, east, west },
                    start: (sx, 0),
                    end: (ex, height - 1),
                },
            )
        },
        _ => None,
    }
}

} // verus!
