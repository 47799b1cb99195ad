//! A cave in which sand pours from a source, comes to rest on rock and on
//! sand, or falls out at the bottom.

use crate::text::{find_from, first_index, halves, int_value, read_int, slice, split_once};
use vstd::prelude::*;

verus! {

/// A place: column and row.
pub type Pos = (isize, isize);

/// Rows of the cave.
pub const MAP_HEIGHT: usize = 200;

/// Columns of the cave.
pub const MAP_WIDTH: usize = 400;

/// The column of the cave's left edge.
pub const MAP_OFFSET: usize = 300;

/// What fills a place.
#[derive(Copy, Clone, Debug, PartialEq, Eq, Structural)]
pub enum Square {
    Rock,
    Air,
    Sand,
}

/// A cave: what fills its places, the row of its lowest rock, and how
/// many grains of sand have come to rest.
#[derive(Clone)]
pub struct Grid {
    pub cells: Vec<Vec<Square>>,
    pub lowest_y: isize,
    pub sand_count: usize,
}

/// The places of a cave, row by row.
pub type Cells = Seq<Seq<Square>>;

/// The rows as sequences.
pub open spec fn cells_view(cells: Seq<Vec<Square>>) -> Cells {
    Seq::new(cells.len(), |y: int| cells[y]@)
}

/// The cave has `MAP_HEIGHT` rows of `MAP_WIDTH` places.
pub open spec fn is_cave(cells: Cells) -> bool {
    cells.len() == MAP_HEIGHT && forall|y: int| 0 <= y < MAP_HEIGHT ==> (#[trigger] cells[y]).len() == MAP_WIDTH
}

/// Whether the place lies in the cave.
pub open spec fn in_cave(p: (int, int)) -> bool {
    MAP_OFFSET <= p.0 < MAP_OFFSET + MAP_WIDTH && 0 <= p.1 < MAP_HEIGHT
}

/// What fills the place.
pub open spec fn filling(cells: Cells, p: (int, int)) -> Square {
    cells[p.1][p.0 - MAP_OFFSET]
}

/// The cave with the place filled by `s`.
pub open spec fn filled(cells: Cells, p: (int, int), s: Square) -> Cells {
    cells.update(p.1, cells[p.1].update(p.0 - MAP_OFFSET, s))
}

/// What pouring sand at a place does: the cave after it, the number of
/// grains that came to rest, and whether sand fell out at the bottom.
pub struct Poured {
    pub cells: Cells,
    pub grains: nat,
    pub fell: bool,
}

/// Sand that arrives at `pos` pours on to the place below it, then to the
/// place below on the left and then to the one below on the right, each
/// as long as the place is air and no sand has fallen out; and then comes
/// to rest at `pos`. Sand that arrives in the last row falls out.
pub open spec fn pour(cells: Cells, pos: (int, int)) -> Poured
    decreases MAP_HEIGHT - pos.1, 1int,
{
    if pos.1 >= MAP_HEIGHT - 1 {
        Poured { cells, grains: 0, fell: true }
    } else {
        let a = pour_on(cells, (pos.0, pos.1 + 1));
        if a.fell {
            a
        } else {
            let b = pour_on(a.cells, (pos.0 - 1, pos.1 + 1));
            if b.fell {
                Poured { grains: a.grains + b.grains, ..b }
            } else {
                let c = pour_on(b.cells, (pos.0 + 1, pos.1 + 1));
                if c.fell {
                    Poured { grains: a.grains + b.grains + c.grains, ..c }
                } else {
                    Poured {
                        cells: filled(c.cells, pos, Square::Sand),
                        grains: a.grains + b.grains + c.grains + 1,
                        fell: false,
                    }
                }
            }
        }
    }
}

/// Sand pours on to a place only where it is air.
pub open spec fn pour_on(cells: Cells, p: (int, int)) -> Poured
    decreases MAP_HEIGHT - p.1, 2int,
{
    if p.1 < MAP_HEIGHT && filling(cells, p) == Square::Air {
        pour(cells, p)
    } else {
        Poured { cells, grains: 0, fell: false }
    }
}

/// Whether sand that arrives at the place stays clear of the sides of the
/// cave however it pours on.
pub open spec fn clear_of_sides(p: (int, int)) -> bool {
    0 <= p.1 && MAP_OFFSET <= p.0 - (MAP_HEIGHT - 1 - p.1) && p.0 + (MAP_HEIGHT - 1 - p.1) < MAP_OFFSET
        + MAP_WIDTH
}

/// The larger of two numbers.
pub open spec fn larger(a: int, b: int) -> int {
    if a >= b {
        a
    } else {
        b
    }
}

/// Whether `p` lies on the line that is drawn from `from` to `to`.
pub open spec fn on_line(from: (int, int), to: (int, int), p: (int, int)) -> bool {
    if from.0 == to.0 {
        p.0 == from.0 && ((from.1 <= p.1 <= to.1) || (to.1 <= p.1 <= from.1))
    } else {
        p.1 == from.1 && ((from.0 <= p.0 <= to.0) || (to.0 <= p.0 <= from.0))
    }
}

/// How many of the first `n` places of a row are air.
pub open spec fn row_airs(row: Seq<Square>, n: nat) -> nat
    decreases n,
{
    if n == 0 {
        0
    } else {
        row_airs(row, (n - 1) as nat) + (if row[n - 1] == Square::Air {
            1nat
        } else {
            0nat
        })
    }
}

/// How many places of the first `m` rows are air.
pub open spec fn airs(cells: Cells, m: nat) -> nat
    decreases m,
{
    if m == 0 {
        0
    } else {
        airs(cells, (m - 1) as nat) + row_airs(cells[m - 1], cells[m - 1].len())
    }
}

/// No more places of a row are air than it has.
pub proof fn lemma_row_airs_bound(row: Seq<Square>, n: nat)
    ensures
        row_airs(row, n) <= n,
    decreases n,
{
    if n > 0 {
        lemma_row_airs_bound(row, (n - 1) as nat);
    }
}

/// No more places of a cave are air than it has.
pub proof fn lemma_airs_bound(cells: Cells, m: nat)
    requires
        is_cave(cells),
        m <= MAP_HEIGHT,
    ensures
        airs(cells, m) <= m * MAP_WIDTH,
    decreases m,
{
    if m > 0 {
        lemma_airs_bound(cells, (m - 1) as nat);
        lemma_row_airs_bound(cells[m - 1], cells[m - 1].len());
        assert(cells[m - 1].len() == MAP_WIDTH);
    }
}

/// Filling a place of a row changes the count of its air by that place.
pub proof fn lemma_row_fill(row: Seq<Square>, x: int, s: Square, n: nat)
    requires
        0 <= x < row.len(),
        n <= row.len(),
    ensures
        row_airs(row.update(x, s), n) + (if x < n && row[x] == Square::Air {
            1nat
        } else {
            0nat
        }) == row_airs(row, n) + (if x < n && s == Square::Air {
            1nat
        } else {
            0nat
        }),
    decreases n,
{
    if n > 0 {
        lemma_row_fill(row, x, s, (n - 1) as nat);
    }
}

/// Filling an air place of a cave with sand leaves one air place fewer;
/// filling any other place with sand leaves as many.
pub proof fn lemma_fill(cells: Cells, p: (int, int), m: nat)
    requires
        is_cave(cells),
        in_cave(p),
        m <= MAP_HEIGHT,
    ensures
        airs(filled(cells, p, Square::Sand), m) + (if p.1 < m && filling(cells, p) == Square::Air {
            1nat
        } else {
            0nat
        }) == airs(cells, m),
    decreases m,
{
    if m > 0 {
        lemma_fill(cells, p, (m - 1) as nat);
        if p.1 == m - 1 {
            assert(cells[p.1].len() == MAP_WIDTH);
            lemma_row_fill(cells[p.1], p.0 - MAP_OFFSET, Square::Sand, MAP_WIDTH as nat);
        }
    }
}

/// Sand that arrives at `pos` changes nothing above the row of `pos`, and
/// in that row nothing but `pos`; and it keeps the cave a cave.
pub proof fn lemma_pour_frame(cells: Cells, pos: (int, int), q: (int, int))
    requires
        is_cave(cells),
        clear_of_sides(pos),
        in_cave(q),
        q.1 < pos.1 || (q.1 == pos.1 && q.0 != pos.0),
    ensures
        is_cave(pour(cells, pos).cells),
        filling(pour(cells, pos).cells, q) == filling(cells, q),
    decreases MAP_HEIGHT - pos.1,
{
    if pos.1 < MAP_HEIGHT - 1 {
        let below = (pos.0, pos.1 + 1);
        let left = (pos.0 - 1, pos.1 + 1);
        let right = (pos.0 + 1, pos.1 + 1);
        lemma_pour_frame(cells, below, q);
        let a = pour_on(cells, below);
        lemma_pour_frame(a.cells, left, q);
        let b = pour_on(a.cells, left);
        lemma_pour_frame(b.cells, right, q);
        let c = pour_on(b.cells, right);
        assert(c.cells[pos.1].len() == MAP_WIDTH);
        assert(c.cells[q.1].len() == MAP_WIDTH);
        assert(is_cave(filled(c.cells, pos, Square::Sand))) by {
            assert forall|y: int| 0 <= y < MAP_HEIGHT implies (#[trigger] filled(
                c.cells,
                pos,
                Square::Sand,
            )[y]).len() == MAP_WIDTH by {
                assert(c.cells[y].len() == MAP_WIDTH);
            }
        }
    }
}

/// Each grain that comes to rest takes the place of air: sand that
/// arrives at an air place leaves as many air places fewer as grains come
/// to rest.
pub proof fn lemma_pour_count(cells: Cells, pos: (int, int))
    requires
        is_cave(cells),
        clear_of_sides(pos),
        pos.1 < MAP_HEIGHT,
        filling(cells, pos) == Square::Air,
    ensures
        is_cave(pour(cells, pos).cells),
        airs(pour(cells, pos).cells, MAP_HEIGHT as nat) + pour(cells, pos).grains == airs(
            cells,
            MAP_HEIGHT as nat,
        ),
    decreases MAP_HEIGHT - pos.1,
{
    if pos.1 < MAP_HEIGHT - 1 {
        let below = (pos.0, pos.1 + 1);
        let left = (pos.0 - 1, pos.1 + 1);
        let right = (pos.0 + 1, pos.1 + 1);
        lemma_pour_frame(cells, below, pos);
        if filling(cells, below) == Square::Air {
            lemma_pour_count(cells, below);
        }
        let a = pour_on(cells, below);
        lemma_pour_frame(a.cells, left, pos);
        if filling(a.cells, left) == Square::Air {
            lemma_pour_count(a.cells, left);
        }
        let b = pour_on(a.cells, left);
        lemma_pour_frame(b.cells, right, pos);
        if filling(b.cells, right) == Square::Air {
            lemma_pour_count(b.cells, right);
        }
        let c = pour_on(b.cells, right);
        lemma_fill(c.cells, pos, MAP_HEIGHT as nat);
        assert(is_cave(filled(c.cells, pos, Square::Sand))) by {
            assert forall|y: int| 0 <= y < MAP_HEIGHT implies (#[trigger] filled(
                c.cells,
                pos,
                Square::Sand,
            )[y]).len() == MAP_WIDTH by {
                assert(c.cells[y].len() == MAP_WIDTH);
            }
        }
    }
}

impl Grid {
    /// The places of the cave.
    pub open spec fn view(&self) -> Cells {
        cells_view(self.cells@)
    }

    /// What fills a place.
    pub fn get(&self, pos: Pos) -> (s: Square)
        requires
            is_cave(self@),
            in_cave((pos.0 as int, pos.1 as int)),
        ensures
            s == filling(self@, (pos.0 as int, pos.1 as int)),
    {
        assert(self@[pos.1 as int].len() == MAP_WIDTH);
        self.cells[pos.1 as usize][pos.0 as usize - MAP_OFFSET]
    }

    /// Fills a place.
    pub fn put(&mut self, pos: Pos, s: Square)
        requires
            is_cave(old(self)@),
            in_cave((pos.0 as int, pos.1 as int)),
        ensures
            is_cave(final(self)@),
            final(self)@ == filled(old(self)@, (pos.0 as int, pos.1 as int), s),
            final(self).lowest_y == old(self).lowest_y,
            final(self).sand_count == old(self).sand_count,
    {
        assert(self@[pos.1 as int].len() == MAP_WIDTH);
        self.cells[pos.1 as usize][pos.0 as usize - MAP_OFFSET] = s;
        proof {
            assert(self@ =~= filled(old(self)@, (pos.0 as int, pos.1 as int), s));
            assert forall|y: int| 0 <= y < MAP_HEIGHT implies (#[trigger] self@[y]).len()
                == MAP_WIDTH by {
                assert(old(self)@[y].len() == MAP_WIDTH);
            }
        }
    }

    /// A cave of air.
    pub fn new() -> (g: Grid)
        ensures
            is_cave(g@),
            g.lowest_y == 0,
            g.sand_count == 0,
            forall|p: (int, int)| in_cave(p) ==> #[trigger] filling(g@, p) == Square::Air,
    {
        let mut cells: Vec<Vec<Square>> = Vec::new();
        while cells.len() < MAP_HEIGHT
            invariant
                cells@.len() <= MAP_HEIGHT,
                forall|y: int|
                    0 <= y < cells@.len() ==> (#[trigger] cells@[y])@ == Seq::new(
                        MAP_WIDTH as nat,
                        |x: int| Square::Air,
                    ),
            decreases MAP_HEIGHT - cells@.len(),
        {
            let mut row: Vec<Square> = Vec::new();
            while row.len() < MAP_WIDTH
                invariant
                    row@.len() <= MAP_WIDTH,
                    forall|x: int| 0 <= x < row@.len() ==> row@[x] == Square::Air,
                decreases MAP_WIDTH - row@.len(),
            {
                row.push(Square::Air);
            }
            assert(row@ =~= Seq::new(MAP_WIDTH as nat, |x: int| Square::Air));
            cells.push(row);
        }
        Grid { cells, lowest_y: 0, sand_count: 0 }
    }

    /// Draws a line of rock from `from` to `to`: along the column where
    /// both lie in one column, and otherwise along the row of `from`, from
    /// the column of the one to that of the other.
    pub fn paint(&mut self, from: Pos, to: Pos)
        requires
            is_cave(old(self)@),
            in_cave((from.0 as int, from.1 as int)),
            in_cave((to.0 as int, to.1 as int)),
        ensures
            is_cave(final(self)@),
            final(self).sand_count == old(self).sand_count,
            final(self).lowest_y == (if from.0 == to.0 {
                larger(old(self).lowest_y as int, larger(from.1 as int, to.1 as int))
            } else {
                larger(old(self).lowest_y as int, from.1 as int)
            }),
            forall|p: (int, int)|
                in_cave(p) ==> #[trigger] filling(final(self)@, p) == (if on_line(
                    (from.0 as int, from.1 as int),
                    (to.0 as int, to.1 as int),
                    p,
                ) {
                    Square::Rock
                } else {
                    filling(old(self)@, p)
                }),
    {
        let (from_x, from_y) = from;
        let (to_x, to_y) = to;
        let ghost f = (from.0 as int, from.1 as int);
        let ghost t = (to.0 as int, to.1 as int);
        if from_x == to_x {
            let low = if from_y <= to_y {
                from_y
            } else {
                to_y
            };
            let high = if from_y <= to_y {
                to_y
            } else {
                from_y
            };
            let mut y = low;
            while y <= high
                invariant
                    is_cave(self@),
                    low <= y <= high + 1,
                    0 <= low,
                    high < MAP_HEIGHT,
                    MAP_OFFSET <= from_x < MAP_OFFSET + MAP_WIDTH,
                    self.sand_count == old(self).sand_count,
                    self.lowest_y == (if y == low {
                        old(self).lowest_y as int
                    } else {
                        larger(old(self).lowest_y as int, y - 1)
                    }),
                    forall|p: (int, int)|
                        in_cave(p) ==> #[trigger] filling(self@, p) == (if p.0 == from_x && low <= p.1
                            < y {
                            Square::Rock
                        } else {
                            filling(old(self)@, p)
                        }),
                decreases high + 1 - y,
            {
                if y > self.lowest_y {
                    self.lowest_y = y;
                }
                let ghost before = self@;
                self.put((from_x, y), Square::Rock);
                proof {
                    assert forall|p: (int, int)| in_cave(p) implies #[trigger] filling(self@, p) == (
                    if p.0 == from_x && low <= p.1 < y + 1 {
                        Square::Rock
                    } else {
                        filling(old(self)@, p)
                    }) by {
                        assert(before[p.1].len() == MAP_WIDTH);
                        assert(filling(before, p) == (if p.0 == from_x && low <= p.1 < y {
                            Square::Rock
                        } else {
                            filling(old(self)@, p)
                        }));
                    }
                }
                y = y + 1;
            }
        } else {
            let low = if from_x <= to_x {
                from_x
            } else {
                to_x
            };
            let high = if from_x <= to_x {
                to_x
            } else {
                from_x
            };
            let mut x = low;
            while x <= high
                invariant
                    is_cave(self@),
                    low <= x <= high + 1,
                    MAP_OFFSET <= low,
                    high < MAP_OFFSET + MAP_WIDTH,
                    0 <= from_y < MAP_HEIGHT,
                    self.sand_count == old(self).sand_count,
                    self.lowest_y == (if x == low {
                        old(self).lowest_y as int
                    } else {
                        larger(old(self).lowest_y as int, from_y as int)
                    }),
                    forall|p: (int, int)|
                        in_cave(p) ==> #[trigger] filling(self@, p) == (if p.1 == from_y && low <= p.0
                            < x {
                            Square::Rock
                        } else {
                            filling(old(self)@, p)
                        }),
                decreases high + 1 - x,
            {
                if from_y > self.lowest_y {
                    self.lowest_y = from_y;
                }
                let ghost before = self@;
                self.put((x, from_y), Square::Rock);
                proof {
                    assert forall|p: (int, int)| in_cave(p) implies #[trigger] filling(self@, p) == (
                    if p.1 == from_y && low <= p.0 < x + 1 {
                        Square::Rock
                    } else {
                        filling(old(self)@, p)
                    }) by {
                        assert(before[p.1].len() == MAP_WIDTH);
                        assert(filling(before, p) == (if p.1 == from_y && low <= p.0 < x {
                            Square::Rock
                        } else {
                            filling(old(self)@, p)
                        }));
                    }
                }
                x = x + 1;
            }
        }
    }

    /// Pours sand from the source at column 500 of row 0. Returns whether
    /// sand fell out at the bottom.
    pub fn spawn_source(&mut self) -> (fell: bool)
        requires
            is_cave(old(self)@),
            old(self).sand_count <= 0x7fff_0000,
        ensures
            is_cave(final(self)@),
            final(self).lowest_y == old(self).lowest_y,
            final(self)@ == pour(old(self)@, (500, 0)).cells,
            final(self).sand_count == old(self).sand_count + pour(old(self)@, (500, 0)).grains,
            fell == pour(old(self)@, (500, 0)).fell,
    {
        proof {
            lemma_airs_bound(self@, MAP_HEIGHT as nat);
        }
        self.spawn_sand((500, 0))
    }

    /// Pours sand that arrives at `pos`. Returns whether sand fell out at
    /// the bottom.
    pub fn spawn_sand(&mut self, pos: Pos) -> (fell: bool)
        requires
            is_cave(old(self)@),
            clear_of_sides((pos.0 as int, pos.1 as int)),
            old(self).sand_count + airs(old(self)@, MAP_HEIGHT as nat) + 1 <= usize::MAX,
        ensures
            is_cave(final(self)@),
            final(self).lowest_y == old(self).lowest_y,
            final(self)@ == pour(old(self)@, (pos.0 as int, pos.1 as int)).cells,
            final(self).sand_count == old(self).sand_count + pour(
                old(self)@,
                (pos.0 as int, pos.1 as int),
            ).grains,
            fell == pour(old(self)@, (pos.0 as int, pos.1 as int)).fell,
        decreases MAP_HEIGHT - pos.1,
    {
        let (px, py) = pos;
        let ghost start = self@;
        let ghost here = (px as int, py as int);
        if py >= (MAP_HEIGHT - 1) as isize {
            return true;
        }
        let ghost mut settled: nat = 0;
        let mut i: usize = 0;
        while i < 3
            invariant
                i <= 3,
                is_cave(start),
                is_cave(self@),
                start == old(self)@,
                pos == (px, py),
                clear_of_sides(here),
                here == (px as int, py as int),
                py < MAP_HEIGHT - 1,
                self.lowest_y == old(self).lowest_y,
                self.sand_count == old(self).sand_count + settled,
                old(self).sand_count + airs(start, MAP_HEIGHT as nat) + 1 <= usize::MAX,
                airs(self@, MAP_HEIGHT as nat) + settled == airs(start, MAP_HEIGHT as nat),
                ({
                    let a = pour_on(start, (here.0, here.1 + 1));
                    let b = pour_on(a.cells, (here.0 - 1, here.1 + 1));
                    let c = pour_on(b.cells, (here.0 + 1, here.1 + 1));
                    &&& i == 0 ==> self@ == start && settled == 0
                    &&& i == 1 ==> self@ == a.cells && settled == a.grains && !a.fell
                    &&& i == 2 ==> self@ == b.cells && settled == a.grains + b.grains && !a.fell
                        && !b.fell
                    &&& i == 3 ==> self@ == c.cells && settled == a.grains + b.grains + c.grains
                        && !a.fell && !b.fell && !c.fell
                }),
            decreases 3 - i,
        {
            let dx: isize = if i == 0 {
                0
            } else if i == 1 {
                -1
            } else {
                1
            };
            let p = (px + dx, py + 1);
            let ghost before = self@;
            let ghost count = self.sand_count;
            let g = self.get(p);
            if g == Square::Air {
                proof {
                    lemma_pour_count(before, (p.0 as int, p.1 as int));
                }
                if self.spawn_sand(p) {
                    return true;
                }
                proof {
                    settled = settled + pour(before, (p.0 as int, p.1 as int)).grains;
                }
            }
            i += 1;
        }
        self.put(pos, Square::Sand);
        self.sand_count += 1;
        false
    }
}

/// The character that stands for what fills a place: a blank for air,
/// an `R` for anything else.
pub open spec fn shown_cell(sq: Square) -> char {
    if sq == Square::Air {
        ' '
    } else {
        'R'
    }
}

/// The characters of the first `n` places of a row.
pub open spec fn shown_row(row: Seq<Square>, n: nat) -> Seq<char> {
    Seq::new(n, |x: int| shown_cell(row[x]))
}

/// The picture of the first `n` rows of a cave: for each row a line feed
/// and then a character for every place.
pub open spec fn shown(cells: Cells, n: nat) -> Seq<char>
    decreases n,
{
    if n == 0 {
        Seq::empty()
    } else {
        shown(cells, (n - 1) as nat) + seq!['\n'] + shown_row(cells[n - 1], cells[n - 1].len())
    }
}

impl Grid {
    /// The picture of the cave.
    pub fn show(&self) -> (out: String)
        ensures
            out@ == shown(cells_view(self.cells@), self.cells@.len()),
    {
        let ghost cells = cells_view(self.cells@);
        let mut out = String::new();
        let mut y: usize = 0;
        while y < self.cells.len()
            invariant
                y <= self.cells@.len(),
                cells == cells_view(self.cells@),
                out@ == shown(cells, y as nat),
            decreases self.cells@.len() - y,
        {
            out.push('\n');
            let ghost before = out@;
            let ghost row = cells[y as int];
            assert(row == self.cells@[y as int]@);
            let mut x: usize = 0;
            while x < self.cells[y].len()
                invariant
                    y < self.cells@.len(),
                    x <= self.cells@[y as int]@.len(),
                    row == self.cells@[y as int]@,
                    out@ == before + shown_row(row, x as nat),
                decreases self.cells@[y as int]@.len() - x,
            {
                let c = if self.cells[y][x] == Square::Air {
                    ' '
                } else {
                    'R'
                };
                out.push(c);
                x += 1;
                assert(out@ =~= before + shown_row(row, x as nat));
            }
            y += 1;
            assert(out@ =~= shown(cells, y as nat));
        }
        out
    }
}

/// The corner that a token writes: two numbers with a comma between
/// them.
pub open spec fn corner_of(token: Seq<char>) -> Option<(int, int)> {
    match halves(token, ',') {
        Some(h) => match (int_value(h.0), int_value(h.1)) {
            (Some(x), Some(y)) => Some((x, y)),
            _ => None,
        },
        None => None,
    }
}

/// The corners that a line writes: one corner, or several with ` -> `
/// between them.
pub open spec fn corners_of(line: Seq<char>) -> Option<Seq<(int, int)>>
    decreases line.len(),
{
    match first_index(line, ' ') {
        None => match corner_of(line) {
            Some(c) => Some(seq![c]),
            None => None,
        },
        Some(i) => if 0 <= i && i + 4 <= line.len() && line[i + 1] == '-' && line[i + 2] == '>'
            && line[i + 3] == ' ' {
            match (corner_of(line.take(i)), corners_of(line.skip(i + 4))) {
                (Some(c), Some(rest)) => Some(seq![c] + rest),
                _ => None,
            }
        } else {
            None
        },
    }
}

/// The places as pairs of numbers.
pub open spec fn places(v: Seq<Pos>) -> Seq<(int, int)> {
    Seq::new(v.len(), |i: int| (v[i].0 as int, v[i].1 as int))
}

/// Reads a corner.
pub fn read_corner(token: &Vec<char>) -> (r: Option<Pos>)
    ensures
        match corner_of(token@) {
            Some(c) => r == Some((c.0 as isize, c.1 as isize)),
            None => r is None,
        },
{
    match split_once(token, ',') {
        Some((a, b)) => {
            assert(a@.skip(0) =~= a@ && b@.skip(0) =~= b@);
            match (read_int(&a, 0), read_int(&b, 0)) {
                (Some(x), Some(y)) => Some((x, y)),
                _ => None,
            }
        },
        None => None,
    }
}

/// Reads the corners of a line.
pub fn read_corners(line: &Vec<char>) -> (r: Option<Vec<Pos>>)
    ensures
        match corners_of(line@) {
            Some(cs) => r matches Some(v) && places(v@) == cs,
            None => r is None,
        },
{
    let mut out: Vec<Pos> = Vec::new();
    let mut start: usize = 0;
    let total = line.len();
    assert(line@.skip(0) =~= line@);
    assert(places(out@) =~= Seq::<(int, int)>::empty());
    loop
        invariant
            start <= line@.len(),
            total == line@.len(),
            corners_of(line@) == match corners_of(line@.skip(start as int)) {
                Some(rest) => Some(places(out@) + rest),
                None => None,
            },
        decreases line@.len() - start,
    {
        let ghost rest = line@.skip(start as int);
        let ghost before = places(out@);
        match find_from(line, ' ', start) {
            None => {
                let token = slice(line, start, total);
                assert(token@ =~= rest);
                match read_corner(&token) {
                    Some(c) => {
                        out.push(c);
                        assert(places(out@) =~= before + seq![(c.0 as int, c.1 as int)]);
                        return Some(out);
                    },
                    None => {
                        return None;
                    },
                }
            },
            Some(i) => {
                let ghost at = i - start;
                if total - i < 4 || line[i + 1] != '-' || line[i + 2] != '>' || line[i + 3] != ' ' {
                    proof {
                        if at + 4 <= rest.len() {
                            assert(rest[at + 1] == line@[i + 1]);
                            assert(rest[at + 2] == line@[i + 2]);
                            assert(rest[at + 3] == line@[i + 3]);
                        }
                    }
                    return None;
                }
                proof {
                    assert(rest[at + 1] == line@[i + 1]);
                    assert(rest[at + 2] == line@[i + 2]);
                    assert(rest[at + 3] == line@[i + 3]);
                    assert(rest.skip(at + 4) =~= line@.skip(i + 4));
                }
                let token = slice(line, start, i);
                assert(token@ =~= rest.take(at));
                match read_corner(&token) {
                    Some(c) => {
                        out.push(c);
                        proof {
                            assert(places(out@) =~= before + seq![(c.0 as int, c.1 as int)]);
                            match corners_of(line@.skip(i + 4)) {
                                Some(more) => {
                                    assert(before + (seq![(c.0 as int, c.1 as int)] + more) =~= places(
                                        out@,
                                    ) + more);
                                },
                                None => {},
                            }
                        }
                        start = i + 4;
                    },
                    None => {
                        return None;
                    },
                }
            },
        }
    }
}

/// Whether a place lies on one of the lines from each of some corners to
/// the next.
pub open spec fn on_path(corners: Seq<(int, int)>, p: (int, int)) -> bool {
    exists|k: int| 0 <= k < corners.len() - 1 && #[trigger] on_line(corners[k], corners[k + 1], p)
}

/// The row of the lowest rock after lines have been drawn from each of
/// the first `n` corners to the next.
pub open spec fn lowest_after(lowest: int, corners: Seq<(int, int)>, n: nat) -> int
    decreases n,
{
    if n == 0 {
        lowest
    } else {
        let before = lowest_after(lowest, corners, (n - 1) as nat);
        let from = corners[n - 1];
        let to = corners[n as int];
        if from.0 == to.0 {
            larger(before, larger(from.1, to.1))
        } else {
            larger(before, from.1)
        }
    }
}

impl Grid {
    /// Draws lines of rock from each corner to the next. Where there are
    /// two corners or more and one of them lies outside the cave, nothing
    /// is drawn and the answer is no.
    pub fn paint_path(&mut self, corners: &Vec<Pos>) -> (ok: bool)
        requires
            is_cave(old(self)@),
        ensures
            ok == (corners@.len() < 2 || forall|k: int|
                0 <= k < corners@.len() ==> in_cave(#[trigger] places(corners@)[k])),
            !ok ==> *final(self) == *old(self),
            ok ==> is_cave(final(self)@) && final(self).sand_count == old(self).sand_count
                && final(self).lowest_y == lowest_after(
                old(self).lowest_y as int,
                places(corners@),
                (if corners@.len() == 0 {
                    0
                } else {
                    corners@.len() - 1
                }) as nat,
            ) && forall|p: (int, int)|
                in_cave(p) ==> #[trigger] filling(final(self)@, p) == (if on_path(
                    places(corners@),
                    p,
                ) {
                    Square::Rock
                } else {
                    filling(old(self)@, p)
                }),
    {
        let ghost cs = places(corners@);
        if corners.len() < 2 {
            return true;
        }
        let total = corners.len();
        let mut k: usize = 0;
        while k < corners.len()
            invariant
                k <= corners@.len(),
                corners@.len() >= 2,
                cs == places(corners@),
                forall|j: int| 0 <= j < k ==> in_cave(#[trigger] cs[j]),
            decreases corners@.len() - k,
        {
            let c = corners[k];
            let inside = c.0 >= MAP_OFFSET as isize && c.0 < (MAP_OFFSET + MAP_WIDTH) as isize && c.1
                >= 0 && c.1 < MAP_HEIGHT as isize;
            if !inside {
                assert(!in_cave(cs[k as int]));
                return false;
            }
            k += 1;
        }
        let mut n: usize = 0;
        while n + 1 < total
            invariant
                n + 1 <= corners@.len(),
                total == corners@.len(),
                corners@.len() >= 2,
                cs == places(corners@),
                forall|j: int| 0 <= j < corners@.len() ==> in_cave(#[trigger] cs[j]),
                is_cave(self@),
                self.sand_count == old(self).sand_count,
                self.lowest_y == lowest_after(old(self).lowest_y as int, cs, n as nat),
                forall|p: (int, int)|
                    in_cave(p) ==> #[trigger] filling(self@, p) == (if on_path(cs.take(n + 1), p) {
                        Square::Rock
                    } else {
                        filling(old(self)@, p)
                    }),
            decreases corners@.len() - n,
        {
            let from = corners[n];
            let to = corners[n + 1];
            let ghost prior = self@;
            proof {
                assert(cs[n as int] == (from.0 as int, from.1 as int));
                assert(cs[n + 1] == (to.0 as int, to.1 as int));
            }
            self.paint(from, to);
            proof {
                let short = cs.take(n + 1);
                let long = cs.take(n + 2);
                assert forall|p: (int, int)| in_cave(p) implies #[trigger] filling(self@, p) == (
                if on_path(long, p) {
                    Square::Rock
                } else {
                    filling(old(self)@, p)
                }) by {
                    assert(filling(prior, p) == (if on_path(short, p) {
                        Square::Rock
                    } else {
                        filling(old(self)@, p)
                    }));
                    if on_path(short, p) {
                        let j = choose|j: int|
                            0 <= j < short.len() - 1 && #[trigger] on_line(short[j], short[j + 1], p);
                        assert(on_line(long[j], long[j + 1], p));
                    }
                    if on_line(cs[n as int], cs[n + 1], p) {
                        assert(on_line(long[n as int], long[n + 1], p));
                    }
                    if on_path(long, p) {
                        let j = choose|j: int|
                            0 <= j < long.len() - 1 && #[trigger] on_line(long[j], long[j + 1], p);
                        if j < n {
                            assert(on_line(short[j], short[j + 1], p));
                        }
                    }
                }
            }
            n += 1;
        }
        proof {
            assert(cs.take(corners@.len() as int) =~= cs);
        }
        true
    }
}

} // verus!
