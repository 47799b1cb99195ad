//! A patch of trees of known heights: which of them can be seen from
//! outside, and how far one sees from each.

use vstd::prelude::*;

verus! {

/// Largest number of rows and of columns of a patch.
pub const SPAN: usize = 0x7fff;

/// The patch is a rectangle of at least one row and of at most `SPAN`
/// rows and columns.
pub open spec fn is_patch(h: Seq<Vec<isize>>) -> bool {
    &&& 0 < h.len() <= SPAN
    &&& h[0]@.len() <= SPAN
    &&& forall|y: int| 0 <= y < h.len() ==> (#[trigger] h[y])@.len() == h[0]@.len()
}

/// Number of columns.
pub open spec fn cols(h: Seq<Vec<isize>>) -> int {
    h[0]@.len() as int
}

/// Whether `(x, y)` is a place of the patch.
pub open spec fn on_patch(h: Seq<Vec<isize>>, x: int, y: int) -> bool {
    0 <= x < cols(h) && 0 <= y < h.len()
}

/// The height of the tree at `(x, y)`.
pub open spec fn at(h: Seq<Vec<isize>>, x: int, y: int) -> int {
    h[y]@[x] as int
}

/// Whether the tree at `(x, y)` is taller than every tree that stands
/// `step` times `(dx, dy)` away from it, for the steps from `from` on that
/// stay on the patch, and taller than -1, the height of the open ground.
pub open spec fn clear(h: Seq<Vec<isize>>, x: int, y: int, dx: int, dy: int) -> bool {
    at(h, x, y) > -1 && forall|step: int|
        1 <= step && #[trigger] on_patch(h, x + step * dx, y + step * dy) ==> at(
            h,
            x + step * dx,
            y + step * dy,
        ) < at(h, x, y)
}

/// Whether the tree at `(x, y)` can be seen from outside the patch, along
/// its row or its column.
pub open spec fn visible(h: Seq<Vec<isize>>, x: int, y: int) -> bool {
    clear(h, x, y, -1, 0) || clear(h, x, y, 1, 0) || clear(h, x, y, 0, -1) || clear(h, x, y, 0, 1)
}

/// How many of the first `n` trees of row `y` can be seen.
pub open spec fn seen_in_row(h: Seq<Vec<isize>>, y: int, n: nat) -> nat
    decreases n,
{
    if n == 0 {
        0
    } else {
        seen_in_row(h, y, (n - 1) as nat) + (if visible(h, n - 1, y) {
            1nat
        } else {
            0nat
        })
    }
}

/// How many trees of the first `m` rows can be seen.
pub open spec fn seen_in_rows(h: Seq<Vec<isize>>, m: nat) -> nat
    decreases m,
{
    if m == 0 {
        0
    } else {
        seen_in_rows(h, (m - 1) as nat) + seen_in_row(h, m - 1, cols(h) as nat)
    }
}

/// A number of steps of size one, zero or minus one.
proof fn lemma_steps(k: int, d: int)
    requires
        -1 <= d <= 1,
    ensures
        k * d == (if d == 1 {
            k
        } else if d == -1 {
            -k
        } else {
            0
        }),
{
    assert(k * d == (if d == 1 {
        k
    } else if d == -1 {
        -k
    } else {
        0
    })) by (nonlinear_arith)
        requires
            -1 <= d <= 1,
    ;
}

/// Whether the tree at `(x, y)` is taller than open ground and than every
/// tree in direction `(dx, dy)` from it.
pub fn is_clear(h: &Vec<Vec<isize>>, x: usize, y: usize, dx: isize, dy: isize) -> (b: bool)
    requires
        is_patch(h@),
        on_patch(h@, x as int, y as int),
        (dx == 0 && (dy == 1 || dy == -1)) || (dy == 0 && (dx == 1 || dx == -1)),
    ensures
        b == clear(h@, x as int, y as int, dx as int, dy as int),
{
    let height = h[y][x];
    if height <= -1 {
        return false;
    }
    let rows = h.len() as isize;
    let width = h[0].len() as isize;
    let mut cx = x as isize + dx;
    let mut cy = y as isize + dy;
    let ghost mut step: int = 1;
    while 0 <= cx && cx < width && 0 <= cy && cy < rows
        invariant
            is_patch(h@),
            on_patch(h@, x as int, y as int),
            (dx == 0 && (dy == 1 || dy == -1)) || (dy == 0 && (dx == 1 || dx == -1)),
            rows == h@.len(),
            width == cols(h@),
            height == at(h@, x as int, y as int),
            step >= 1,
            cx == x + step * dx,
            cy == y + step * dy,
            -1 <= cx <= width,
            -1 <= cy <= rows,
            forall|s: int|
                1 <= s < step && #[trigger] on_patch(h@, x + s * dx, y + s * dy) ==> at(
                    h@,
                    x + s * dx,
                    y + s * dy,
                ) < height,
        decreases (if dx + dy > 0 {
            width + rows - cx - cy
        } else {
            cx + cy + 2
        }),
    {
        assert(h@[cy as int]@.len() == h@[0]@.len());
        if h[cy as usize][cx as usize] >= height {
            assert(on_patch(h@, x + step * dx, y + step * dy));
            return false;
        }
        cx = cx + dx;
        cy = cy + dy;
        proof {
            lemma_steps(step, dx as int);
            lemma_steps(step, dy as int);
            lemma_steps(step + 1, dx as int);
            lemma_steps(step + 1, dy as int);
            step = step + 1;
        }
    }
    proof {
        assert forall|s: int| 1 <= s && #[trigger] on_patch(h@, x + s * dx, y + s * dy) implies at(
            h@,
            x + s * dx,
            y + s * dy,
        ) < height by {
            if s >= step {
                lemma_steps(step, dx as int);
                lemma_steps(step, dy as int);
                lemma_steps(s, dx as int);
                lemma_steps(s, dy as int);
            }
        }
    }
    true
}

/// Whether the tree at `(x, y)` can be seen from outside the patch.
pub fn is_visible(h: &Vec<Vec<isize>>, x: usize, y: usize) -> (b: bool)
    requires
        is_patch(h@),
        on_patch(h@, x as int, y as int),
    ensures
        b == visible(h@, x as int, y as int),
{
    is_clear(h, x, y, -1, 0) || is_clear(h, x, y, 1, 0) || is_clear(h, x, y, 0, -1) || is_clear(
        h,
        x,
        y,
        0,
        1,
    )
}

/// How many trees of the patch can be seen from outside.
pub fn visible_count(h: &Vec<Vec<isize>>) -> (n: usize)
    requires
        is_patch(h@),
    ensures
        n == seen_in_rows(h@, h@.len()),
{
    let width = h[0].len();
    let mut n: usize = 0;
    let mut y: usize = 0;
    while y < h.len()
        invariant
            is_patch(h@),
            width == cols(h@),
            y <= h@.len(),
            n == seen_in_rows(h@, y as nat),
            n <= y * SPAN,
        decreases h@.len() - y,
    {
        let mut x: usize = 0;
        let mut row: usize = 0;
        while x < width
            invariant
                is_patch(h@),
                width == cols(h@),
                y < h@.len(),
                x <= width,
                row == seen_in_row(h@, y as int, x as nat),
                row <= x,
            decreases width - x,
        {
            if is_visible(h, x, y) {
                row += 1;
            }
            x += 1;
        }
        assert(y * SPAN + SPAN <= SPAN * SPAN + SPAN) by (nonlinear_arith)
            requires
                y <= SPAN,
        ;
        n = n + row;
        y += 1;
    }
    n
}

/// How many trees one sees from the tree at `(x, y)` in direction
/// `(dx, dy)`, looking on from the tree `step` steps away: all up to the
/// first that is as tall as the tree itself or taller, which is seen too,
/// or up to the edge of the patch.
pub open spec fn sight(h: Seq<Vec<isize>>, x: int, y: int, dx: int, dy: int, step: int) -> int
    decreases h.len() + cols(h) + 1 - step,
{
    if step < 1 || step > h.len() + cols(h) || !on_patch(h, x + step * dx, y + step * dy) {
        step - 1
    } else if at(h, x + step * dx, y + step * dy) >= at(h, x, y) {
        step
    } else {
        sight(h, x, y, dx, dy, step + 1)
    }
}

/// The scenic score of the tree at `(x, y)`: the product of how many
/// trees it sees to the left, to the right, up and down.
pub open spec fn scenic(h: Seq<Vec<isize>>, x: int, y: int) -> int {
    sight(h, x, y, -1, 0, 1) * sight(h, x, y, 1, 0, 1) * sight(h, x, y, 0, -1, 1) * sight(
        h,
        x,
        y,
        0,
        1,
        1,
    )
}

/// How many trees one sees from the tree at `(x, y)` in direction `(dx,
/// dy)`.
pub fn look(h: &Vec<Vec<isize>>, x: usize, y: usize, dx: isize, dy: isize) -> (dist: u64)
    requires
        is_patch(h@),
        on_patch(h@, x as int, y as int),
        (dx == 0 && (dy == 1 || dy == -1)) || (dy == 0 && (dx == 1 || dx == -1)),
    ensures
        dist == sight(h@, x as int, y as int, dx as int, dy as int, 1),
        dist <= SPAN,
{
    let height = h[y][x];
    let rows = h.len() as isize;
    let width = h[0].len() as isize;
    let mut cx = x as isize + dx;
    let mut cy = y as isize + dy;
    let mut dist: u64 = 1;
    while 0 <= cx && cx < width && 0 <= cy && cy < rows
        invariant
            is_patch(h@),
            on_patch(h@, x as int, y as int),
            (dx == 0 && (dy == 1 || dy == -1)) || (dy == 0 && (dx == 1 || dx == -1)),
            rows == h@.len(),
            width == cols(h@),
            height == at(h@, x as int, y as int),
            1 <= dist <= SPAN + 1,
            cx == x + dist * dx,
            cy == y + dist * dy,
            -1 <= cx <= width,
            -1 <= cy <= rows,
            on_patch(h@, cx as int, cy as int) ==> dist <= SPAN,
            sight(h@, x as int, y as int, dx as int, dy as int, 1) == sight(
                h@,
                x as int,
                y as int,
                dx as int,
                dy as int,
                dist as int,
            ),
        decreases (if dx + dy > 0 {
            width + rows - cx - cy
        } else {
            cx + cy + 2
        }),
    {
        assert(h@[cy as int]@.len() == h@[0]@.len());
        proof {
            lemma_steps(dist as int, dx as int);
            lemma_steps(dist as int, dy as int);
            lemma_steps(dist + 1, dx as int);
            lemma_steps(dist + 1, dy as int);
        }
        assert(dist <= rows + width);
        if h[cy as usize][cx as usize] >= height {
            return dist;
        }
        cx = cx + dx;
        cy = cy + dy;
        dist = dist + 1;
    }
    proof {
        lemma_steps(dist as int, dx as int);
        lemma_steps(dist as int, dy as int);
    }
    dist - 1
}

/// The scenic score of the tree at `(x, y)`.
pub fn score(h: &Vec<Vec<isize>>, x: usize, y: usize) -> (s: u64)
    requires
        is_patch(h@),
        on_patch(h@, x as int, y as int),
    ensures
        s == scenic(h@, x as int, y as int),
{
    let a = look(h, x, y, -1, 0);
    let b = look(h, x, y, 1, 0);
    let c = look(h, x, y, 0, -1);
    let d = look(h, x, y, 0, 1);
    assert(a * b <= SPAN * SPAN) by (nonlinear_arith)
        requires
            a <= SPAN,
            b <= SPAN,
    ;
    assert(a * b * c <= SPAN * SPAN * SPAN) by (nonlinear_arith)
        requires
            a * b <= SPAN * SPAN,
            c <= SPAN,
    ;
    assert(a * b * c * d <= SPAN * SPAN * SPAN * SPAN) by (nonlinear_arith)
        requires
            a * b * c <= SPAN * SPAN * SPAN,
            d <= SPAN,
    ;
    a * b * c * d
}

/// The highest scenic score of a tree of the patch, or `None` for a patch
/// without columns.
pub fn best_score(h: &Vec<Vec<isize>>) -> (r: Option<u64>)
    requires
        is_patch(h@),
    ensures
        r is None == (cols(h@) == 0),
        r matches Some(best) ==> (exists|x: int, y: int|
            on_patch(h@, x, y) && best == #[trigger] scenic(h@, x, y)) && forall|x: int, y: int|
            on_patch(h@, x, y) ==> #[trigger] scenic(h@, x, y) <= best,
{
    let width = h[0].len();
    if width == 0 {
        return None;
    }
    let mut best = score(h, 0, 0);
    let ghost mut best_at: (int, int) = (0, 0);
    let mut x: usize = 0;
    while x < width
        invariant
            is_patch(h@),
            width == cols(h@),
            x <= width,
            on_patch(h@, best_at.0, best_at.1),
            best == scenic(h@, best_at.0, best_at.1),
            forall|a: int, b: int|
                0 <= a < x && 0 <= b < h@.len() ==> #[trigger] scenic(h@, a, b) <= best,
        decreases width - x,
    {
        let mut y: usize = 0;
        while y < h.len()
            invariant
                is_patch(h@),
                width == cols(h@),
                x < width,
                y <= h@.len(),
                on_patch(h@, best_at.0, best_at.1),
                best == scenic(h@, best_at.0, best_at.1),
                forall|a: int, b: int|
                    0 <= a < x && 0 <= b < h@.len() ==> #[trigger] scenic(h@, a, b) <= best,
                forall|b: int| 0 <= b < y ==> #[trigger] scenic(h@, x as int, b) <= best,
            decreases h@.len() - y,
        {
            let s = score(h, x, y);
            if s > best {
                best = s;
                proof {
                    best_at = (x as int, y as int);
                }
            }
            y += 1;
        }
        x += 1;
    }
    Some(best)
}

/// The height that a character of the map stands for: its distance from
/// `0`.
pub fn height_of(c: char) -> (h: isize)
    ensures
        h == c as u32 - '0' as u32,
{
    if c == '0' {
        0
    } else {
        ((c as u32 as isize) - ('1' as u32 as isize)) + 1
    }
}

/// The heights that a line writes, a digit for each tree.
pub open spec fn heights_of(line: Seq<char>) -> Seq<isize> {
    Seq::new(line.len(), |x: int| (line[x] as u32 - '0' as u32) as isize)
}

/// The rows of heights that the first `n` lines write; an empty line
/// writes no row.
pub open spec fn rows_of(lines: Seq<Vec<char>>, n: nat) -> Seq<Seq<isize>>
    decreases n,
{
    if n == 0 {
        Seq::empty()
    } else if lines[n - 1]@.len() == 0 {
        rows_of(lines, (n - 1) as nat)
    } else {
        rows_of(lines, (n - 1) as nat).push(heights_of(lines[n - 1]@))
    }
}

/// The rows as sequences.
pub open spec fn rows_view(rows: Seq<Vec<isize>>) -> Seq<Seq<isize>> {
    Seq::new(rows.len(), |y: int| rows[y]@)
}

/// Reads the heights of the trees.
pub fn read_heights(lines: &Vec<Vec<char>>) -> (rows: Vec<Vec<isize>>)
    ensures
        rows_view(rows@) == rows_of(lines@, lines@.len()),
{
    let mut rows: Vec<Vec<isize>> = Vec::new();
    let mut y: usize = 0;
    while y < lines.len()
        invariant
            y <= lines@.len(),
            rows_view(rows@) == rows_of(lines@, y as nat),
        decreases lines@.len() - y,
    {
        let line = &lines[y];
        if line.len() > 0 {
            let mut row: Vec<isize> = Vec::new();
            let mut x: usize = 0;
            while x < line.len()
                invariant
                    x <= line@.len(),
                    row@ == heights_of(line@.take(x as int)),
                decreases line@.len() - x,
            {
                row.push(height_of(line[x]));
                x += 1;
                assert(row@ =~= heights_of(line@.take(x as int)));
            }
            assert(line@.take(line@.len() as int) =~= line@);
            let ghost before = rows_view(rows@);
            rows.push(row);
            assert(rows_view(rows@) =~= before.push(heights_of(line@)));
        }
        y += 1;
    }
    rows
}

} // verus!
