//! A walk over a board of open and blocked squares, by a list of moves
//! and turns. The board is either flat, where the walker who leaves it on
//! one side comes back in on the other, or the net of a cube whose faces
//! are fifty squares wide.

use crate::text::{digit_value, is_digit};
use vstd::prelude::*;

verus! {

/// Where the walker stands and which way it faces: east, south, west or
/// north, counted from zero.
#[derive(Copy, Clone)]
pub struct State {
    pub x: isize,
    pub y: isize,
    pub rotation: isize,
}

/// A square: not part of the board, open, or blocked.
#[derive(Copy, Clone, PartialEq, Eq, Structural)]
pub enum Piece {
    OffMap,
    Open,
    Blocked,
}

/// A turn to the left or right, or a number of steps ahead.
#[derive(Copy, Clone)]
pub enum Instruction {
    Left,
    Right,
    Move(usize),
}

/// The squares line by line, and whether they are the net of a cube.
pub struct Board {
    pub cube: bool,
    pub lines: Vec<Vec<Piece>>,
}

/// The way faced after a turn by `dir`: past north comes east again, and
/// before east comes north.
pub open spec fn turned(rotation: int, dir: int) -> int {
    if rotation + dir < 0 {
        3
    } else if rotation + dir > 3 {
        0
    } else {
        rotation + dir
    }
}

/// The step that a walker takes who faces the way `rotation`.
pub open spec fn heading(rotation: int) -> (int, int) {
    if rotation == 0 {
        (1, 0)
    } else if rotation == 1 {
        (0, 1)
    } else if rotation == 2 {
        (-1, 0)
    } else {
        (0, -1)
    }
}

/// The face on which a square lies, counted from one; a square just
/// outside the board lies on face zero.
pub open spec fn face(x: int, y: int) -> (int, int) {
    ((x + 50) / 50, (y + 50) / 50)
}

/// Whether a face is one of the six of the net.
pub open spec fn is_face(f: (int, int)) -> bool {
    f == (2int, 1int) || f == (3int, 1int) || f == (2int, 2int) || f == (1int, 3int) || f == (
        2int,
        3int,
    ) || f == (1int, 4int)
}

/// Whether a walker stands on the net and faces one of the four ways.
pub open spec fn on_net(s: (int, int, int)) -> bool {
    0 <= s.0 && 0 <= s.1 && is_face(face(s.0, s.1)) && 0 <= s.2 < 4
}

/// The walker that enters face `b` on its left edge, `i` squares from
/// the top.
pub open spec fn from_left(i: int, b: (int, int)) -> (int, int, int) {
    ((b.0 - 1) * 50, (b.1 - 1) * 50 + i, 0)
}

/// The walker that enters face `b` on its right edge, `i` squares from
/// the top.
pub open spec fn from_right(i: int, b: (int, int)) -> (int, int, int) {
    ((b.0 - 1) * 50 + 49, (b.1 - 1) * 50 + i, 2)
}

/// The walker that enters face `b` on its upper edge, `i` squares from
/// the left.
pub open spec fn from_above(i: int, b: (int, int)) -> (int, int, int) {
    ((b.0 - 1) * 50 + i, (b.1 - 1) * 50, 1)
}

/// The walker that enters face `b` on its lower edge, `i` squares from
/// the left.
pub open spec fn from_below(i: int, b: (int, int)) -> (int, int, int) {
    ((b.0 - 1) * 50 + i, (b.1 - 1) * 50 + 49, 3)
}

/// Where a step ahead takes a walker on the net of the cube: to the next
/// square, or over an edge of the net to the face that the folded cube
/// has there. None where the walker leaves a face that is none of the
/// six.
pub open spec fn cube_step(s: (int, int, int)) -> Option<(int, int, int)> {
    let d = heading(s.2);
    let next = (s.0 + d.0, s.1 + d.1, s.2);
    let curs = face(s.0, s.1);
    let news = face(next.0, next.1);
    let x = s.0 % 50;
    let y = s.1 % 50;
    let y_flip = 49 - y;
    if curs == news {
        Some(next)
    } else if curs == (2int, 1int) {
        if news == (3int, 1int) || news == (2int, 2int) {
            Some(next)
        } else if news == (2int, 0int) {
            Some(from_left(x, (1, 4)))
        } else if news == (1int, 1int) {
            Some(from_left(y_flip, (1, 3)))
        } else {
            None
        }
    } else if curs == (1int, 3int) {
        if news == (1int, 4int) || news == (2int, 3int) {
            Some(next)
        } else if news == (0int, 3int) {
            Some(from_left(y_flip, (2, 1)))
        } else if news == (1int, 2int) {
            Some(from_left(x, (2, 2)))
        } else {
            None
        }
    } else if curs == (1int, 4int) {
        if news == (1int, 3int) {
            Some(next)
        } else if news == (0int, 4int) {
            Some(from_above(y, (2, 1)))
        } else if news == (1int, 5int) {
            Some(from_above(x, (3, 1)))
        } else if news == (2int, 4int) {
            Some(from_below(y, (2, 3)))
        } else {
            None
        }
    } else if curs == (2int, 3int) {
        if news == (1int, 3int) || news == (2int, 2int) {
            Some(next)
        } else if news == (2int, 4int) {
            Some(from_right(x, (1, 4)))
        } else if news == (3int, 3int) {
            Some(from_right(y_flip, (3, 1)))
        } else {
            None
        }
    } else if curs == (2int, 2int) {
        if news == (2int, 1int) || news == (2int, 3int) {
            Some(next)
        } else if news == (3int, 2int) {
            Some(from_below(y, (3, 1)))
        } else if news == (1int, 2int) {
            Some(from_above(y, (1, 3)))
        } else {
            None
        }
    } else if curs == (3int, 1int) {
        if news == (2int, 1int) {
            Some(next)
        } else if news == (4int, 1int) {
            Some(from_right(y_flip, (2, 3)))
        } else if news == (3int, 0int) {
            Some(from_below(x, (1, 4)))
        } else if news == (3int, 2int) {
            Some(from_right(x, (2, 2)))
        } else {
            None
        }
    } else {
        None
    }
}

/// The walker turned round.
pub open spec fn about(s: (int, int, int)) -> (int, int, int) {
    (s.0, s.1, (s.2 + 2) % 4)
}

/// A step on the net of the cube ends on the net.
#[verifier::spinoff_prover]
pub proof fn law_cube_step_stays(s: (int, int, int))
    requires
        on_net(s),
    ensures
        cube_step(s) is Some,
        on_net(cube_step(s)->0),
{
}

/// A step on the net of the cube can be taken back: the walker who turns
/// round after it and takes another step stands where it stood, turned
/// round.
pub proof fn law_cube_step_back(s: (int, int, int))
    requires
        on_net(s),
    ensures
        cube_step(about(cube_step(s)->0)) == Some(about(s)),
{
    lemma_step_back_facing(s, face(s.0, s.1));
}

/// The same for a walker on a given face.
#[verifier::spinoff_prover]
#[verifier::rlimit(50)]
proof fn lemma_step_back_facing(s: (int, int, int), f: (int, int))
    requires
        on_net(s),
        f == face(s.0, s.1),
    ensures
        cube_step(about(cube_step(s)->0)) == Some(about(s)),
{
    let x = s.0 % 50;
    let y = s.1 % 50;
    assert(s.0 == (f.0 - 1) * 50 + x && 0 <= x < 50);
    assert(s.1 == (f.1 - 1) * 50 + y && 0 <= y < 50);
    let to = cube_step(s)->0;
    let g = face(to.0, to.1);
    assert(to.0 == (g.0 - 1) * 50 + to.0 % 50 && 0 <= to.0 % 50 < 50);
    assert(to.1 == (g.1 - 1) * 50 + to.1 % 50 && 0 <= to.1 % 50 < 50);
    lemma_step_back_known(s, f, to, g);
}

/// The same for a walker of which the face, the next place and its face
/// are given.
#[verifier::spinoff_prover]
#[verifier::rlimit(50)]
proof fn lemma_step_back_known(s: (int, int, int), f: (int, int), to: (int, int, int), g: (int, int))
    requires
        on_net(s),
        f == face(s.0, s.1),
        s.0 == (f.0 - 1) * 50 + s.0 % 50,
        0 <= s.0 % 50 < 50,
        s.1 == (f.1 - 1) * 50 + s.1 % 50,
        0 <= s.1 % 50 < 50,
        cube_step(s) == Some(to),
        on_net(to),
        g == face(to.0, to.1),
        to.0 == (g.0 - 1) * 50 + to.0 % 50,
        0 <= to.0 % 50 < 50,
        to.1 == (g.1 - 1) * 50 + to.1 % 50,
        0 <= to.1 % 50 < 50,
    ensures
        cube_step(about(to)) == Some(about(s)),
{
    let back = about(to);
    let d = heading(back.2);
    let over = face(back.0 + d.0, back.1 + d.1);
    if f == (2int, 1int) {
        assert(cube_step(back) == Some(about(s)));
    } else if f == (3int, 1int) {
        assert(cube_step(back) == Some(about(s)));
    } else if f == (2int, 2int) {
        assert(cube_step(back) == Some(about(s)));
    } else if f == (1int, 3int) {
        assert(cube_step(back) == Some(about(s)));
    } else if f == (2int, 3int) {
        assert(cube_step(back) == Some(about(s)));
    } else {
        assert(cube_step(back) == Some(about(s)));
    }
}

impl State {
    /// The place and the way faced as numbers.
    pub open spec fn view(&self) -> (int, int, int) {
        (self.x as int, self.y as int, self.rotation as int)
    }

    /// Turns by `dir`.
    pub fn rotate(&mut self, dir: isize)
        requires
            isize::MIN <= old(self).rotation + dir <= isize::MAX,
        ensures
            final(self).x == old(self).x,
            final(self).y == old(self).y,
            final(self).rotation == turned(old(self).rotation as int, dir as int),
    {
        self.rotation += dir;
        if self.rotation < 0 {
            self.rotation = 3;
        } else if self.rotation > 3 {
            self.rotation = 0;
        }
    }
}

/// The step that a walker takes who faces the way `rotation`.
fn step_of(rotation: isize) -> (d: (isize, isize))
    requires
        0 <= rotation < 4,
    ensures
        (d.0 as int, d.1 as int) == heading(rotation as int),
{
    if rotation == 0 {
        (1, 0)
    } else if rotation == 1 {
        (0, 1)
    } else if rotation == 2 {
        (-1, 0)
    } else {
        (0, -1)
    }
}

/// The face on which a square lies.
fn face_of(x: isize, y: isize) -> (f: (isize, isize))
    requires
        -1 <= x <= isize::MAX - 50,
        -1 <= y <= isize::MAX - 50,
    ensures
        (f.0 as int, f.1 as int) == face(x as int, y as int),
{
    ((x + 50) / 50, (y + 50) / 50)
}

/// The walker that enters a face on its left edge.
fn to_left(i: isize, b: (isize, isize)) -> (s: State)
    requires
        0 <= i < 50,
        1 <= b.0 <= 4,
        1 <= b.1 <= 4,
    ensures
        s@ == from_left(i as int, (b.0 as int, b.1 as int)),
{
    State { x: (b.0 - 1) * 50, y: (b.1 - 1) * 50 + i, rotation: 0 }
}

/// The walker that enters a face on its right edge.
fn to_right(i: isize, b: (isize, isize)) -> (s: State)
    requires
        0 <= i < 50,
        1 <= b.0 <= 4,
        1 <= b.1 <= 4,
    ensures
        s@ == from_right(i as int, (b.0 as int, b.1 as int)),
{
    State { x: (b.0 - 1) * 50 + 49, y: (b.1 - 1) * 50 + i, rotation: 2 }
}

/// The walker that enters a face on its upper edge.
fn to_up(i: isize, b: (isize, isize)) -> (s: State)
    requires
        0 <= i < 50,
        1 <= b.0 <= 4,
        1 <= b.1 <= 4,
    ensures
        s@ == from_above(i as int, (b.0 as int, b.1 as int)),
{
    State { x: (b.0 - 1) * 50 + i, y: (b.1 - 1) * 50, rotation: 1 }
}

/// The walker that enters a face on its lower edge.
fn to_down(i: isize, b: (isize, isize)) -> (s: State)
    requires
        0 <= i < 50,
        1 <= b.0 <= 4,
        1 <= b.1 <= 4,
    ensures
        s@ == from_below(i as int, (b.0 as int, b.1 as int)),
{
    State { x: (b.0 - 1) * 50 + i, y: (b.1 - 1) * 50 + 49, rotation: 3 }
}

/// Whether the lines of a board are of one length, and there is a line,
/// and neither the lines nor their length are more than a million.
pub open spec fn even(lines: Seq<Seq<Piece>>) -> bool {
    &&& 0 < lines.len() <= 1_000_000
    &&& 0 < lines[0].len() <= 1_000_000
    &&& forall|y: int| 0 <= y < lines.len() ==> (#[trigger] lines[y]).len() == lines[0].len()
}

/// A number brought into the range from zero up to `n` by adding or
/// taking away `n` as often as it takes.
pub open spec fn wrapped(a: int, n: int) -> int {
    a % n
}

/// The square `k` steps ahead of a walker on a flat board, where the one
/// who leaves on one side comes back in on the other.
pub open spec fn hop(lines: Seq<Seq<Piece>>, s: (int, int, int), k: int) -> (int, int) {
    (
        wrapped(s.0 + k * heading(s.2).0, lines[0].len() as int),
        wrapped(s.1 + k * heading(s.2).1, lines.len() as int),
    )
}

/// Whether the square `k` steps ahead of a walker on a flat board is part
/// of the board.
pub open spec fn lands(lines: Seq<Seq<Piece>>, s: (int, int, int), k: int) -> bool {
    lines[hop(lines, s, k).1][hop(lines, s, k).0] != Piece::OffMap
}

/// One step more on a flat board, from one square to the next.
pub proof fn lemma_hop_next(lines: Seq<Seq<Piece>>, s: (int, int, int), k: int)
    requires
        even(lines),
        0 <= s.2 < 4,
    ensures
        ({
            let w = lines[0].len() as int;
            let h = lines.len() as int;
            let d = heading(s.2);
            let at = hop(lines, s, k);
            let to = hop(lines, s, k + 1);
            &&& 0 <= at.0 < w
            &&& 0 <= at.1 < h
            &&& to.0 == if at.0 + d.0 < 0 {
                w - 1
            } else if at.0 + d.0 >= w {
                0
            } else {
                at.0 + d.0
            }
            &&& to.1 == if at.1 + d.1 < 0 {
                h - 1
            } else if at.1 + d.1 >= h {
                0
            } else {
                at.1 + d.1
            }
        }),
{
    let w = lines[0].len() as int;
    let h = lines.len() as int;
    let d = heading(s.2);
    lemma_wrapped_next(s.0 + k * d.0, d.0, w);
    lemma_wrapped_next(s.1 + k * d.1, d.1, h);
    assert(s.0 + (k + 1) * d.0 == s.0 + k * d.0 + d.0) by (nonlinear_arith);
    assert(s.1 + (k + 1) * d.1 == s.1 + k * d.1 + d.1) by (nonlinear_arith);
}

/// A number one apart from another, both brought into range.
pub proof fn lemma_wrapped_next(a: int, d: int, n: int)
    requires
        n > 0,
        -1 <= d <= 1,
    ensures
        0 <= wrapped(a, n) < n,
        wrapped(a + d, n) == if wrapped(a, n) + d < 0 {
            n - 1
        } else if wrapped(a, n) + d >= n {
            0
        } else {
            wrapped(a, n) + d
        },
{
    vstd::arithmetic::div_mod::lemma_fundamental_div_mod(a, n);
    vstd::arithmetic::div_mod::lemma_mod_bound(a, n);
    let q = a / n;
    let r = a % n;
    assert((q - 1) * n + n == q * n && (q + 1) * n == q * n + n && q * n == n * q)
        by (nonlinear_arith);
    if r + d < 0 {
        vstd::arithmetic::div_mod::lemma_fundamental_div_mod_converse(a + d, n, q - 1, n - 1);
    } else if r + d >= n {
        vstd::arithmetic::div_mod::lemma_fundamental_div_mod_converse(a + d, n, q + 1, 0);
    } else {
        vstd::arithmetic::div_mod::lemma_fundamental_div_mod_converse(a + d, n, q, r + d);
    }
}

/// After as many steps as the board is wide or high, the walker on a
/// flat board is back where it stood.
pub proof fn lemma_hop_round(lines: Seq<Seq<Piece>>, s: (int, int, int))
    requires
        even(lines),
        0 <= s.2 < 4,
        0 <= s.0 < lines[0].len(),
        0 <= s.1 < lines.len(),
    ensures
        hop(lines, s, 0) == (s.0, s.1),
        hop(lines, s, (lines[0].len() * lines.len()) as int) == (s.0, s.1),
{
    let w = lines[0].len() as int;
    let h = lines.len() as int;
    let d = heading(s.2);
    vstd::arithmetic::div_mod::lemma_small_mod(s.0 as nat, w as nat);
    vstd::arithmetic::div_mod::lemma_small_mod(s.1 as nat, h as nat);
    assert(s.0 + 0 * d.0 == s.0);
    assert(s.1 + 0 * d.1 == s.1);
    assert(s.0 + (w * h) * d.0 == (h * d.0) * w + s.0) by (nonlinear_arith);
    assert(s.1 + (w * h) * d.1 == (w * d.1) * h + s.1) by (nonlinear_arith);
    vstd::arithmetic::div_mod::lemma_fundamental_div_mod_converse(
        (h * d.0) * w + s.0,
        w,
        h * d.0,
        s.0,
    );
    vstd::arithmetic::div_mod::lemma_fundamental_div_mod_converse(
        (w * d.1) * h + s.1,
        h,
        w * d.1,
        s.1,
    );
}

/// Whether the square `k` steps ahead of a walker on a flat board is the
/// first ahead that is part of the board.
pub open spec fn first_landing(lines: Seq<Seq<Piece>>, s: (int, int, int), k: int) -> bool {
    &&& 1 <= k
    &&& lands(lines, s, k)
    &&& forall|j: int| 1 <= j < k ==> !#[trigger] lands(lines, s, j)
}

/// Where a step ahead takes a walker on a flat board: to the first
/// square ahead that is part of the board.
pub open spec fn flat_step(lines: Seq<Seq<Piece>>, s: (int, int, int)) -> (int, int, int) {
    let k = choose|k: int| first_landing(lines, s, k);
    (hop(lines, s, k).0, hop(lines, s, k).1, s.2)
}

/// There is one first square ahead that is part of the board, and no
/// other.
pub proof fn lemma_first_landing(lines: Seq<Seq<Piece>>, s: (int, int, int), k: int)
    requires
        first_landing(lines, s, k),
    ensures
        flat_step(lines, s) == (hop(lines, s, k).0, hop(lines, s, k).1, s.2),
{
    let c = choose|c: int| first_landing(lines, s, c);
    if c < k {
        assert(!lands(lines, s, c));
    }
    if k < c {
        assert(!lands(lines, s, k));
    }
}

/// Where a step ahead takes a walker: over the net of a cube, or over a
/// flat board.
pub open spec fn one_step(lines: Seq<Seq<Piece>>, cube: bool, s: (int, int, int)) -> (
    int,
    int,
    int,
) {
    if cube {
        cube_step(s)->0
    } else {
        flat_step(lines, s)
    }
}

/// Where `len` steps ahead take a walker: it stops before the first
/// blocked square.
pub open spec fn walked(lines: Seq<Seq<Piece>>, cube: bool, s: (int, int, int), len: nat) -> (
    int,
    int,
    int,
)
    decreases len,
{
    if len == 0 {
        s
    } else {
        let next = one_step(lines, cube, s);
        if lines[next.1][next.0] == Piece::Blocked {
            s
        } else {
            walked(lines, cube, next, (len - 1) as nat)
        }
    }
}

/// Whether a walker stands where it can walk on: on the net of a cube
/// that the board holds, or on a square of a flat board.
pub open spec fn placed(lines: Seq<Seq<Piece>>, cube: bool, s: (int, int, int)) -> bool {
    &&& even(lines)
    &&& 0 <= s.2 < 4
    &&& if cube {
        on_net(s) && lines.len() >= 200 && lines[0].len() >= 150
    } else {
        0 <= s.0 < lines[0].len() && 0 <= s.1 < lines.len() && lines[s.1][s.0] != Piece::OffMap
    }
}

impl Board {
    /// The squares as a sequence of sequences.
    pub open spec fn view(&self) -> Seq<Seq<Piece>> {
        Seq::new(self.lines@.len(), |y: int| self.lines@[y]@)
    }

    /// Where a step ahead takes a walker on the net of the cube.
    pub fn next_piece_cube(&self, state: State) -> (next: State)
        requires
            on_net(state@),
        ensures
            Some(next@) == cube_step(state@),
            on_net(next@),
    {
        proof {
            law_cube_step_stays(state@);
        }
        let (dx, dy) = step_of(state.rotation);
        let next_state = State { x: state.x + dx, y: state.y + dy, rotation: state.rotation };
        let curs = face_of(state.x, state.y);
        let news = face_of(next_state.x, next_state.y);
        if curs.0 == news.0 && curs.1 == news.1 {
            return next_state;
        }
        let x = state.x % 50;
        let y = state.y % 50;
        let y_flip = 49 - y;
        let (cx, cy) = curs;
        let (nx, ny) = news;
        if cx == 2 && cy == 1 {
            if nx == 2 && ny == 0 {
                to_left(x, (1, 4))
            } else if nx == 1 && ny == 1 {
                to_left(y_flip, (1, 3))
            } else {
                next_state
            }
        } else if cx == 1 && cy == 3 {
            if nx == 0 && ny == 3 {
                to_left(y_flip, (2, 1))
            } else if nx == 1 && ny == 2 {
                to_left(x, (2, 2))
            } else {
                next_state
            }
        } else if cx == 1 && cy == 4 {
            if nx == 0 && ny == 4 {
                to_up(y, (2, 1))
            } else if nx == 1 && ny == 5 {
                to_up(x, (3, 1))
            } else if nx == 2 && ny == 4 {
                to_down(y, (2, 3))
            } else {
                next_state
            }
        } else if cx == 2 && cy == 3 {
            if nx == 2 && ny == 4 {
                to_right(x, (1, 4))
            } else if nx == 3 && ny == 3 {
                to_right(y_flip, (3, 1))
            } else {
                next_state
            }
        } else if cx == 2 && cy == 2 {
            if nx == 3 && ny == 2 {
                to_down(y, (3, 1))
            } else if nx == 1 && ny == 2 {
                to_up(y, (1, 3))
            } else {
                next_state
            }
        } else {
            if nx == 4 && ny == 1 {
                to_right(y_flip, (2, 3))
            } else if nx == 3 && ny == 0 {
                to_down(x, (1, 4))
            } else if nx == 3 && ny == 2 {
                to_right(x, (2, 2))
            } else {
                next_state
            }
        }
    }

    /// Where a step ahead takes a walker on a flat board: to the first
    /// square ahead that is part of the board, the squares beyond an edge
    /// being those of the other side.
    pub fn next_piece(&self, state: State) -> (next: State)
        requires
            even(self@),
            0 <= state.x < self@[0].len(),
            0 <= state.y < self@.len(),
            0 <= state.rotation < 4,
            self@[state.y as int][state.x as int] != Piece::OffMap,
        ensures
            exists|k: int| first_landing(self@, state@, k),
            next@ == flat_step(self@, state@),
            0 <= next.x < self@[0].len(),
            0 <= next.y < self@.len(),
            self@[next.y as int][next.x as int] != Piece::OffMap,
    {
        let (mut px, mut py) = (state.x, state.y);
        let (dx, dy) = step_of(state.rotation);
        let width = self.lines[0].len();
        let height = self.lines.len();
        let ghost k: int = 0;
        let ghost period: int = (self@[0].len() * self@.len()) as int;
        proof {
            assert(self@[0] == self.lines@[0]@);
            lemma_hop_round(self@, state@);
            assert(period >= 1) by (nonlinear_arith)
                requires
                    period == self@[0].len() * self@.len(),
                    self@[0].len() >= 1,
                    self@.len() >= 1,
            ;
            assert(lands(self@, state@, period as int));
        }
        loop
            invariant
                even(self@),
                width == self@[0].len(),
                height == self@.len(),
                height == self.lines@.len(),
                0 <= state.rotation < 4,
                (dx as int, dy as int) == heading(state.rotation as int),
                0 <= k < period,
                lands(self@, state@, period as int),
                (px as int, py as int) == hop(self@, state@, k),
                0 <= px < width,
                0 <= py < height,
                forall|j: int| 1 <= j <= k ==> !#[trigger] lands(self@, state@, j),
            decreases period - k,
        {
            proof {
                lemma_hop_next(self@, state@, k);
                lemma_hop_next(self@, state@, k + 1);
            }
            px += dx;
            py += dy;
            if px < 0 {
                px = (width - 1) as isize;
            } else if px >= width as isize {
                px = 0;
            }
            if py < 0 {
                py = (height - 1) as isize;
            } else if py >= height as isize {
                py = 0;
            }
            proof {
                k = k + 1;
                assert(self@[py as int] == self.lines@[py as int]@);
            }
            if self.lines[py as usize][px as usize] != Piece::OffMap {
                proof {
                    assert(first_landing(self@, state@, k));
                    lemma_first_landing(self@, state@, k);
                }
                return State { x: px, y: py, rotation: state.rotation };
            }
            proof {
                assert(!lands(self@, state@, k));
            }
        }
    }
}

impl Board {
    /// Takes up to `len` steps ahead, and stops before the first blocked
    /// square.
    pub fn move_piece(&mut self, state: State, len: usize) -> (end: State)
        requires
            placed(old(self)@, old(self).cube, state@),
        ensures
            *final(self) == *old(self),
            end@ == walked(old(self)@, old(self).cube, state@, len as nat),
            placed(old(self)@, old(self).cube, end@),
    {
        let mut at = state;
        let ghost lines = self@;
        let mut n: usize = 0;
        while n < len
            invariant
                n <= len,
                *self == *old(self),
                lines == self@,
                placed(lines, self.cube, at@),
                walked(lines, self.cube, state@, len as nat) == walked(
                    lines,
                    self.cube,
                    at@,
                    (len - n) as nat,
                ),
            decreases len - n,
        {
            let next = if self.cube {
                self.next_piece_cube(at)
            } else {
                self.next_piece(at)
            };
            assert(next@ == one_step(lines, self.cube, at@));
            assert(lines[next.y as int] == self.lines@[next.y as int]@);
            if self.lines[next.y as usize][next.x as usize] == Piece::Blocked {
                assert(walked(lines, self.cube, at@, (len - n) as nat) == at@);
                return at;
            } else {
                assert(walked(lines, self.cube, at@, (len - n) as nat) == walked(
                    lines,
                    self.cube,
                    next@,
                    (len - n - 1) as nat,
                ));
                at = next;
            }
            n += 1;
        }
        at
    }
}

/// The length of the longest of the first `n` lines.
pub open spec fn longest(chart: Seq<Seq<char>>, n: nat) -> nat
    decreases n,
{
    if n == 0 {
        0
    } else if chart[n - 1].len() > longest(chart, (n - 1) as nat) {
        chart[n - 1].len()
    } else {
        longest(chart, (n - 1) as nat)
    }
}

/// The square that a character stands for: a blank is no part of the
/// board, a dot is open, a hash is blocked.
pub open spec fn piece_of(c: char) -> Option<Piece> {
    if c == ' ' {
        Some(Piece::OffMap)
    } else if c == '.' {
        Some(Piece::Open)
    } else if c == '#' {
        Some(Piece::Blocked)
    } else {
        None
    }
}

/// The character in column `x` of a line; a blank beyond its end.
pub open spec fn char_at(line: Seq<char>, x: int) -> char {
    if 0 <= x < line.len() {
        line[x]
    } else {
        ' '
    }
}

/// Whether a chart has a line and every character of it stands for a
/// square.
pub open spec fn legible(chart: Seq<Seq<char>>) -> bool {
    &&& chart.len() > 0
    &&& forall|y: int, x: int|
        0 <= y < chart.len() && 0 <= x < chart[y].len() ==> piece_of(#[trigger] chart[y][x]) is Some
}

/// The lines of a chart as sequences of characters.
pub open spec fn chart_of(lines: &Vec<Vec<char>>) -> Seq<Seq<char>> {
    Seq::new(lines@.len(), |i: int| lines@[i]@)
}

/// No line is longer than the longest.
pub proof fn lemma_longest(chart: Seq<Seq<char>>, n: nat, y: int)
    requires
        0 <= y < n,
    ensures
        chart[y].len() <= longest(chart, n),
    decreases n,
{
    if y < n - 1 {
        lemma_longest(chart, (n - 1) as nat, y);
    }
}

/// The square that a character stands for.
fn piece_for(c: char) -> (r: Option<Piece>)
    ensures
        r == piece_of(c),
{
    if c == ' ' {
        Some(Piece::OffMap)
    } else if c == '.' {
        Some(Piece::Open)
    } else if c == '#' {
        Some(Piece::Blocked)
    } else {
        None
    }
}

impl Board {
    /// The flat board of a chart: every line is as long as the longest,
    /// and what a line lacks is no part of the board.
    pub fn read(lines: &Vec<Vec<char>>) -> (r: Option<Board>)
        ensures
            r is Some == legible(chart_of(lines)),
            match r {
                Some(b) => {
                    &&& !b.cube
                    &&& b@.len() == lines@.len()
                    &&& forall|y: int|
                        0 <= y < b@.len() ==> (#[trigger] b@[y]).len() == longest(
                            chart_of(lines),
                            lines@.len() as nat,
                        )
                    &&& forall|y: int, x: int|
                        0 <= y < b@.len() && 0 <= x < b@[y].len() ==> Some(#[trigger] b@[y][x])
                            == piece_of(char_at(chart_of(lines)[y], x))
                },
                None => true,
            },
    {
        let ghost chart = chart_of(lines);
        if lines.len() == 0 {
            return None;
        }
        let mut len: usize = 0;
        let mut k: usize = 0;
        while k < lines.len()
            invariant
                k <= lines@.len(),
                chart == chart_of(lines),
                len == longest(chart, k as nat),
            decreases lines@.len() - k,
        {
            assert(chart[k as int] == lines@[k as int]@);
            if lines[k].len() > len {
                len = lines[k].len();
            }
            k += 1;
        }
        let mut board = Board { lines: Vec::new(), cube: false };
        let mut y: usize = 0;
        while y < lines.len()
            invariant
                y <= lines@.len(),
                chart == chart_of(lines),
                len == longest(chart, lines@.len() as nat),
                !board.cube,
                board.lines@.len() == y,
                forall|j: int| 0 <= j < y ==> (#[trigger] board.lines@[j])@.len() == len,
                forall|j: int, x: int|
                    0 <= j < y && 0 <= x < len ==> Some(#[trigger] board.lines@[j]@[x]) == piece_of(
                        char_at(chart[j], x),
                    ),
            decreases lines@.len() - y,
        {
            let chars = &lines[y];
            assert(chart[y as int] == chars@);
            let mut board_line: Vec<Piece> = Vec::new();
            let mut n: usize = 0;
            while n < len
                invariant
                    n <= len,
                    y < lines@.len(),
                    chart == chart_of(lines),
                    chars@ == chart[y as int],
                    board_line@.len() == n,
                    forall|x: int|
                        0 <= x < n ==> Some(#[trigger] board_line@[x]) == piece_of(
                            char_at(chars@, x),
                        ),
                decreases len - n,
            {
                let c = if n < chars.len() {
                    chars[n]
                } else {
                    ' '
                };
                match piece_for(c) {
                    Some(p) => {
                        board_line.push(p);
                    },
                    None => {
                        proof {
                            assert(piece_of(chart[y as int][n as int]) is None);
                        }
                        return None;
                    },
                }
                n += 1;
            }
            board.lines.push(board_line);
            y += 1;
        }
        proof {
            assert forall|j: int, x: int|
                0 <= j < chart.len() && 0 <= x < chart[j].len() implies piece_of(
                #[trigger] chart[j][x],
            ) is Some by {
                lemma_longest(chart, chart.len(), j);
                assert(Some(board.lines@[j]@[x]) == piece_of(char_at(chart[j], x)));
            }
            assert forall|j: int| 0 <= j < board@.len() implies (#[trigger] board@[j]).len()
                == len by {
                assert(board@[j] == board.lines@[j]@);
            }
            assert forall|j: int, x: int|
                0 <= j < board@.len() && 0 <= x < board@[j].len() implies Some(
                #[trigger] board@[j][x],
            ) == piece_of(char_at(chart[j], x)) by {
                assert(board@[j] == board.lines@[j]@);
            }
        }
        Some(board)
    }
}

/// The board, the moves and turns, and the walker.
pub struct Game {
    pub board: Board,
    pub instructions: Vec<Instruction>,
    pub state: State,
}

/// The walker after a move or turn.
pub open spec fn obeyed(lines: Seq<Seq<Piece>>, cube: bool, s: (int, int, int), i: Instruction) -> (
    int,
    int,
    int,
) {
    match i {
        Instruction::Left => (s.0, s.1, turned(s.2, -1)),
        Instruction::Right => (s.0, s.1, turned(s.2, 1)),
        Instruction::Move(len) => walked(lines, cube, s, len as nat),
    }
}

/// The walker after the first `n` moves and turns of a list.
pub open spec fn followed(
    lines: Seq<Seq<Piece>>,
    cube: bool,
    s: (int, int, int),
    list: Seq<Instruction>,
    n: nat,
) -> (int, int, int)
    decreases n,
{
    if n == 0 {
        s
    } else {
        obeyed(lines, cube, followed(lines, cube, s, list, (n - 1) as nat), list[n - 1])
    }
}

/// The first open square of a line among its first `n`, if any.
pub open spec fn first_open(line: Seq<Piece>, n: nat) -> Option<int>
    decreases n,
{
    if n == 0 {
        None
    } else {
        match first_open(line, (n - 1) as nat) {
            Some(x) => Some(x),
            None => if line[n - 1] == Piece::Open {
                Some(n - 1)
            } else {
                None
            },
        }
    }
}

/// The password of a place: a thousand times its line, four times its
/// column, both counted from one, and the way faced.
pub open spec fn code(s: (int, int, int)) -> int {
    (s.1 + 1) * 1000 + (s.0 + 1) * 4 + s.2
}

impl Game {
    /// A game with the walker in the upper left corner, facing east.
    pub fn new(board: Board, instructions: Vec<Instruction>) -> (g: Game)
        ensures
            g.board == board,
            g.instructions == instructions,
            g.state@ == (0int, 0int, 0int),
    {
        Game { board, instructions, state: State { x: 0, y: 0, rotation: 0 } }
    }

    /// Takes the board as flat or as the net of a cube, and puts the
    /// walker on the first open square of the first line, facing east.
    /// Where the first line has no open square the walker stays, and the
    /// answer is no.
    pub fn reset(&mut self, cube: bool) -> (found: bool)
        requires
            old(self).board.lines@.len() > 0,
            old(self).board.lines@[0]@.len() <= isize::MAX,
        ensures
            final(self).board.cube == cube,
            final(self).board.lines == old(self).board.lines,
            final(self).instructions == old(self).instructions,
            match first_open(old(self).board@[0], old(self).board@[0].len()) {
                Some(x) => found && final(self).state@ == (x, 0int, 0int),
                None => !found && final(self).state == old(self).state,
            },
    {
        self.board.cube = cube;
        assert(self.board@[0] == self.board.lines@[0]@);
        let mut x: usize = 0;
        while x < self.board.lines[0].len()
            invariant
                x <= self.board.lines@[0]@.len(),
                self.board.lines@.len() > 0,
                self.board.lines@[0]@.len() <= isize::MAX,
                self.board.cube == cube,
                self.board.lines == old(self).board.lines,
                self.instructions == old(self).instructions,
                self.state == old(self).state,
                first_open(self.board.lines@[0]@, x as nat) is None,
            decreases self.board.lines@[0]@.len() - x,
        {
            if self.board.lines[0][x] == Piece::Open {
                self.state.x = x as isize;
                self.state.y = 0;
                self.state.rotation = 0;
                proof {
                    let line = self.board.lines@[0]@;
                    assert(first_open(line, (x + 1) as nat) == Some(x as int));
                    lemma_first_open(line, (x + 1) as nat, line.len());
                }
                return true;
            }
            x += 1;
        }
        false
    }

    /// Follows the moves and turns, and gives the password of the place
    /// where the walker ends: a thousand times its line, four times its
    /// column, both counted from one, and the way it faces.
    pub fn run(&mut self) -> (password: isize)
        requires
            placed(old(self).board@, old(self).board.cube, old(self).state@),
        ensures
            final(self).board == old(self).board,
            final(self).instructions == old(self).instructions,
            final(self).state@ == followed(
                old(self).board@,
                old(self).board.cube,
                old(self).state@,
                old(self).instructions@,
                old(self).instructions@.len(),
            ),
            placed(old(self).board@, old(self).board.cube, final(self).state@),
            password == code(final(self).state@),
    {
        let ghost lines = self.board@;
        let ghost cube = self.board.cube;
        let ghost first = self.state@;
        let mut n: usize = 0;
        while n < self.instructions.len()
            invariant
                n <= self.instructions@.len(),
                self.board == old(self).board,
                self.instructions == old(self).instructions,
                lines == self.board@,
                cube == self.board.cube,
                first == old(self).state@,
                placed(lines, cube, self.state@),
                self.state@ == followed(lines, cube, first, self.instructions@, n as nat),
            decreases self.instructions@.len() - n,
        {
            let i = self.instructions[n];
            match i {
                Instruction::Left => {
                    self.state.rotate(-1);
                },
                Instruction::Right => {
                    self.state.rotate(1);
                },
                Instruction::Move(length) => {
                    self.state = self.board.move_piece(self.state, length);
                },
            }
            n += 1;
        }
        proof {
            if cube {
                assert(self.state.x < 150 && self.state.y < 200);
            }
        }
        (self.state.y + 1) * 1000 + (self.state.x + 1) * 4 + self.state.rotation
    }
}

/// The first open square among some squares of a line is the first among
/// more.
pub proof fn lemma_first_open(line: Seq<Piece>, n: nat, m: nat)
    requires
        n <= m,
        first_open(line, n) is Some,
    ensures
        first_open(line, m) == first_open(line, n),
    decreases m,
{
    if n < m {
        lemma_first_open(line, n, (m - 1) as nat);
    }
}

impl Game {
    /// Whether the walker stands where it can walk on.
    pub fn can_run(&self) -> (b: bool)
        ensures
            b == placed(self.board@, self.board.cube, self.state@),
    {
        let height = self.board.lines.len();
        if height == 0 || height > 1_000_000 {
            return false;
        }
        let width = self.board.lines[0].len();
        assert(self.board@[0] == self.board.lines@[0]@);
        if width == 0 || width > 1_000_000 {
            return false;
        }
        let mut y: usize = 0;
        while y < height
            invariant
                y <= height,
                height == self.board.lines@.len(),
                width == self.board@[0].len(),
                forall|j: int| 0 <= j < y ==> (#[trigger] self.board@[j]).len() == width,
            decreases height - y,
        {
            assert(self.board@[y as int] == self.board.lines@[y as int]@);
            if self.board.lines[y].len() != width {
                return false;
            }
            y += 1;
        }
        let s = self.state;
        if s.rotation < 0 || s.rotation > 3 || s.x < 0 || s.y < 0 {
            return false;
        }
        if self.board.cube {
            if s.x >= 200 || s.y >= 250 || height < 200 || width < 150 {
                return false;
            }
            let (fx, fy) = face_of(s.x, s.y);
            (fx == 2 && fy == 1) || (fx == 3 && fy == 1) || (fx == 2 && fy == 2) || (fx == 1 && fy
                == 3) || (fx == 2 && fy == 3) || (fx == 1 && fy == 4)
        } else {
            if s.x >= width as isize || s.y >= height as isize {
                return false;
            }
            assert(self.board@[s.y as int] == self.board.lines@[s.y as int]@);
            self.board.lines[s.y as usize][s.x as usize] != Piece::OffMap
        }
    }
}

/// The moves and turns read from the first `n` characters of a path, and
/// the number whose digits were read last, if a digit was read last.
pub open spec fn scan(path: Seq<char>, n: nat) -> (Seq<Instruction>, Option<int>)
    decreases n,
{
    if n == 0 {
        (Seq::empty(), None)
    } else {
        let before = scan(path, (n - 1) as nat);
        let c = path[n - 1];
        if is_digit(c) {
            (
                before.0,
                Some(
                    10 * (match before.1 {
                        Some(v) => v,
                        None => 0,
                    }) + digit_value(c),
                ),
            )
        } else if c == 'L' {
            (flushed(before).push(Instruction::Left), None)
        } else if c == 'R' {
            (flushed(before).push(Instruction::Right), None)
        } else {
            (flushed(before), None)
        }
    }
}

/// The moves and turns read, the number read last made a move.
pub open spec fn flushed(read: (Seq<Instruction>, Option<int>)) -> Seq<Instruction> {
    match read.1 {
        Some(v) => read.0.push(Instruction::Move(v as usize)),
        None => read.0,
    }
}

/// Whether every number of a path can be counted.
pub open spec fn countable(path: Seq<char>) -> bool {
    forall|n: nat|
        n <= path.len() ==> match (#[trigger] scan(path, n)).1 {
            Some(v) => v <= usize::MAX,
            None => true,
        }
}

/// The moves and turns of a path: a run of digits is a move of so many
/// steps, `L` and `R` are turns, and any other character is passed over.
/// None where a number is too large.
pub fn read_path(path: &Vec<char>) -> (r: Option<Vec<Instruction>>)
    ensures
        r is Some == countable(path@),
        match r {
            Some(list) => list@ == flushed(scan(path@, path@.len())),
            None => true,
        },
{
    let mut out: Vec<Instruction> = Vec::new();
    let mut run: Option<usize> = None;
    let mut n: usize = 0;
    while n < path.len()
        invariant
            n <= path@.len(),
            out@ == scan(path@, n as nat).0,
            match run {
                Some(v) => scan(path@, n as nat).1 == Some(v as int),
                None => scan(path@, n as nat).1 is None,
            },
            forall|k: nat|
                k <= n ==> match (#[trigger] scan(path@, k)).1 {
                    Some(v) => v <= usize::MAX,
                    None => true,
                },
        decreases path@.len() - n,
    {
        let c = path[n];
        if c >= '0' && c <= '9' {
            let digit = (c as u32 - '0' as u32) as usize;
            let so_far = match run {
                Some(v) => v,
                None => 0,
            };
            let next = match so_far.checked_mul(10) {
                Some(m) => m.checked_add(digit),
                None => None,
            };
            match next {
                Some(v) => {
                    run = Some(v);
                },
                None => {
                    proof {
                        assert(scan(path@, (n + 1) as nat).1->0 > usize::MAX);
                    }
                    return None;
                },
            }
        } else {
            if let Some(v) = run {
                out.push(Instruction::Move(v));
            }
            if c == 'L' {
                out.push(Instruction::Left);
            } else if c == 'R' {
                out.push(Instruction::Right);
            }
            run = None;
        }
        n += 1;
    }
    if let Some(v) = run {
        out.push(Instruction::Move(v));
    }
    Some(out)
}

} // verus!
