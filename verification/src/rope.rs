//! A rope of knots whose head is pulled about and whose other knots
//! follow, and the places that its tail visits.

use crate::text::{halves, plus_value, read_plus, split_once};
use vstd::prelude::*;

verus! {

/// A place: column and row.
pub type Place = (isize, isize);

/// Largest size of a coordinate that a knot may have.
pub const REACH: isize = 0x3fff_ffff;

/// One step towards `d`: its sign.
pub open spec fn toward(d: int) -> int {
    if d > 0 {
        1
    } else if d < 0 {
        -1
    } else {
        0
    }
}

/// Where a knot at `tail` goes when the knot before it stands at `head`:
/// it stays while it touches `head`, and otherwise makes one step towards
/// it in each direction in which they differ. Knots further apart than a
/// single pull leaves them stay as well, but for a diagonal gap, which is
/// closed by one step as soon as either distance is two.
pub open spec fn follow(head: (int, int), tail: (int, int)) -> (int, int) {
    let dx = head.0 - tail.0;
    let dy = head.1 - tail.1;
    if dx == 0 {
        if dy == 2 || dy == -2 {
            (tail.0, tail.1 + toward(dy))
        } else {
            tail
        }
    } else if dy == 0 {
        if dx == 2 || dx == -2 {
            (tail.0 + toward(dx), tail.1)
        } else {
            tail
        }
    } else if dx == 2 || dx == -2 || dy == 2 || dy == -2 {
        (tail.0 + toward(dx), tail.1 + toward(dy))
    } else {
        tail
    }
}

/// The knots after the first `n` of them have followed, each the knot
/// before it, the first knot having been moved already.
pub open spec fn settled(knots: Seq<(int, int)>, n: nat) -> Seq<(int, int)>
    decreases n,
{
    if n <= 1 {
        knots
    } else {
        let before = settled(knots, (n - 1) as nat);
        before.update(n - 1, follow(before[n - 2], before[n - 1]))
    }
}

/// The knots after the head has made one step in direction `dir` and the
/// others have followed.
pub open spec fn pulled(knots: Seq<(int, int)>, dir: (int, int)) -> Seq<(int, int)> {
    settled(knots.update(0, (knots[0].0 + dir.0, knots[0].1 + dir.1)), knots.len())
}

/// The knots after `n` steps in direction `dir`.
pub open spec fn pulled_times(knots: Seq<(int, int)>, dir: (int, int), n: nat) -> Seq<(int, int)>
    decreases n,
{
    if n == 0 {
        knots
    } else {
        pulled(pulled_times(knots, dir, (n - 1) as nat), dir)
    }
}

/// The places of the tail after each of the first `n` steps.
pub open spec fn tail_places(knots: Seq<(int, int)>, dir: (int, int), n: nat) -> Set<(int, int)>
    decreases n,
{
    if n == 0 {
        Set::empty()
    } else {
        tail_places(knots, dir, (n - 1) as nat).insert(pulled_times(knots, dir, n).last())
    }
}

/// The knots as places of integers.
pub open spec fn places(knots: Seq<Place>) -> Seq<(int, int)> {
    Seq::new(knots.len(), |i: int| (knots[i].0 as int, knots[i].1 as int))
}

/// The places as a set of places of integers.
pub open spec fn place_set(visited: Seq<Place>) -> Set<(int, int)> {
    Set::new(|p: (int, int)| exists|i: int| 0 <= i < visited.len() && p == (#[trigger] visited[i].0 as int, visited[i].1 as int))
}

/// A rope and the places its tail has visited, each place once.
pub struct RopeSim {
    pub knots: Vec<Place>,
    pub visited: Vec<Place>,
}

impl RopeSim {
    /// The rope has a head, every knot lies within reach, and no place is
    /// listed twice among the visited ones.
    pub open spec fn wf(&self) -> bool {
        &&& self.knots@.len() > 0
        &&& forall|i: int|
            0 <= i < self.knots@.len() ==> -REACH <= (#[trigger] self.knots@[i]).0 <= REACH && -REACH
                <= self.knots@[i].1 <= REACH
        &&& forall|i: int, j: int|
            0 <= i < j < self.visited@.len() ==> #[trigger] self.visited@[i] != #[trigger] self.visited@[j]
    }

    /// A rope of `count` knots that all lie at the origin, which counts as
    /// visited.
    pub fn new(count: usize) -> (sim: RopeSim)
        requires
            count > 0,
        ensures
            sim.wf(),
            sim.knots@ == Seq::new(count as nat, |i: int| (0isize, 0isize)),
            sim.visited@ == seq![(0isize, 0isize)],
    {
        let mut knots: Vec<Place> = Vec::new();
        while knots.len() < count
            invariant
                knots@.len() <= count,
                forall|i: int| 0 <= i < knots@.len() ==> knots@[i] == (0isize, 0isize),
            decreases count - knots@.len(),
        {
            knots.push((0, 0));
        }
        let mut visited: Vec<Place> = Vec::new();
        visited.push((0, 0));
        assert(knots@ =~= Seq::new(count as nat, |i: int| (0isize, 0isize)));
        RopeSim { knots, visited }
    }

    /// Notes a place as visited.
    pub fn visit(&mut self, p: Place)
        requires
            old(self).wf(),
        ensures
            final(self).wf(),
            final(self).knots == old(self).knots,
            place_set(final(self).visited@) == place_set(old(self).visited@).insert((p.0 as int, p.1 as int)),
            final(self).visited@.len() <= old(self).visited@.len() + 1,
    {
        let mut i: usize = 0;
        while i < self.visited.len()
            invariant
                i <= self.visited@.len(),
                *self == *old(self),
                self.wf(),
                forall|k: int| 0 <= k < i ==> self.visited@[k] != p,
            decreases self.visited@.len() - i,
        {
            if self.visited[i].0 == p.0 && self.visited[i].1 == p.1 {
                proof {
                    assert(place_set(self.visited@).contains((p.0 as int, p.1 as int)));
                    assert(place_set(self.visited@) =~= place_set(self.visited@).insert(
                        (p.0 as int, p.1 as int),
                    ));
                }
                return ;
            }
            i += 1;
        }
        let ghost before = self.visited@;
        self.visited.push(p);
        proof {
            assert forall|q: (int, int)|
                place_set(self.visited@).contains(q) == place_set(before).insert(
                    (p.0 as int, p.1 as int),
                ).contains(q) by {
                if place_set(self.visited@).contains(q) {
                    let k = choose|k: int|
                        0 <= k < self.visited@.len() && q == (
                            #[trigger] self.visited@[k].0 as int,
                            self.visited@[k].1 as int,
                        );
                    if k < before.len() {
                        assert(before[k] == self.visited@[k]);
                    }
                }
                if place_set(before).contains(q) {
                    let k = choose|k: int|
                        0 <= k < before.len() && q == (#[trigger] before[k].0 as int, before[k].1 as int);
                    assert(self.visited@[k] == before[k]);
                }
                if q == (p.0 as int, p.1 as int) {
                    assert(self.visited@[before.len() as int] == p);
                }
            }
            assert(place_set(self.visited@) =~= place_set(before).insert((p.0 as int, p.1 as int)));
        }
    }

    /// Makes the head take one step in direction `dir`, lets the other
    /// knots follow, and notes the place of the tail.
    pub fn pull(&mut self, dir: Place)
        requires
            old(self).wf(),
            -1 <= dir.0 <= 1,
            -1 <= dir.1 <= 1,
            forall|i: int|
                0 <= i < old(self).knots@.len() ==> -REACH < (#[trigger] old(self).knots@[i]).0 < REACH
                    && -REACH < old(self).knots@[i].1 < REACH,
        ensures
            final(self).wf(),
            places(final(self).knots@) == pulled(places(old(self).knots@), (dir.0 as int, dir.1 as int)),
            place_set(final(self).visited@) == place_set(old(self).visited@).insert(
                pulled(places(old(self).knots@), (dir.0 as int, dir.1 as int)).last(),
            ),
            final(self).visited@.len() <= old(self).visited@.len() + 1,
    {
        let ghost start = places(self.knots@);
        let ghost moved = start.update(0, (start[0].0 + dir.0, start[0].1 + dir.1));
        let head = self.knots[0];
        self.knots[0] = (head.0 + dir.0, head.1 + dir.1);
        assert(places(self.knots@) =~= moved);
        let count = self.knots.len();
        let mut k: usize = 0;
        while k < count - 1
            invariant
                count == self.knots@.len(),
                count == start.len(),
                count > 0,
                k <= count - 1,
                self.visited == old(self).visited,
                places(self.knots@) == settled(moved, (k + 1) as nat),
                forall|i: int|
                    0 <= i < count ==> -REACH <= (#[trigger] self.knots@[i]).0 <= REACH && -REACH
                        <= self.knots@[i].1 <= REACH,
                forall|i: int|
                    k < i < count ==> -REACH < (#[trigger] self.knots@[i]).0 < REACH && -REACH
                        < self.knots@[i].1 < REACH,
            decreases count - 1 - k,
        {
            let head = self.knots[k];
            let tail = self.knots[k + 1];
            let ghost before = places(self.knots@);
            assert(before[k as int] == (head.0 as int, head.1 as int));
            assert(before[k + 1] == (tail.0 as int, tail.1 as int));
            let diffx = head.0 - tail.0;
            let diffy = head.1 - tail.1;
            let stepx: isize = if diffx > 0 {
                1
            } else if diffx < 0 {
                -1
            } else {
                0
            };
            let stepy: isize = if diffy > 0 {
                1
            } else if diffy < 0 {
                -1
            } else {
                0
            };
            let mut next = tail;
            if head.0 == tail.0 {
                if diffy == 2 || diffy == -2 {
                    next = (tail.0, tail.1 + stepy);
                }
            } else if head.1 == tail.1 {
                if diffx == 2 || diffx == -2 {
                    next = (tail.0 + stepx, tail.1);
                }
            } else if diffx == 2 || diffx == -2 || diffy == 2 || diffy == -2 {
                next = (tail.0 + stepx, tail.1 + stepy);
            }
            self.knots[k + 1] = next;
            proof {
                assert(places(self.knots@) =~= before.update(
                    k + 1,
                    follow(before[k as int], before[k + 1]),
                ));
            }
            k += 1;
        }
        let last = self.knots[count - 1];
        assert(places(self.knots@).last() == (last.0 as int, last.1 as int));
        let ghost knots = self.knots;
        self.visit(last);
    }

    /// Pulls the head `mag` steps in direction `dir`.
    pub fn move_head(&mut self, dir: Place, mag: usize)
        requires
            old(self).wf(),
            -1 <= dir.0 <= 1,
            -1 <= dir.1 <= 1,
            forall|i: int|
                0 <= i < old(self).knots@.len() ==> -REACH + mag < (
                #[trigger] old(self).knots@[i]).0 < REACH - mag && -REACH + mag < old(
                    self,
                ).knots@[i].1 < REACH - mag,
        ensures
            final(self).wf(),
            places(final(self).knots@) == pulled_times(
                places(old(self).knots@),
                (dir.0 as int, dir.1 as int),
                mag as nat,
            ),
            place_set(final(self).visited@) == place_set(old(self).visited@).union(
                tail_places(places(old(self).knots@), (dir.0 as int, dir.1 as int), mag as nat),
            ),
    {
        let ghost start = places(self.knots@);
        let ghost seen = place_set(self.visited@);
        let ghost d = (dir.0 as int, dir.1 as int);
        let mut n: usize = 0;
        assert(seen.union(tail_places(start, d, 0)) =~= seen);
        while n < mag
            invariant
                n <= mag,
                self.wf(),
                -1 <= dir.0 <= 1,
                -1 <= dir.1 <= 1,
                d == (dir.0 as int, dir.1 as int),
                self.knots@.len() == old(self).knots@.len(),
                places(self.knots@) == pulled_times(start, d, n as nat),
                place_set(self.visited@) == seen.union(tail_places(start, d, n as nat)),
                forall|i: int|
                    0 <= i < self.knots@.len() ==> -REACH + mag - n < (#[trigger] self.knots@[i]).0
                        < REACH - mag + n && -REACH + mag - n < self.knots@[i].1 < REACH - mag + n,
            decreases mag - n,
        {
            let ghost before = self.knots@;
            self.pull(dir);
            proof {
                lemma_pull_stays_near(places(before), d);
                assert forall|i: int| 0 <= i < self.knots@.len() implies -REACH + mag - (n + 1) < (
                #[trigger] self.knots@[i]).0 < REACH - mag + (n + 1) && -REACH + mag - (n + 1)
                    < self.knots@[i].1 < REACH - mag + (n + 1) by {
                    assert(places(self.knots@)[i] == (self.knots@[i].0 as int, self.knots@[i].1 as int));
                    assert(places(before)[i] == (before[i].0 as int, before[i].1 as int));
                }
                assert(seen.union(tail_places(start, d, n as nat)).insert(
                    pulled_times(start, d, (n + 1) as nat).last(),
                ) =~= seen.union(tail_places(start, d, (n + 1) as nat)));
            }
            n += 1;
        }
    }

    /// Number of places the tail has visited.
    pub fn visited_count(&self) -> (n: usize)
        ensures
            n == self.visited@.len(),
    {
        self.visited.len()
    }
}

/// A pull moves no knot by more than one step in either direction, and
/// keeps the number of knots.
pub proof fn lemma_pull_stays_near(knots: Seq<(int, int)>, dir: (int, int))
    requires
        knots.len() > 0,
        -1 <= dir.0 <= 1,
        -1 <= dir.1 <= 1,
    ensures
        pulled(knots, dir).len() == knots.len(),
        forall|i: int|
            0 <= i < knots.len() ==> knots[i].0 - 1 <= (#[trigger] pulled(knots, dir)[i]).0 <= knots[i].0
                + 1 && knots[i].1 - 1 <= pulled(knots, dir)[i].1 <= knots[i].1 + 1,
{
    let moved = knots.update(0, (knots[0].0 + dir.0, knots[0].1 + dir.1));
    lemma_settle_stays_near(moved, knots.len());
}

proof fn lemma_settle_stays_near(moved: Seq<(int, int)>, n: nat)
    requires
        n <= moved.len(),
    ensures
        settled(moved, n).len() == moved.len(),
        forall|i: int|
            0 <= i < moved.len() ==> moved[i].0 - 1 <= (#[trigger] settled(moved, n)[i]).0 <= moved[i].0
                + 1 && moved[i].1 - 1 <= settled(moved, n)[i].1 <= moved[i].1 + 1,
        forall|i: int| n <= i < moved.len() ==> settled(moved, n)[i] == moved[i],
        moved.len() > 0 ==> settled(moved, n)[0] == moved[0],
    decreases n,
{
    if n > 1 {
        lemma_settle_stays_near(moved, (n - 1) as nat);
    }
}

/// The step that a letter stands for: up, down, left or right.
pub open spec fn way_of(letter: Seq<char>) -> Option<(int, int)> {
    if letter == seq!['U'] {
        Some((0int, -1int))
    } else if letter == seq!['D'] {
        Some((0int, 1int))
    } else if letter == seq!['L'] {
        Some((-1int, 0int))
    } else if letter == seq!['R'] {
        Some((1int, 0int))
    } else {
        None
    }
}

/// The pull that a line writes: a letter for the way, a blank, and the
/// number of steps.
pub open spec fn pull_of(line: Seq<char>) -> Option<((int, int), nat)> {
    match halves(line, ' ') {
        Some(h) => match (way_of(h.0), plus_value(h.1, usize::MAX as nat)) {
            (Some(way), Some(n)) => Some((way, n)),
            _ => None,
        },
        None => None,
    }
}

/// Reads a pull.
pub fn read_pull(line: &Vec<char>) -> (r: Option<((isize, isize), usize)>)
    ensures
        match pull_of(line@) {
            Some(p) => r == Some(((p.0.0 as isize, p.0.1 as isize), p.1 as usize)),
            None => r is None,
        },
{
    let (letter, count) = match split_once(line, ' ') {
        Some(h) => h,
        None => {
            return None;
        },
    };
    let way: (isize, isize) = if letter.len() != 1 {
        assert(way_of(letter@) is None);
        return None;
    } else if letter[0] == 'U' {
        assert(letter@ =~= seq!['U']);
        (0, -1)
    } else if letter[0] == 'D' {
        assert(letter@ =~= seq!['D']);
        (0, 1)
    } else if letter[0] == 'L' {
        assert(letter@ =~= seq!['L']);
        (-1, 0)
    } else if letter[0] == 'R' {
        assert(letter@ =~= seq!['R']);
        (1, 0)
    } else {
        assert(way_of(letter@) is None) by {
            assert(letter@[0] != 'U' && letter@[0] != 'D' && letter@[0] != 'L' && letter@[0] != 'R');
        }
        return None;
    };
    match read_plus(&count) {
        Some(n) => Some((way, n)),
        None => None,
    }
}

} // verus!
