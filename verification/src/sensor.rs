//! Sensors that each rule out a diamond of positions round them, and
//! ranges along a line.

use vstd::prelude::*;
use crate::pattern::{group, group_text, groups_view, regex_groups, Pattern};
use crate::text::{read_signed, signed_value};

verus! {

/// A position: column and row.
pub type Pos = (isize, isize);

/// The stretch from a low to a high column, both included.
pub type Range = (isize, isize);

/// Two opposite corners of a square: the low one and the high one.
pub type Square = (Pos, Pos);

/// Largest size of a coordinate that the arithmetic here is made for.
pub const LIMIT: isize = 0x03ff_ffff;

/// Side of the area that is searched for a free position.
pub const SIDE: isize = 4_000_000;

/// Row on which excluded columns are counted.
pub const ROW: isize = 2_000_000;

/// The size of `v`.
pub open spec fn size(v: int) -> int {
    if v < 0 {
        -v
    } else {
        v
    }
}

/// The taxicab distance from `a` to `b`.
pub open spec fn dist(a: Pos, b: Pos) -> int {
    size(a.0 - b.0) + size(a.1 - b.1)
}

/// Whether both coordinates of `p` are small enough.
pub open spec fn near(p: Pos) -> bool {
    -LIMIT <= p.0 <= LIMIT && -LIMIT <= p.1 <= LIMIT
}

fn size_of(v: isize) -> (r: isize)
    requires
        -2 * LIMIT <= v <= 2 * LIMIT,
    ensures
        r == size(v as int),
{
    if v < 0 {
        -v
    } else {
        v
    }
}

fn distance(a: Pos, b: Pos) -> (d: isize)
    requires
        near(a),
        near(b),
    ensures
        d == dist(a, b),
{
    size_of(a.0 - b.0) + size_of(a.1 - b.1)
}

/// Half of `v`, rounded towards zero.
pub open spec fn half(v: int) -> int {
    if v >= 0 {
        v / 2
    } else {
        -((-v) / 2)
    }
}

fn half_of(v: isize) -> (r: isize)
    requires
        -16 * LIMIT <= v <= 16 * LIMIT,
    ensures
        r == half(v as int),
{
    if v >= 0 {
        v / 2
    } else {
        -((-v) / 2)
    }
}

/// A sensor and the beacon closest to it.
pub struct Sensor {
    pub pos: Pos,
    pub beacon: Pos,
}

impl Sensor {
    /// Both positions are small enough.
    pub open spec fn wf(&self) -> bool {
        near(self.pos) && near(self.beacon)
    }

    /// How far the sensor rules positions out: the distance to its beacon.
    pub open spec fn reach(&self) -> int {
        dist(self.pos, self.beacon)
    }

    /// Whether no unknown beacon can be at `p`: it is no farther from the
    /// sensor than the known beacon.
    pub open spec fn excludes(&self, p: Pos) -> bool {
        dist(self.pos, p) <= self.reach()
    }

    /// How far to each side of its own column the sensor rules out
    /// positions of row `y`; negative where it reaches none.
    pub open spec fn spread(&self, y: int) -> int {
        self.reach() - size(self.pos.1 - y)
    }

    /// The stretch of row `y` that the sensor rules out, if any.
    pub open spec fn exclusion(&self, y: int) -> Option<Range> {
        if self.spread(y) < 0 {
            None
        } else {
            Some(((self.pos.0 - self.spread(y)) as isize, (self.pos.0 + self.spread(y)) as isize))
        }
    }

    /// Where the edge above the sensor that falls to the right crosses
    /// column zero.
    pub open spec fn fall_high(&self) -> int {
        self.pos.1 + self.reach() + self.pos.0
    }

    /// Where the edge below the sensor that falls to the right crosses
    /// column zero.
    pub open spec fn fall_low(&self) -> int {
        self.pos.1 - self.reach() + self.pos.0
    }

    /// Where the edge above the sensor that rises to the right crosses
    /// column zero.
    pub open spec fn rise_high(&self) -> int {
        self.pos.1 + self.reach() - self.pos.0
    }

    /// Where the edge below the sensor that rises to the right crosses
    /// column zero.
    pub open spec fn rise_low(&self) -> int {
        self.pos.1 - self.reach() - self.pos.0
    }

    /// The columns of row `line_y` that the sensor rules out, or `None`
    /// where it reaches none.
    pub fn exclusion_line(&self, line_y: isize) -> (r: Option<Range>)
        requires
            self.wf(),
            -LIMIT <= line_y <= LIMIT,
        ensures
            r == self.exclusion(line_y as int),
            match r {
                Some((low, high)) => low <= high && forall|x: isize|
                    (low <= x <= high) == self.excludes((x, line_y)),
                None => forall|x: isize| !self.excludes((x, line_y)),
            },
            r matches Some((low, high)) ==> -5 * LIMIT <= low && high <= 5 * LIMIT,
    {
        let (x, y) = self.pos;
        let dist = distance(self.pos, self.beacon);
        let ydist = size_of(y - line_y);
        let diff = dist - ydist;
        if diff < 0 {
            None
        } else {
            Some((x - diff, x + diff))
        }
    }

    /// Where the four edges of the sensor's diamond, drawn out, cross the
    /// column zero: first the two edges that fall to the right, then the two
    /// that rise, each pair with the lower edge first.
    pub fn y_intercepts(&self) -> (r: ((isize, isize), (isize, isize)))
        requires
            self.wf(),
        ensures
            r.0.0 == self.fall_high(),
            r.0.1 == self.fall_low(),
            r.1.0 == self.rise_high(),
            r.1.1 == self.rise_low(),
            -6 * LIMIT <= r.0.1 <= r.0.0 <= 6 * LIMIT,
            -6 * LIMIT <= r.1.1 <= r.1.0 <= 6 * LIMIT,
    {
        let (x, y) = self.pos;
        let dist = distance(self.pos, self.beacon);
        ((((y + dist) + x), (y - dist) + x), (((y + dist) - x), ((y - dist) - x)))
    }

    /// Whether the sensor rules `p` out.
    pub fn excludes_pos(&self, p: Pos) -> (b: bool)
        requires
            self.wf(),
            near(p),
        ensures
            b == self.excludes(p),
    {
        distance(self.beacon, self.pos) >= distance(self.pos, p)
    }
}

/// Whether range `r` holds the point `p`, which counts in half columns.
pub open spec fn covers(r: Range, p: int) -> bool {
    2 * r.0 <= p <= 2 * r.1
}

/// Whether one of the ranges holds the point `p`.
pub open spec fn covered(rs: Seq<Range>, p: int) -> bool {
    exists|i: int| 0 <= i < rs.len() && covers(#[trigger] rs[i], p)
}

/// Each range ends before the next one starts.
pub open spec fn apart(rs: Seq<Range>) -> bool {
    forall|i: int, j: int| 0 <= i < j < rs.len() ==> (#[trigger] rs[i]).1 < (#[trigger] rs[j]).0
}

/// Each range starts no later than the next.
pub open spec fn ordered(rs: Seq<Range>) -> bool {
    forall|i: int, j: int| 0 <= i < j < rs.len() ==> (#[trigger] rs[i]).0 <= (#[trigger] rs[j]).0
}

/// No range ends before it starts.
pub open spec fn upright(rs: Seq<Range>) -> bool {
    forall|i: int| 0 <= i < rs.len() ==> (#[trigger] rs[i]).0 <= rs[i].1
}

/// `out` is `ranges` merged: it holds the same points, half columns
/// included, in ranges that lie apart in rising order.
pub open spec fn is_merge_of(out: Seq<Range>, ranges: Seq<Range>) -> bool {
    &&& forall|p: int| covered(out, p) == covered(ranges, p)
    &&& apart(out)
    &&& out.len() <= ranges.len()
    &&& upright(ranges) ==> upright(out)
}

/// The ranges in the order of their starts.
pub fn sort_by_start(ranges: &[Range]) -> (v: Vec<Range>)
    ensures
        v@.len() == ranges@.len(),
        ordered(v@),
        forall|r: Range| v@.contains(r) == ranges@.contains(r),
{
    let mut v: Vec<Range> = Vec::new();
    let mut i: usize = 0;
    while i < ranges.len()
        invariant
            i <= ranges@.len(),
            v@.len() == i,
            ordered(v@),
            forall|r: Range| v@.contains(r) == ranges@.take(i as int).contains(r),
        decreases ranges@.len() - i,
    {
        let e = ranges[i];
        let mut k: usize = v.len();
        while k > 0 && v[k - 1].0 > e.0
            invariant
                k <= v@.len(),
                forall|j: int| k <= j < v@.len() ==> (#[trigger] v@[j]).0 > e.0,
            decreases k,
        {
            k -= 1;
        }
        let ghost before = v@;
        v.insert(k, e);
        proof {
            assert forall|a: int, b: int| 0 <= a < b < v@.len() implies (#[trigger] v@[a]).0 <= (
            #[trigger] v@[b]).0 by {
                if a < k && b > k {
                    assert(v@[a] == before[a]);
                    assert(v@[b] == before[b - 1]);
                } else if a < k && b < k {
                    assert(v@[a] == before[a]);
                    assert(v@[b] == before[b]);
                } else if a > k {
                    assert(v@[a] == before[a - 1]);
                    assert(v@[b] == before[b - 1]);
                } else if a == k {
                    assert(v@[b] == before[b - 1]);
                } else {
                    assert(v@[a] == before[a]);
                    if k > 0 {
                        assert(before[k - 1].0 <= e.0);
                    }
                }
            }
            assert forall|r: Range| v@.contains(r) == ranges@.take(i + 1).contains(r) by {
                let next = ranges@.take(i + 1);
                let seen = ranges@.take(i as int);
                if v@.contains(r) {
                    let at = choose|at: int| 0 <= at < v@.len() && v@[at] == r;
                    if at == k {
                        assert(next[i as int] == r);
                    } else {
                        let was = if at < k {
                            at
                        } else {
                            at - 1
                        };
                        assert(before[was] == r);
                        assert(before.contains(r));
                        let from = choose|from: int| 0 <= from < seen.len() && seen[from] == r;
                        assert(next[from] == r);
                    }
                }
                if next.contains(r) {
                    let from = choose|from: int| 0 <= from < next.len() && next[from] == r;
                    if from == i {
                        assert(v@[k as int] == r);
                    } else {
                        assert(seen[from] == r);
                        assert(seen.contains(r));
                        assert(before.contains(r));
                        let was = choose|was: int| 0 <= was < before.len() && before[was] == r;
                        let at = if was < k {
                            was
                        } else {
                            was + 1
                        };
                        assert(v@[at] == r);
                    }
                }
            }
        }
        i += 1;
    }
    assert(ranges@.take(ranges@.len() as int) =~= ranges@);
    v
}

/// Merges ranges that overlap or touch into one, and returns the merged
/// ranges in rising order.
pub fn merge_ranges(ranges: &[Range]) -> (out: Vec<Range>)
    ensures
        is_merge_of(out@, ranges@),
{
    let sorted = sort_by_start(ranges);
    let mut out: Vec<Range> = Vec::new();
    let mut last: Option<Range> = None;
    let mut i: usize = 0;
    while i < sorted.len()
        invariant
            i <= sorted@.len(),
            sorted@.len() == ranges@.len(),
            ordered(sorted@),
            last is None ==> i == 0 && out@.len() == 0,
            last is Some ==> out@.len() + 1 <= i,
            apart(out@),
            last matches Some(l) ==> (forall|j: int| 0 <= j < out@.len() ==> (#[trigger] out@[j]).1
                < l.0) && (forall|j: int| i <= j < sorted@.len() ==> l.0 <= (
            #[trigger] sorted@[j]).0),
            forall|p: int|
                covered(sorted@.take(i as int), p) == (covered(out@, p) || (last matches Some(l)
                    && covers(l, p))),
            upright(sorted@) ==> upright(out@) && (last matches Some(l) ==> l.0 <= l.1),
        decreases sorted@.len() - i,
    {
        let (el, eh) = sorted[i];
        let ghost seen = sorted@.take(i as int);
        let ghost next = sorted@.take(i + 1);
        let ghost old_out = out@;
        let ghost old_last = last;
        if let Some((ll, lh)) = last {
            if el <= lh {
                let low = if ll <= el {
                    ll
                } else {
                    el
                };
                let high = if lh >= eh {
                    lh
                } else {
                    eh
                };
                assert(low == ll);
                last = Some((low, high));
            } else {
                out.push((ll, lh));
                last = Some((el, eh));
                proof {
                    assert forall|a: int, b: int| 0 <= a < b < out@.len() implies (
                    #[trigger] out@[a]).1 < (#[trigger] out@[b]).0 by {
                        if b == out@.len() - 1 {
                            assert(out@[a] == old_out[a]);
                        } else {
                            assert(out@[a] == old_out[a] && out@[b] == old_out[b]);
                        }
                    }
                    assert forall|j: int| 0 <= j < out@.len() implies (#[trigger] out@[j]).1
                        < el by {
                        if j < old_out.len() {
                            assert(out@[j] == old_out[j]);
                        }
                    }
                }
            }
        } else {
            last = Some((el, eh));
        }
        proof {
            assert forall|p: int|
                covered(next, p) == (covered(out@, p) || (last matches Some(l) && covers(
                    l,
                    p,
                ))) by {
                let e = (el, eh);
                assert(next[i as int] == e);
                // what was covered before, and the new range
                assert(covered(next, p) == (covered(seen, p) || covers(e, p))) by {
                    if covered(next, p) {
                        let at = choose|at: int| 0 <= at < next.len() && covers(#[trigger] next[at], p);
                        if at < i {
                            assert(seen[at] == next[at]);
                        }
                    }
                    if covered(seen, p) {
                        let at = choose|at: int| 0 <= at < seen.len() && covers(#[trigger] seen[at], p);
                        assert(next[at] == seen[at]);
                    }
                }
                assert(covered(seen, p) == (covered(old_out, p) || (old_last matches Some(l)
                    && covers(l, p))));
                // what the output and the open range cover now
                if out@.len() == old_out.len() {
                    assert(out@ =~= old_out);
                    if old_last is Some {
                        let l = old_last->0;
                        assert(l.0 <= sorted@[i as int].0);
                        assert(covers(last->0, p) == (covers(l, p) || covers(e, p)));
                    }
                } else {
                    assert(out@ =~= old_out.push(old_last->0));
                    assert(covered(out@, p) == (covered(old_out, p) || covers(old_last->0, p))) by {
                        if covered(out@, p) {
                            let at = choose|at: int|
                                0 <= at < out@.len() && covers(#[trigger] out@[at], p);
                            if at < old_out.len() {
                                assert(old_out[at] == out@[at]);
                            }
                        }
                        if covered(old_out, p) {
                            let at = choose|at: int|
                                0 <= at < old_out.len() && covers(#[trigger] old_out[at], p);
                            assert(out@[at] == old_out[at]);
                        }
                        if covers(old_last->0, p) {
                            assert(out@[old_out.len() as int] == old_last->0);
                        }
                    }
                }
            }
            assert forall|j: int| i + 1 <= j < sorted@.len() implies (last->0).0 <= (
            #[trigger] sorted@[j]).0 by {
                assert(sorted@[i as int].0 <= sorted@[j].0);
            }
            if upright(sorted@) {
                assert(sorted@[i as int].0 <= sorted@[i as int].1);
                assert forall|j: int| 0 <= j < out@.len() implies (#[trigger] out@[j]).0
                    <= out@[j].1 by {
                    if j < old_out.len() {
                        assert(out@[j] == old_out[j]);
                    }
                }
            }
        }
        i += 1;
    }
    let ghost before = out@;
    if let Some(l) = last {
        out.push(l);
        proof {
            assert forall|a: int, b: int| 0 <= a < b < out@.len() implies (#[trigger] out@[a]).1 < (
            #[trigger] out@[b]).0 by {
                if b == out@.len() - 1 {
                    assert(out@[a] == before[a]);
                } else {
                    assert(out@[a] == before[a] && out@[b] == before[b]);
                }
            }
        }
    }
    proof {
        assert(sorted@.take(sorted@.len() as int) =~= sorted@);
        assert forall|p: int| covered(out@, p) == covered(ranges@, p) by {
            // the sorted ranges cover what the given ones cover
            if covered(sorted@, p) {
                let at = choose|at: int| 0 <= at < sorted@.len() && covers(#[trigger] sorted@[at], p);
                assert(sorted@.contains(sorted@[at]));
                let from = choose|from: int| 0 <= from < ranges@.len() && ranges@[from] == sorted@[at];
                assert(covers(ranges@[from], p));
            }
            if covered(ranges@, p) {
                let from = choose|from: int|
                    0 <= from < ranges@.len() && covers(#[trigger] ranges@[from], p);
                assert(ranges@.contains(ranges@[from]));
                let at = choose|at: int| 0 <= at < sorted@.len() && sorted@[at] == ranges@[from];
                assert(covers(sorted@[at], p));
            }
            // the output covers what the sorted ranges cover
            if last is Some {
                if covered(out@, p) {
                    let at = choose|at: int| 0 <= at < out@.len() && covers(#[trigger] out@[at], p);
                    if at < before.len() {
                        assert(before[at] == out@[at]);
                    }
                }
                if covered(before, p) {
                    let at = choose|at: int| 0 <= at < before.len() && covers(#[trigger] before[at], p);
                    assert(out@[at] == before[at]);
                }
                if covers(last->0, p) {
                    assert(out@[before.len() as int] == last->0);
                }
            }
        }
        if upright(ranges@) {
            assert forall|j: int| 0 <= j < sorted@.len() implies (#[trigger] sorted@[j]).0
                <= sorted@[j].1 by {
                assert(sorted@.contains(sorted@[j]));
                let from = choose|from: int| 0 <= from < ranges@.len() && ranges@[from] == sorted@[j];
                assert(ranges@[from].0 <= ranges@[from].1);
            }
            assert forall|j: int| 0 <= j < out@.len() implies (#[trigger] out@[j]).0 <= out@[j].1 by {
                if j < before.len() {
                    assert(out@[j] == before[j]);
                }
            }
        }
    }
    out
}

/// Every sensor is well-formed.
pub open spec fn all_wf(ss: Seq<Sensor>) -> bool {
    forall|i: int| 0 <= i < ss.len() ==> (#[trigger] ss[i]).wf()
}

/// The stretches of row `y` that the sensors rule out, in the order of the
/// sensors.
pub open spec fn exclusions(ss: Seq<Sensor>, y: int) -> Seq<Range>
    decreases ss.len(),
{
    if ss.len() == 0 {
        Seq::empty()
    } else {
        match ss.last().exclusion(y) {
            Some(r) => exclusions(ss.drop_last(), y).push(r),
            None => exclusions(ss.drop_last(), y),
        }
    }
}

/// The summed lengths of the ranges, a range from `low` to `high` counting
/// `high - low`.
pub open spec fn total_length(rs: Seq<Range>) -> int
    decreases rs.len(),
{
    if rs.len() == 0 {
        0
    } else {
        total_length(rs.drop_last()) + (rs.last().1 - rs.last().0)
    }
}

/// How much of row 2000000 the sensors rule out: the lengths of their
/// stretches of that row, merged.
pub fn part_1(sensors: &[Sensor]) -> (out: isize)
    requires
        all_wf(sensors@),
    ensures
        exists|m: Seq<Range>| #[trigger]
            is_merge_of(m, exclusions(sensors@, ROW as int)) && out == total_length(m),
{
    let mut found: Vec<Range> = Vec::new();
    let mut i: usize = 0;
    assert(sensors@.take(0) =~= Seq::empty());
    while i < sensors.len()
        invariant
            i <= sensors@.len(),
            all_wf(sensors@),
            found@ == exclusions(sensors@.take(i as int), ROW as int),
            upright(found@),
            forall|k: int| 0 <= k < found@.len() ==> -5 * LIMIT <= (#[trigger] found@[k]).0
                && found@[k].1 <= 5 * LIMIT,
        decreases sensors@.len() - i,
    {
        assert(sensors@.take(i + 1).drop_last() =~= sensors@.take(i as int));
        assert(sensors@[i as int].wf());
        if let Some(e) = sensors[i].exclusion_line(ROW) {
            found.push(e);
        }
        i += 1;
    }
    assert(sensors@.take(sensors@.len() as int) =~= sensors@);
    let merged = merge_ranges(found.as_slice());
    let mut out: isize = 0;
    let mut k: usize = 0;
    proof {
        assert forall|j: int| 0 <= j < merged@.len() implies -5 * LIMIT <= (#[trigger] merged@[j]).0
            <= merged@[j].1 <= 5 * LIMIT by {
            let r = merged@[j];
            assert(covers(r, 2 * r.0) && covers(r, 2 * r.1));
            assert(covered(merged@, 2 * r.0) && covered(merged@, 2 * r.1));
            assert(covered(found@, 2 * r.0) && covered(found@, 2 * r.1));
        }
        assert(merged@.take(0) =~= Seq::empty());
    }
    while k < merged.len()
        invariant
            k <= merged@.len(),
            apart(merged@),
            forall|j: int| 0 <= j < merged@.len() ==> -5 * LIMIT <= (#[trigger] merged@[j]).0
                <= merged@[j].1 <= 5 * LIMIT,
            out == total_length(merged@.take(k as int)),
            k == 0 ==> out == 0,
            k > 0 ==> 0 <= out <= merged@[k - 1].1 - merged@[0].0,
        decreases merged@.len() - k,
    {
        let (l, h) = merged[k];
        proof {
            assert(merged@.take(k + 1).drop_last() =~= merged@.take(k as int));
            if k > 0 {
                assert(merged@[k - 1].1 < merged@[k as int].0);
            }
            assert(-5 * LIMIT <= merged@[0].0);
        }
        out += h - l;
        k += 1;
    }
    assert(merged@.take(merged@.len() as int) =~= merged@);
    out
}

/// No sensor rules `p` out.
pub open spec fn free(ss: Seq<Sensor>, p: Pos) -> bool {
    forall|i: int| 0 <= i < ss.len() ==> !(#[trigger] ss[i]).excludes(p)
}

/// `p` lies in the searched area.
pub open spec fn in_area(p: Pos) -> bool {
    0 <= p.0 <= SIDE && 0 <= p.1 <= SIDE
}

/// The number that names the position `p` of the searched area.
pub open spec fn tuning(p: Pos) -> int {
    p.0 * SIDE + p.1
}

/// `p` is at most one step, in each direction, from where the rising line
/// through `(0, u)` meets the falling line through `(0, d)`.
pub open spec fn beside(p: Pos, u: int, d: int) -> bool {
    half(d - u) - 1 <= p.0 <= half(d - u) + 1 && half(d + u) - 1 <= p.1 <= half(d + u) + 1
}

/// A rising edge of one sensor's diamond crosses column zero at `u`.
pub open spec fn is_rise(ss: Seq<Sensor>, u: int) -> bool {
    exists|i: int| 0 <= i < ss.len() && ((#[trigger] ss[i]).rise_high() == u || ss[i].rise_low() == u)
}

/// A falling edge of one sensor's diamond crosses column zero at `d`.
pub open spec fn is_fall(ss: Seq<Sensor>, d: int) -> bool {
    exists|i: int| 0 <= i < ss.len() && ((#[trigger] ss[i]).fall_high() == d || ss[i].fall_low() == d)
}

/// `p` lies beside a point where edges of two diamonds meet.
pub open spec fn candidate(ss: Seq<Sensor>, p: Pos) -> bool {
    exists|u: int, d: int| is_rise(ss, u) && is_fall(ss, d) && #[trigger] beside(p, u, d)
}

/// Whether no sensor rules `p` out.
pub fn is_free(sensors: &[Sensor], p: Pos) -> (b: bool)
    requires
        all_wf(sensors@),
        near(p),
    ensures
        b == free(sensors@, p),
{
    let mut blocked = false;
    let mut i: usize = 0;
    while i < sensors.len()
        invariant
            i <= sensors@.len(),
            all_wf(sensors@),
            near(p),
            blocked == (exists|k: int| 0 <= k < i && (#[trigger] sensors@[k]).excludes(p)),
        decreases sensors@.len() - i,
    {
        assert(sensors@[i as int].wf());
        if sensors[i].excludes_pos(p) {
            blocked = true;
        }
        i += 1;
    }
    !blocked
}

/// Looks at the positions beside the point where the rising line through
/// `(0, u)` meets the falling line through `(0, d)`, and returns the number
/// of one that lies in the searched area and that no sensor rules out.
pub fn probe(sensors: &[Sensor], u: isize, d: isize) -> (r: Option<isize>)
    requires
        all_wf(sensors@),
        -6 * LIMIT <= u <= 6 * LIMIT,
        -6 * LIMIT <= d <= 6 * LIMIT,
        SIDE * SIDE + SIDE <= isize::MAX,
    ensures
        match r {
            Some(v) => exists|p: Pos| #[trigger]
                beside(p, u as int, d as int) && in_area(p) && free(sensors@, p) && v == tuning(p),
            None => forall|p: Pos| #[trigger]
                beside(p, u as int, d as int) && in_area(p) ==> !free(sensors@, p),
        },
{
    let x = half_of(d - u);
    let y = half_of(d + u);
    let mut chx = x - 1;
    while chx <= x + 1
        invariant
            all_wf(sensors@),
            x == half(d - u),
            y == half(d + u),
            -6 * LIMIT <= x <= 6 * LIMIT,
            -6 * LIMIT <= y <= 6 * LIMIT,
            x - 1 <= chx <= x + 2,
            SIDE * SIDE + SIDE <= isize::MAX,
            forall|p: Pos| #[trigger]
                beside(p, u as int, d as int) && in_area(p) && p.0 < chx ==> !free(sensors@, p),
        decreases x + 2 - chx,
    {
        let mut chy = y - 1;
        while chy <= y + 1
            invariant
                all_wf(sensors@),
                x == half(d - u),
                y == half(d + u),
                -6 * LIMIT <= x <= 6 * LIMIT,
                -6 * LIMIT <= y <= 6 * LIMIT,
                x - 1 <= chx <= x + 1,
                y - 1 <= chy <= y + 2,
                SIDE * SIDE + SIDE <= isize::MAX,
                forall|p: Pos| #[trigger]
                    beside(p, u as int, d as int) && in_area(p) && (p.0 < chx || (p.0 == chx && p.1
                        < chy)) ==> !free(sensors@, p),
            decreases y + 2 - chy,
        {
            if chx >= 0 && chx <= 4_000_000 && chy >= 0 && chy <= 4_000_000 {
                if is_free(sensors, (chx, chy)) {
                    assert(beside((chx, chy), u as int, d as int));
                    assert(chx * SIDE <= SIDE * SIDE) by (nonlinear_arith)
                        requires
                            0 <= chx <= SIDE,
                            SIDE >= 0,
                    ;
                    assert(0 <= chx * SIDE) by (nonlinear_arith)
                        requires
                            0 <= chx,
                            SIDE >= 0,
                    ;
                    return Some(chx * 4_000_000 + chy);
                }
            }
            chy += 1;
        }
        chx += 1;
    }
    None
}

/// Searches the positions beside the points where a rising edge of one
/// sensor's diamond meets a falling edge of another's for one that lies in
/// the searched area and that no sensor rules out. Returns the number of
/// such a position, or `None` where there is none among them.
pub fn part_2(sensors: &[Sensor]) -> (r: Option<isize>)
    requires
        all_wf(sensors@),
        SIDE * SIDE + SIDE <= isize::MAX,
    ensures
        match r {
            Some(v) => exists|p: Pos| #[trigger]
                candidate(sensors@, p) && in_area(p) && free(sensors@, p) && v == tuning(p),
            None => forall|p: Pos| #[trigger] candidate(sensors@, p) && in_area(p) ==> !free(sensors@, p),
        },
{
    let mut down_intercepts: Vec<isize> = Vec::new();
    let mut up_intercepts: Vec<isize> = Vec::new();
    let mut i: usize = 0;
    while i < sensors.len()
        invariant
            i <= sensors@.len(),
            all_wf(sensors@),
            up_intercepts@.len() == 2 * i,
            down_intercepts@.len() == 2 * i,
            forall|k: int|
                0 <= k < i ==> up_intercepts@[2 * k] == (#[trigger] sensors@[k]).rise_high()
                    && up_intercepts@[2 * k + 1] == sensors@[k].rise_low() && down_intercepts@[2 * k]
                    == sensors@[k].fall_high() && down_intercepts@[2 * k + 1] == sensors@[k].fall_low(),
            forall|k: int|
                0 <= k < 2 * i ==> -6 * LIMIT <= #[trigger] up_intercepts@[k] <= 6 * LIMIT && -6 * LIMIT
                    <= down_intercepts@[k] <= 6 * LIMIT,
        decreases sensors@.len() - i,
    {
        assert(sensors@[i as int].wf());
        let ((d1, d2), (u1, u2)) = sensors[i].y_intercepts();
        up_intercepts.push(u1);
        up_intercepts.push(u2);
        down_intercepts.push(d1);
        down_intercepts.push(d2);
        i += 1;
    }
    let mut a: usize = 0;
    while a < up_intercepts.len()
        invariant
            a <= up_intercepts@.len(),
            all_wf(sensors@),
            SIDE * SIDE + SIDE <= isize::MAX,
            up_intercepts@.len() == 2 * sensors@.len(),
            down_intercepts@.len() == 2 * sensors@.len(),
            forall|k: int|
                0 <= k < sensors@.len() ==> up_intercepts@[2 * k] == (#[trigger] sensors@[k]).rise_high()
                    && up_intercepts@[2 * k + 1] == sensors@[k].rise_low() && down_intercepts@[2 * k]
                    == sensors@[k].fall_high() && down_intercepts@[2 * k + 1] == sensors@[k].fall_low(),
            forall|k: int|
                0 <= k < 2 * sensors@.len() ==> -6 * LIMIT <= #[trigger] up_intercepts@[k] <= 6 * LIMIT
                    && -6 * LIMIT <= down_intercepts@[k] <= 6 * LIMIT,
            forall|p: Pos, j: int, k: int|
                0 <= j < a && 0 <= k < down_intercepts@.len() && #[trigger] beside(
                    p,
                    up_intercepts@[j] as int,
                    down_intercepts@[k] as int,
                ) && in_area(p) ==> !free(sensors@, p),
        decreases up_intercepts@.len() - a,
    {
        let u = up_intercepts[a];
        let mut b: usize = 0;
        while b < down_intercepts.len()
            invariant
                a < up_intercepts@.len(),
                b <= down_intercepts@.len(),
                u == up_intercepts@[a as int],
                all_wf(sensors@),
                SIDE * SIDE + SIDE <= isize::MAX,
                up_intercepts@.len() == 2 * sensors@.len(),
                down_intercepts@.len() == 2 * sensors@.len(),
                forall|k: int|
                    0 <= k < sensors@.len() ==> up_intercepts@[2 * k] == (
                    #[trigger] sensors@[k]).rise_high() && up_intercepts@[2 * k + 1]
                        == sensors@[k].rise_low() && down_intercepts@[2 * k] == sensors@[k].fall_high()
                        && down_intercepts@[2 * k + 1] == sensors@[k].fall_low(),
                forall|k: int|
                    0 <= k < 2 * sensors@.len() ==> -6 * LIMIT <= #[trigger] up_intercepts@[k] <= 6
                        * LIMIT && -6 * LIMIT <= down_intercepts@[k] <= 6 * LIMIT,
                forall|p: Pos, k: int|
                    0 <= k < b && #[trigger] beside(p, u as int, down_intercepts@[k] as int) && in_area(
                        p,
                    ) ==> !free(sensors@, p),
            decreases down_intercepts@.len() - b,
        {
            let d = down_intercepts[b];
            assert(-6 * LIMIT <= up_intercepts@[a as int] <= 6 * LIMIT);
            assert(-6 * LIMIT <= up_intercepts@[b as int] <= 6 * LIMIT && -6 * LIMIT
                <= down_intercepts@[b as int] <= 6 * LIMIT);
            match probe(sensors, u, d) {
                Some(v) => {
                    proof {
                        let p = choose|p: Pos| #[trigger]
                            beside(p, u as int, d as int) && in_area(p) && free(sensors@, p) && v
                                == tuning(p);
                        lemma_intercepts(sensors@, up_intercepts@, down_intercepts@, a as int, b as int);
                        assert(candidate(sensors@, p));
                    }
                    return Some(v);
                },
                None => {},
            }
            b += 1;
        }
        a += 1;
    }
    proof {
        assert forall|p: Pos| #[trigger] candidate(sensors@, p) && in_area(p) implies !free(
            sensors@,
            p,
        ) by {
            let (u, d) = choose|u: int, d: int|
                is_rise(sensors@, u) && is_fall(sensors@, d) && #[trigger] beside(p, u, d);
            let i = choose|i: int|
                0 <= i < sensors@.len() && ((#[trigger] sensors@[i]).rise_high() == u
                    || sensors@[i].rise_low() == u);
            let j = choose|j: int|
                0 <= j < sensors@.len() && ((#[trigger] sensors@[j]).fall_high() == d
                    || sensors@[j].fall_low() == d);
            let a = if sensors@[i].rise_high() == u {
                2 * i
            } else {
                2 * i + 1
            };
            let b = if sensors@[j].fall_high() == d {
                2 * j
            } else {
                2 * j + 1
            };
            assert(up_intercepts@[a] == u);
            assert(down_intercepts@[b] == d);
            assert(beside(p, up_intercepts@[a] as int, down_intercepts@[b] as int));
        }
    }
    None
}

proof fn lemma_intercepts(ss: Seq<Sensor>, ups: Seq<isize>, downs: Seq<isize>, a: int, b: int)
    requires
        ups.len() == 2 * ss.len(),
        downs.len() == 2 * ss.len(),
        0 <= a < ups.len(),
        0 <= b < downs.len(),
        forall|k: int|
            0 <= k < ss.len() ==> ups[2 * k] == (#[trigger] ss[k]).rise_high() && ups[2 * k + 1]
                == ss[k].rise_low() && downs[2 * k] == ss[k].fall_high() && downs[2 * k + 1]
                == ss[k].fall_low(),
    ensures
        is_rise(ss, ups[a] as int),
        is_fall(ss, downs[b] as int),
{
    let i = a / 2;
    let j = b / 2;
    assert(ss[i].rise_high() == ups[a] || ss[i].rise_low() == ups[a]);
    assert(ss[j].fall_high() == downs[b] || ss[j].fall_low() == downs[b]);
}

/// `p` lies in the square.
pub open spec fn in_square(p: Pos, square: Square) -> bool {
    square.0.0 <= p.0 <= square.1.0 && square.0.1 <= p.1 <= square.1.1
}

/// A sensor that rules out the four corners of a square rules out all of
/// it.
pub proof fn lemma_square_excluded(s: Sensor, square: Square, p: Pos)
    requires
        s.excludes(square.0),
        s.excludes(square.1),
        s.excludes((square.0.0, square.1.1)),
        s.excludes((square.1.0, square.0.1)),
        in_square(p, square),
    ensures
        s.excludes(p),
{
}

/// Searches a square for a position that no sensor rules out, by cutting it
/// in four wherever no single sensor rules out all of its corners. Returns
/// such a position, or `None` where the sensors rule out the whole square.
pub fn check_square(sensors: &[Sensor], square: Square) -> (r: Option<Pos>)
    requires
        all_wf(sensors@),
        0 <= square.0.0 <= square.1.0 <= LIMIT,
        0 <= square.0.1 <= square.1.1 <= LIMIT,
    ensures
        match r {
            Some(p) => in_square(p, square) && free(sensors@, p),
            None => forall|p: Pos| in_square(p, square) ==> !free(sensors@, p),
        },
    decreases (square.1.0 - square.0.0) + (square.1.1 - square.0.1),
{
    let ((x1, y1), (x2, y2)) = square;
    let mut i: usize = 0;
    while i < sensors.len()
        invariant
            i <= sensors@.len(),
            all_wf(sensors@),
            square == ((x1, y1), (x2, y2)),
            0 <= x1 <= x2 <= LIMIT,
            0 <= y1 <= y2 <= LIMIT,
        decreases sensors@.len() - i,
    {
        assert(sensors@[i as int].wf());
        let s = &sensors[i];
        if s.excludes_pos((x1, y1)) && s.excludes_pos((x2, y1)) && s.excludes_pos((x1, y2))
            && s.excludes_pos((x2, y2)) {
            proof {
                assert forall|p: Pos| in_square(p, square) implies !free(sensors@, p) by {
                    lemma_square_excluded(*s, square, p);
                    assert(sensors@[i as int].excludes(p));
                }
            }
            return None;
        }
        i += 1;
    }
    if x1 == x2 && y1 == y2 {
        let found = is_free(sensors, (x1, y1));
        if found {
            return Some((x1, y1));
        }
        return None;
    }
    let mx = (x1 + x2 + 1) / 2;
    let my = (y1 + y2 + 1) / 2;
    let a = check_square(sensors, ((mx, my), (x2, y2)));
    if let Some(p) = a {
        return Some(p);
    }
    let mut b: Option<Pos> = None;
    if mx != x1 && my != y1 {
        b = check_square(sensors, ((x1, y1), (mx - 1, my - 1)));
        if let Some(p) = b {
            return Some(p);
        }
    }
    let mut c: Option<Pos> = None;
    if mx != x1 {
        c = check_square(sensors, ((x1, my), (mx - 1, y2)));
        if let Some(p) = c {
            return Some(p);
        }
    }
    let mut d: Option<Pos> = None;
    if my != y1 {
        d = check_square(sensors, ((mx, y1), (x2, my - 1)));
        if let Some(p) = d {
            return Some(p);
        }
    }
    proof {
        assert forall|p: Pos| in_square(p, square) implies !free(sensors@, p) by {
            if p.0 >= mx && p.1 >= my {
                assert(in_square(p, ((mx, my), (x2, y2))));
            } else if p.0 < mx && p.1 < my {
                assert(in_square(p, ((x1, y1), ((mx - 1) as isize, (my - 1) as isize))));
            } else if p.0 < mx {
                assert(in_square(p, ((x1, my), ((mx - 1) as isize, y2))));
            } else {
                assert(in_square(p, ((mx, y1), (x2, (my - 1) as isize))));
            }
        }
    }
    None
}

/// The pattern of a line that reports a sensor and its closest beacon.
pub const SENSOR_PATTERN: &'static str =
    "^Sensor at x=(-?\\d+), y=(-?\\d+): closest beacon is at x=(-?\\d+), y=(-?\\d+)$";

/// The coordinate that group `n` writes, where there is such a group, it
/// took part in the match and the size of its number is at most `LIMIT`.
pub open spec fn group_coordinate(groups: Seq<Option<Seq<char>>>, n: int) -> Option<int> {
    match group_text(groups, n) {
        Some(text) => signed_value(text, LIMIT as nat),
        None => None,
    }
}

/// The sensor that the groups of a matched line report: its position in
/// groups one and two, its beacon's in groups three and four.
pub open spec fn sensor_of(found: Option<Seq<Option<Seq<char>>>>) -> Option<Sensor> {
    match found {
        Some(groups) => {
            if group_coordinate(groups, 1) is Some && group_coordinate(groups, 2) is Some
                && group_coordinate(groups, 3) is Some && group_coordinate(groups, 4) is Some {
                Some(
                    Sensor {
                        pos: (
                            group_coordinate(groups, 1)->0 as isize,
                            group_coordinate(groups, 2)->0 as isize,
                        ),
                        beacon: (
                            group_coordinate(groups, 3)->0 as isize,
                            group_coordinate(groups, 4)->0 as isize,
                        ),
                    },
                )
            } else {
                None
            }
        },
        None => None,
    }
}

fn coordinate_in(groups: &Vec<Option<String>>, n: usize) -> (r: Option<isize>)
    ensures
        match group_coordinate(groups_view(Some(*groups))->0, n as int) {
            Some(v) => r == Some(v as isize) && -LIMIT <= v <= LIMIT,
            None => r is None,
        },
{
    match group(groups, n) {
        Some(text) => read_signed(text, 0x03ff_ffff),
        None => None,
    }
}

/// Reads a sensor from the groups of a matched line.
pub fn sensor_from_groups(found: Option<Vec<Option<String>>>) -> (r: Option<Sensor>)
    ensures
        r == sensor_of(groups_view(found)),
        r matches Some(s) ==> s.wf(),
{
    match found {
        Some(groups) => {
            let a = coordinate_in(&groups, 1);
            let b = coordinate_in(&groups, 2);
            let c = coordinate_in(&groups, 3);
            let d = coordinate_in(&groups, 4);
            match (a, b, c, d) {
                (Some(a), Some(b), Some(c), Some(d)) => Some(Sensor { pos: (a, b), beacon: (c, d) }),
                _ => None,
            }
        },
        None => None,
    }
}

/// Reads a sensor from a line with the given pattern.
pub fn read_sensor(pattern: &Pattern, line: &str) -> (r: Option<Sensor>)
    ensures
        r == sensor_of(regex_groups(pattern.text(), line@)),
        r matches Some(s) ==> s.wf(),
{
    sensor_from_groups(pattern.captures(line))
}

/// The sensors that the lines report with the given pattern, where each
/// line reports one.
pub open spec fn sensors_of(pattern: Seq<char>, lines: Seq<String>) -> Option<Seq<Sensor>> {
    if forall|i: int| 0 <= i < lines.len() ==> sensor_of(regex_groups(pattern, #[trigger] lines[i]@)) is Some {
        Some(Seq::new(lines.len(), |i: int| sensor_of(regex_groups(pattern, lines[i]@))->0))
    } else {
        None
    }
}

/// Reads a sensor from each line, or returns `None` where a line reports
/// none.
pub fn read_sensors(pattern: &Pattern, lines: &Vec<String>) -> (r: Option<Vec<Sensor>>)
    ensures
        match sensors_of(pattern.text(), lines@) {
            Some(sensors) => r matches Some(v) && v@ == sensors && all_wf(v@),
            None => r is None,
        },
{
    let mut sensors: Vec<Sensor> = Vec::new();
    let mut i: usize = 0;
    while i < lines.len()
        invariant
            i <= lines@.len(),
            sensors@.len() == i,
            all_wf(sensors@),
            forall|k: int|
                0 <= k < i ==> sensor_of(regex_groups(pattern.text(), #[trigger] lines@[k]@)) == Some(
                    sensors@[k],
                ),
        decreases lines@.len() - i,
    {
        match read_sensor(pattern, lines[i].as_str()) {
            Some(sensor) => {
                sensors.push(sensor);
            },
            None => {
                return None;
            },
        }
        i += 1;
    }
    proof {
        assert(sensors@ =~= sensors_of(pattern.text(), lines@)->0);
    }
    Some(sensors)
}

} // verus!
