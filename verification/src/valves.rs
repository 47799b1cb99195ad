//! Valves joined by tunnels: how far they lie apart, which are worth
//! opening first, and the states of one or two walkers who open them.

use crate::pattern::{group, group_text, groups_view, regex_groups, Pattern};
use crate::text::{chars_of, find_from, first_index, plus_value, read_plus, slice, string_of};
use vstd::prelude::*;

verus! {

/// A valve: its number, what flows through it when it is open, the valves
/// that its tunnels lead to, and its distance to every valve.
#[derive(Debug, Clone)]
pub struct Valve {
    pub num: usize,
    pub flow: usize,
    pub connections: Vec<usize>,
    pub times: Vec<usize>,
}

/// The valves by their numbers, and the numbers of those that let
/// anything flow, the best first.
#[derive(Clone)]
pub struct System {
    pub valves: Vec<Valve>,
    pub flow_priority: Vec<usize>,
}

/// Whether a tunnel leads from valve `a` to valve `b`.
pub open spec fn tunnel(valves: Seq<Valve>, a: int, b: int) -> bool {
    exists|c: int| 0 <= c < valves[a].connections@.len() && #[trigger] valves[a].connections@[c] == b
}

/// Whether valve `to` can be reached from valve `from` through `d`
/// tunnels or fewer.
pub open spec fn hops(valves: Seq<Valve>, from: int, to: int, d: nat) -> bool
    decreases d,
{
    if d == 0 {
        from == to
    } else {
        hops(valves, from, to, (d - 1) as nat) || exists|k: int|
            0 <= k < valves.len() && hops(valves, from, k, (d - 1) as nat) && #[trigger] tunnel(
                valves,
                k,
                to,
            )
    }
}

/// Whether `t` is the least number of tunnels from valve `from` to valve
/// `to`.
pub open spec fn least_hops(valves: Seq<Valve>, from: int, to: int, t: nat) -> bool {
    hops(valves, from, to, t) && (t > 0 ==> !hops(valves, from, to, (t - 1) as nat))
}

/// Whether `times` holds the least number of tunnels from valve `a` to
/// every valve.
pub open spec fn timed(valves: Seq<Valve>, a: int, times: Seq<usize>) -> bool {
    &&& times.len() == valves.len()
    &&& forall|x: int| 0 <= x < times.len() ==> least_hops(valves, a, x, (#[trigger] times[x]) as nat)
}

/// What flows through valve `i`.
pub open spec fn flow_at(valves: Seq<Valve>, i: int) -> int {
    valves[i].flow as int
}

/// Whether `order` holds the valves that let anything flow, each once,
/// those with more flow first and among equals those with the lower
/// number first.
pub open spec fn ranked(valves: Seq<Valve>, order: Seq<usize>) -> bool {
    &&& forall|k: int|
        0 <= k < order.len() ==> (#[trigger] order[k]) < valves.len() && flow_at(
            valves,
            order[k] as int,
        ) > 0
    &&& forall|i: int|
        0 <= i < valves.len() && #[trigger] flow_at(valves, i) > 0 ==> exists|k: int|
            0 <= k < order.len() && #[trigger] order[k] == i
    &&& forall|a: int, b: int|
        0 <= a < b < order.len() ==> flow_at(valves, (#[trigger] order[a]) as int) > flow_at(
            valves,
            (#[trigger] order[b]) as int,
        ) || (flow_at(valves, order[a] as int) == flow_at(valves, order[b] as int) && order[a]
            < order[b])
}

impl System {
    /// What flows through valve `i`.
    pub open spec fn flow_of(&self, i: int) -> int {
        flow_at(self.valves@, i)
    }
}

impl System {
    /// The valves that let anything flow, those with more flow first.
    fn ranking(&self) -> (v: Vec<usize>)
        ensures
            ranked(self.valves@, v@),
    {
        let mut v: Vec<usize> = Vec::new();
        let mut i: usize = 0;
        while i < self.valves.len()
            invariant
                i <= self.valves@.len(),
                forall|k: int|
                    0 <= k < v@.len() ==> (#[trigger] v@[k]) < i && flow_at(self.valves@, v@[k] as int) > 0,
                forall|j: int|
                    0 <= j < i && #[trigger] flow_at(self.valves@, j) > 0 ==> exists|k: int|
                        0 <= k < v@.len() && #[trigger] v@[k] == j,
                forall|a: int, b: int|
                    0 <= a < b < v@.len() ==> flow_at(self.valves@, (#[trigger] v@[a]) as int)
                        > flow_at(self.valves@, (#[trigger] v@[b]) as int) || (flow_at(self.valves@, v@[a] as int)
                        == flow_at(self.valves@, v@[b] as int) && v@[a] < v@[b]),
            decreases self.valves@.len() - i,
        {
            let flow = self.valves[i].flow;
            if flow > 0 {
                let mut k: usize = v.len();
                while k > 0 && self.valves[v[k - 1]].flow < flow
                    invariant
                        k <= v@.len(),
                        i < self.valves@.len(),
                        flow == flow_at(self.valves@, i as int),
                        forall|j: int| 0 <= j < v@.len() ==> (#[trigger] v@[j]) < i,
                        forall|j: int|
                            k <= j < v@.len() ==> flow_at(self.valves@, (#[trigger] v@[j]) as int) < flow,
                    decreases k,
                {
                    k -= 1;
                }
                let ghost before = v@;
                v.insert(k, i);
                proof {
                    assert forall|j: int| 0 <= j < v@.len() implies (#[trigger] v@[j]) < i + 1
                        && flow_at(self.valves@, v@[j] as int) > 0 by {
                        if j < k {
                            assert(v@[j] == before[j]);
                        } else if j > k {
                            assert(v@[j] == before[j - 1]);
                        }
                    }
                    assert forall|j: int| 0 <= j < i + 1 && #[trigger] flow_at(self.valves@, j)
                        > 0 implies exists|at: int| 0 <= at < v@.len() && #[trigger] v@[at] == j by {
                        if j == i {
                            assert(v@[k as int] == j);
                        } else {
                            let was = choose|was: int|
                                0 <= was < before.len() && #[trigger] before[was] == j;
                            let at = if was < k {
                                was
                            } else {
                                was + 1
                            };
                            assert(v@[at] == j);
                        }
                    }
                    assert forall|a: int, b: int| 0 <= a < b < v@.len() implies flow_at(self.valves@, 
                        (#[trigger] v@[a]) as int,
                    ) > flow_at(self.valves@, (#[trigger] v@[b]) as int) || (flow_at(self.valves@, v@[a] as int)
                        == flow_at(self.valves@, v@[b] as int) && v@[a] < v@[b]) by {
                        let was_a = if a < k {
                            a
                        } else {
                            a - 1
                        };
                        let was_b = if b < k {
                            b
                        } else {
                            b - 1
                        };
                        if a != k {
                            assert(v@[a] == before[was_a]);
                        }
                        if b != k {
                            assert(v@[b] == before[was_b]);
                        }
                        if a == k {
                            assert(flow_at(self.valves@, before[was_b] as int) < flow);
                        }
                        if b == k && k > 0 {
                            assert(flow_at(self.valves@, before[k - 1] as int) >= flow);
                            assert(before[k - 1] < i);
                            if a < k - 1 {
                                assert(flow_at(self.valves@, before[a] as int) >= flow_at(self.valves@, 
                                    before[k - 1] as int,
                                ));
                            }
                        }
                    }
                }
            }
            i += 1;
        }
        v
    }

    /// Lists the valves that let anything flow, those with more flow
    /// first.
    pub fn priority(&mut self)
        ensures
            final(self).valves == old(self).valves,
            exists|order: Seq<usize>|
                ranked(old(self).valves@, order) && final(self).flow_priority@.len() == order.len()
                    && forall|k: int|
                    0 <= k < order.len() ==> final(self).flow_priority@[k] == old(self).valves@[(#[trigger] order[k]) as int].num,
    {
        let order = self.ranking();
        let mut priorities: Vec<usize> = Vec::new();
        let mut k: usize = 0;
        while k < order.len()
            invariant
                k <= order@.len(),
                *self == *old(self),
                ranked(self.valves@, order@),
                priorities@.len() == k,
                forall|j: int|
                    0 <= j < k ==> priorities@[j] == self.valves@[(#[trigger] order@[j]) as int].num,
            decreases order@.len() - k,
        {
            priorities.push(self.valves[order[k]].num);
            k += 1;
        }
        self.flow_priority = priorities;
    }
}

/// What is known of the distances from a valve when all valves up to
/// `d` tunnels away have been found, and of those `d` away the first `k`
/// have had their tunnels looked at: a distance found is right, and a
/// valve not found is more than `d` tunnels away and no tunnel leads to
/// it from a valve looked at.
pub open spec fn settled(sys: System, from: int, dist: Seq<Option<usize>>, d: nat, k: int) -> bool {
    &&& dist.len() == sys.valves@.len()
    &&& forall|x: int|
        0 <= x < dist.len() ==> match #[trigger] dist[x] {
            Some(t) => least_hops(sys.valves@, from, x, t as nat) && t <= d + 1,
            None => !hops(sys.valves@, from, x, d) && forall|j: int|
                0 <= j < k && dist[j] == Some(d as usize) ==> !tunnel(sys.valves@, j, x),
        }
}

impl System {
    /// A valve that is not found when all valves up to `d` tunnels away
    /// have had their tunnels looked at is more than `d + 1` tunnels away.
    proof fn lemma_settled_next(&self, from: int, dist: Seq<Option<usize>>, d: nat)
        requires
            settled(*self, from, dist, d, dist.len() as int),
            d < usize::MAX,
        ensures
            settled(*self, from, dist, d + 1, 0),
    {
        assert forall|x: int| 0 <= x < dist.len() implies match #[trigger] dist[x] {
            Some(t) => least_hops(self.valves@, from, x, t as nat) && t <= d + 2,
            None => !hops(self.valves@, from, x, d + 1),
        } by {
            if dist[x] is None && hops(self.valves@, from, x, d + 1) {
                let e: nat = d + 1;
                assert(hops(self.valves@, from, x, e));
                assert(!hops(self.valves@, from, x, (e - 1) as nat));
                let k = choose|k: int|
                    0 <= k < self.valves@.len() && hops(self.valves@, from, k, (e - 1) as nat)
                        && #[trigger] tunnel(self.valves@, k, x);
                assert(hops(self.valves@, from, k, d));
                match dist[k] {
                    Some(t) => {
                        assert(least_hops(self.valves@, from, k, t as nat));
                        if t < d {
                            let u: nat = (t + 1) as nat;
                            assert(hops(self.valves@, from, k, (u - 1) as nat));
                            assert(hops(self.valves@, from, x, u));
                            self.lemma_within_more(from, x, u, d);
                        } else {
                            if t > d {
                                assert(!hops(self.valves@, from, k, (t - 1) as nat));
                                self.lemma_within_more(from, k, d, (t - 1) as nat);
                            }
                        }
                    },
                    None => {},
                }
                assert(false);
            }
        }
    }

    /// The least number of tunnels from valve `from` to every valve; none
    /// where a valve is as many tunnels away as there are valves, or
    /// more.
    pub fn distances(&self, from: usize) -> (r: Option<Vec<usize>>)
        requires
            self.linked(),
            from < self.valves@.len(),
        ensures
            r is Some == near(self.valves@, from as int),
            match r {
                Some(times) => times@.len() == self.valves@.len() && forall|x: int|
                    0 <= x < times@.len() ==> least_hops(self.valves@, from as int,
                        x,
                        (#[trigger] times@[x]) as nat,
                    ),
                None => exists|x: int|
                    0 <= x < self.valves@.len() && !hops(self.valves@, from as int,
                        x,
                        self.valves@.len() as nat,
                    ),
            },
    {
        let n = self.valves.len();
        let mut dist: Vec<Option<usize>> = Vec::new();
        let mut i: usize = 0;
        while i < n
            invariant
                i <= n,
                from < n,
                dist@.len() == i,
                forall|x: int|
                    0 <= x < i ==> #[trigger] dist@[x] == if x == from {
                        Some(0usize)
                    } else {
                        None::<usize>
                    },
            decreases n - i,
        {
            dist.push(if i == from {
                Some(0)
            } else {
                None
            });
            i += 1;
        }
        let mut d: usize = 0;
        while d < n
            invariant
                d <= n,
                n == self.valves@.len(),
                self.linked(),
                from < n,
                settled(*self, from as int, dist@, d as nat, 0),
                capped(dist@, n as nat),
            decreases n - d,
        {
            let mut k: usize = 0;
            while k < n
                invariant
                    k <= n,
                    d < n,
                    n == self.valves@.len(),
                    self.linked(),
                    from < n,
                    settled(*self, from as int, dist@, d as nat, k as int),
                    capped(dist@, n as nat),
                decreases n - k,
            {
                let here = dist[k];
                let at_level = match here {
                    Some(t) => t == d,
                    None => false,
                };
                if at_level {
                    let mut c: usize = 0;
                    while c < self.valves[k].connections.len()
                        invariant
                            c <= self.valves@[k as int].connections@.len(),
                            k < n,
                            d < n,
                            n == self.valves@.len(),
                            self.linked(),
                            from < n,
                            dist@[k as int] == Some(d),
                            settled(*self, from as int, dist@, d as nat, k as int),
                            capped(dist@, n as nat),
                            forall|x: int|
                                0 <= x < n && dist@[x] is None ==> forall|e: int|
                                    0 <= e < c ==> #[trigger] self.valves@[k as int].connections@[e]
                                        != x,
                        decreases self.valves@[k as int].connections@.len() - c,
                    {
                        let x = self.valves[k].connections[c];
                        let ghost before = dist@;
                        if dist[x].is_none() {
                            dist[x] = Some(d + 1);
                            proof {
                                assert forall|y: int| 0 <= y < dist@.len() implies match #[trigger] dist@[y] {
                                    Some(t) => t <= n,
                                    None => true,
                                } by {
                                    if y != x {
                                        assert(dist@[y] == before[y]);
                                    }
                                }
                                assert(tunnel(self.valves@, k as int, x as int));
                                assert(least_hops(self.valves@, from as int, k as int, d as nat));
                                let u: nat = (d + 1) as nat;
                                assert(hops(self.valves@, from as int, k as int, (u - 1) as nat));
                                assert(hops(self.valves@, from as int, x as int, u));
                                assert(!hops(self.valves@, from as int, x as int, (u - 1) as nat));
                                assert forall|y: int| 0 <= y < dist@.len() implies match #[trigger] dist@[y] {
                                    Some(t) => least_hops(self.valves@, from as int, y, t as nat) && t <= d
                                        + 1,
                                    None => !hops(self.valves@, from as int, y, d as nat) && forall|j: int|
                                        0 <= j < k && dist@[j] == Some(d) ==> !tunnel(self.valves@, j, y),
                                } by {
                                    if y != x {
                                        assert(dist@[y] == before[y]);
                                        if dist@[y] is None {
                                            assert forall|j: int|
                                                0 <= j < k && dist@[j] == Some(d) implies !tunnel(self.valves@, j,
                                                y,
                                            ) by {
                                                if j != x {
                                                    assert(before[j] == dist@[j]);
                                                }
                                            }
                                        }
                                    }
                                }
                            }
                        }
                        c += 1;
                    }
                    proof {
                        assert forall|y: int| 0 <= y < dist@.len() && dist@[y] is None implies !tunnel(self.valves@, k as int,
                            y,
                        ) by {
                            if tunnel(self.valves@, k as int, y) {
                                let e = choose|e: int|
                                    0 <= e < self.valves@[k as int].connections@.len()
                                        && #[trigger] self.valves@[k as int].connections@[e] == y;
                                assert(false);
                            }
                        }
                    }
                }
                k += 1;
            }
            proof {
                self.lemma_settled_next(from as int, dist@, d as nat);
            }
            d += 1;
        }
        let mut times: Vec<usize> = Vec::new();
        let mut j: usize = 0;
        while j < n
            invariant
                j <= n,
                n == self.valves@.len(),
                settled(*self, from as int, dist@, n as nat, 0),
                capped(dist@, n as nat),
                times@.len() == j,
                forall|x: int|
                    0 <= x < j ==> least_hops(self.valves@, from as int, x, (#[trigger] times@[x]) as nat),
                forall|x: int| 0 <= x < j ==> #[trigger] hops(self.valves@, from as int, x, n as nat),
            decreases n - j,
        {
            match dist[j] {
                Some(t) => {
                    proof {
                        self.lemma_within_more(from as int, j as int, t as nat, n as nat);
                    }
                    times.push(t);
                },
                None => {
                    assert(!hops(self.valves@, from as int, j as int, n as nat));
                    return None;
                },
            }
            j += 1;
        }
        Some(times)
    }

    /// Finds the distance from every valve to every valve. Where a valve
    /// is as many tunnels away from another as there are valves, or more,
    /// the answer is no.
    pub fn pathfind(&mut self) -> (found: bool)
        requires
            old(self).linked(),
        ensures
            final(self).linked(),
            final(self).flow_priority == old(self).flow_priority,
            final(self).valves@.len() == old(self).valves@.len(),
            forall|i: int|
                0 <= i < old(self).valves@.len() ==> (#[trigger] final(self).valves@[i]).flow
                    == old(self).valves@[i].flow && final(self).valves@[i].connections@ == old(self).valves@[i].connections@,
            found ==> forall|i: int|
                0 <= i < final(self).valves@.len() ==> timed(final(self).valves@, i,
                    (#[trigger] final(self).valves@[i]).times@,
                ),
            !found ==> exists|i: int, x: int|
                0 <= i < old(self).valves@.len() && 0 <= x < old(self).valves@.len() && !hops(old(self).valves@, i, x, old(self).valves@.len() as nat),
            found == all_near(old(self).valves@),
            !found ==> *final(self) == *old(self),
    {
        let n = self.valves.len();
        let mut all: Vec<Vec<usize>> = Vec::new();
        let mut i: usize = 0;
        while i < n
            invariant
                i <= n,
                *self == *old(self),
                n == self.valves@.len(),
                self.linked(),
                all@.len() == i,
                forall|a: int| 0 <= a < i ==> timed(self.valves@, a, (#[trigger] all@[a])@),
                forall|a: int| 0 <= a < i ==> #[trigger] near(self.valves@, a),
            decreases n - i,
        {
            match self.distances(self.valves[i].num) {
                Some(times) => {
                    all.push(times);
                },
                None => {
                    assert(!near(self.valves@, i as int));
                    return false;
                },
            }
            i += 1;
        }
        assert(all_near(old(self).valves@));
        let mut i: usize = n;
        while i > 0
            invariant
                i <= n,
                all_near(old(self).valves@),
                n == old(self).valves@.len(),
                self.valves@.len() == n,
                all@.len() == i,
                self.flow_priority == old(self).flow_priority,
                forall|a: int|
                    0 <= a < n ==> (#[trigger] self.valves@[a]).num == old(self).valves@[a].num
                        && self.valves@[a].flow == old(self).valves@[a].flow
                        && self.valves@[a].connections@ == old(self).valves@[a].connections@,
                forall|a: int| 0 <= a < i ==> timed(old(self).valves@, a, (#[trigger] all@[a])@),
                forall|a: int|
                    i <= a < n ==> timed(old(self).valves@, a, (#[trigger] self.valves@[a]).times@),
            decreases i,
        {
            i -= 1;
            let times = all.pop().unwrap();
            let old_valve = &self.valves[i];
            let valve = Valve {
                num: old_valve.num,
                flow: old_valve.flow,
                connections: copied(&old_valve.connections),
                times,
            };
            self.valves.set(i, valve);
        }
        proof {
            assert(self.linked());
            assert forall|a: int| 0 <= a < n implies timed(self.valves@, a,
                (#[trigger] self.valves@[a]).times@,
            ) by {
                let times = self.valves@[a].times@;
                assert(timed(old(self).valves@, a, times));
                assert forall|x: int| 0 <= x < times.len() implies least_hops(self.valves@, a,
                    x,
                    (#[trigger] times[x]) as nat,
                ) by {
                    let t = times[x] as nat;
                    self.lemma_same_tunnels(*old(self), a, x, t);
                    if t > 0 {
                        self.lemma_same_tunnels(*old(self), a, x, (t - 1) as nat);
                    }
                }
            }
        }
        true
    }

    /// Systems with the same tunnels have the same distances.
    proof fn lemma_same_tunnels(&self, other: System, a: int, x: int, t: nat)
        requires
            self.valves@.len() == other.valves@.len(),
            forall|i: int|
                0 <= i < self.valves@.len() ==> (#[trigger] self.valves@[i]).connections@
                    == other.valves@[i].connections@,
        ensures
            hops(self.valves@, a, x, t) == hops(other.valves@, a, x, t),
        decreases t,
    {
        if t > 0 {
            self.lemma_same_tunnels(other, a, x, (t - 1) as nat);
            if hops(self.valves@, a, x, t) && !hops(self.valves@, a, x, (t - 1) as nat) {
                let k = choose|k: int|
                    0 <= k < self.valves@.len() && hops(self.valves@, a, k, (t - 1) as nat)
                        && #[trigger] tunnel(self.valves@, k, x);
                self.lemma_same_tunnels(other, a, k, (t - 1) as nat);
                assert(self.valves@[k].connections@ == other.valves@[k].connections@);
                let c = choose|c: int|
                    0 <= c < self.valves@[k].connections@.len()
                        && #[trigger] self.valves@[k].connections@[c] == x;
                assert(other.valves@[k].connections@[c] == x);
                assert(tunnel(other.valves@, k, x));
                assert(hops(other.valves@, a, k, (t - 1) as nat));
            }
            if hops(other.valves@, a, x, t) && !hops(other.valves@, a, x, (t - 1) as nat) {
                let k = choose|k: int|
                    0 <= k < other.valves@.len() && hops(other.valves@, a, k, (t - 1) as nat)
                        && #[trigger] tunnel(other.valves@, k, x);
                self.lemma_same_tunnels(other, a, k, (t - 1) as nat);
                assert(self.valves@[k].connections@ == other.valves@[k].connections@);
                let c = choose|c: int|
                    0 <= c < other.valves@[k].connections@.len()
                        && #[trigger] other.valves@[k].connections@[c] == x;
                assert(self.valves@[k].connections@[c] == x);
                assert(tunnel(self.valves@, k, x));
                assert(hops(self.valves@, a, k, (t - 1) as nat));
            }
        }
    }
}

impl System {
    /// Whether every valve stands at its number and every tunnel leads to
    /// a valve.
    pub fn is_linked(&self) -> (b: bool)
        ensures
            b == self.linked(),
    {
        let n = self.valves.len();
        let mut i: usize = 0;
        while i < n
            invariant
                i <= n,
                n == self.valves@.len(),
                forall|a: int| 0 <= a < i ==> (#[trigger] self.valves@[a]).num == a,
                forall|a: int, c: int|
                    0 <= a < i && 0 <= c < self.valves@[a].connections@.len()
                        ==> #[trigger] self.valves@[a].connections@[c] < n,
            decreases n - i,
        {
            let valve = &self.valves[i];
            if valve.num != i {
                return false;
            }
            let mut c: usize = 0;
            while c < valve.connections.len()
                invariant
                    c <= valve.connections@.len(),
                    i < n,
                    n == self.valves@.len(),
                    valve == self.valves@[i as int],
                    forall|e: int| 0 <= e < c ==> #[trigger] valve.connections@[e] < n,
                decreases valve.connections@.len() - c,
            {
                if valve.connections[c] >= n {
                    assert(!(self.valves@[i as int].connections@[c as int] < self.valves@.len()));
                    return false;
                }
                c += 1;
            }
            i += 1;
        }
        true
    }

    /// Finds the distances and lists the valves worth opening.
    pub fn precalc(&mut self) -> (found: bool)
        requires
            old(self).linked(),
        ensures
            final(self).linked(),
            final(self).valves@.len() == old(self).valves@.len(),
            found == all_near(old(self).valves@),
            !found ==> *final(self) == *old(self),
            forall|i: int|
                0 <= i < old(self).valves@.len() ==> (#[trigger] final(self).valves@[i]).flow
                    == old(self).valves@[i].flow && final(self).valves@[i].connections@ == old(self).valves@[i].connections@,
            found ==> forall|i: int|
                0 <= i < final(self).valves@.len() ==> timed(final(self).valves@, i,
                    (#[trigger] final(self).valves@[i]).times@,
                ),
            found ==> exists|order: Seq<usize>|
                ranked(final(self).valves@, order) && final(self).flow_priority@.len() == order.len()
                    && forall|k: int|
                    0 <= k < order.len() ==> final(self).flow_priority@[k] == final(self).valves@[(
                    #[trigger] order[k]) as int].num,
    {
        if !self.pathfind() {
            return false;
        }
        self.priority();
        true
    }
}

impl System {
    /// Every valve stands at its number, and every tunnel leads to a
    /// valve.
    pub open spec fn linked(&self) -> bool {
        &&& forall|i: int| 0 <= i < self.valves@.len() ==> (#[trigger] self.valves@[i]).num == i
        &&& forall|i: int, c: int|
            0 <= i < self.valves@.len() && 0 <= c < self.valves@[i].connections@.len()
                ==> #[trigger] self.valves@[i].connections@[c] < self.valves@.len()
    }

    /// What can be reached through some tunnels can be reached through
    /// more.
    pub proof fn lemma_within_more(&self, from: int, to: int, d: nat, e: nat)
        requires
            hops(self.valves@, from, to, d),
            d <= e,
        ensures
            hops(self.valves@, from, to, e),
        decreases e,
    {
        if d < e {
            self.lemma_within_more(from, to, d, (e - 1) as nat);
        }
    }
}

/// Whether no distance found is more than `n`.
pub open spec fn capped(dist: Seq<Option<usize>>, n: nat) -> bool {
    forall|x: int|
        0 <= x < dist.len() ==> match #[trigger] dist[x] {
            Some(t) => t <= n,
            None => true,
        }
}

/// Whether every valve can be reached from valve `from` through as many
/// tunnels as there are valves, or fewer.
pub open spec fn near(valves: Seq<Valve>, from: int) -> bool {
    forall|x: int| 0 <= x < valves.len() ==> #[trigger] hops(valves, from, x, valves.len())
}

/// Whether every valve can be reached from every valve through as many
/// tunnels as there are valves, or fewer.
pub open spec fn all_near(valves: Seq<Valve>) -> bool {
    forall|i: int| 0 <= i < valves.len() ==> #[trigger] near(valves, i)
}

/// A copy of a list of numbers.
fn copied(list: &Vec<usize>) -> (out: Vec<usize>)
    ensures
        out@ == list@,
{
    let mut out: Vec<usize> = Vec::new();
    let mut i: usize = 0;
    while i < list.len()
        invariant
            i <= list@.len(),
            out@ == list@.take(i as int),
        decreases list@.len() - i,
    {
        out.push(list[i]);
        i += 1;
        assert(out@ =~= list@.take(i as int));
    }
    assert(out@ =~= list@);
    out
}

/// A walker: the valve at which it stands, and the valve to which it is
/// on its way with the number of steps that are left, if it is on its
/// way.
#[derive(Copy, Clone, Eq, PartialEq, Hash, Debug)]
pub struct Entity {
    pub pos: u8,
    pub dest: Option<(u8, u8)>,
}

/// A state of the search: the two walkers, the valves that are open as a
/// set of bits, what has flowed so far, what flows in every step, the
/// number of steps taken, and how promising the state is.
#[derive(Copy, Clone, Eq, PartialEq, Hash, Debug)]
pub struct SearchState {
    pub player: Entity,
    pub elephant: Entity,
    pub enabled: u64,
    pub volume: u32,
    pub flow: u32,
    pub step: u8,
    pub reward: usize,
}

/// The search: the number of steps there are, whether the second walker
/// takes part, how many states were looked at and how many passed over,
/// the valves, the best state found, and the state at the start.
pub struct Search {
    pub steps: usize,
    pub elephant: bool,
    pub checked: usize,
    pub skipped: usize,
    pub system: System,
    pub best: Option<SearchState>,
    pub initial: SearchState,
}

/// What a walker does in a step: it goes on towards its valve, it stays,
/// or it sets out for a valve that is some steps away.
#[derive(Copy, Clone)]
pub enum Choice {
    Continue,
    Idle,
    Open(u8, u8),
}

/// The most that can flow through all valves in a step.
pub const CAP: u32 = 0x3f_ffc0;

/// Whether bit `i` of a word is set; false for `i` outside the word.
pub open spec fn bit(w: u64, i: int) -> bool {
    0 <= i < 64 && (w >> (i as u64)) & 1 == 1
}

/// What flows through the open valves among the first `n`.
pub open spec fn lit(sys: System, enabled: u64, n: nat) -> int
    decreases n,
{
    if n == 0 {
        0
    } else {
        lit(sys, enabled, (n - 1) as nat) + if bit(enabled, n - 1) {
            sys.flow_of(n - 1)
        } else {
            0
        }
    }
}

/// A word with one more bit set has that bit and the bits it had.
pub proof fn lemma_one_more_bit(w: u64, v: u64, j: u64)
    requires
        v < 64,
        j < 64,
    ensures
        bit((w | (1u64 << v)), j as int) == (j == v || bit(w, j as int)),
{
    assert(((w | (1u64 << v)) >> j) & 1 == 1 <==> (j == v || (w >> j) & 1 == 1)) by (bit_vector)
        requires
            v < 64,
            j < 64,
    ;
}

/// Opening a valve that was shut adds its flow to what flows.
pub proof fn lemma_lit_more(sys: System, enabled: u64, v: u64, n: nat)
    requires
        v < 64,
        n <= 64,
        !bit(enabled, v as int),
    ensures
        lit(sys, (enabled | (1u64 << v)), n) == lit(sys, enabled, n) + if v < n {
            sys.flow_of(v as int)
        } else {
            0
        },
    decreases n,
{
    if n > 0 {
        lemma_lit_more(sys, enabled, v, (n - 1) as nat);
        lemma_one_more_bit(enabled, v, (n - 1) as u64);
    }
}

/// No more flows than the valves can let through.
pub proof fn lemma_lit_bound(sys: System, enabled: u64, n: nat)
    requires
        n <= sys.valves@.len(),
        forall|i: int| 0 <= i < sys.valves@.len() ==> #[trigger] sys.flow_of(i) <= 0xffff,
    ensures
        0 <= lit(sys, enabled, n) <= n * 0xffff,
    decreases n,
{
    if n > 0 {
        lemma_lit_bound(sys, enabled, (n - 1) as nat);
    }
}

impl Entity {
    /// The share of a walker in how promising a state is: the number of
    /// the valve to which it is on its way, divided by the steps that
    /// are left.
    pub open spec fn share(&self) -> int {
        match self.dest {
            Some(d) => (d.0 as int) / (d.1 as int),
            None => 0,
        }
    }

    /// The share of the walker in how promising a state is.
    pub fn partial_reward(&self) -> (r: usize)
        requires
            self.dest matches Some(d) ==> d.1 != 0,
        ensures
            r == self.share(),
    {
        if let Some((score, dist)) = self.dest {
            score as usize / dist as usize
        } else {
            0
        }
    }
}

impl Search {
    /// The search can go: there are valves, no more than the bits of a
    /// word; every valve has a distance to every valve, a step at least
    /// for another valve and fewer than 128; no valve lets more than
    /// 65535 through; the valves worth opening are valves that let
    /// something through; and there are a hundred steps at most.
    pub open spec fn fit(&self) -> bool {
        let n = self.system.valves@.len();
        &&& 0 < n <= 64
        &&& self.steps <= 100
        &&& forall|i: int|
            0 <= i < n ==> (#[trigger] self.system.valves@[i]).times@.len() == n
                && self.system.valves@[i].flow <= 0xffff
        &&& forall|i: int, x: int|
            0 <= i < n && 0 <= x < n ==> (#[trigger] self.system.valves@[i].times@[x]) < 128 && (i
                != x ==> self.system.valves@[i].times@[x] >= 1)
        &&& forall|k: int|
            0 <= k < self.system.flow_priority@.len() ==> (#[trigger] self.system.flow_priority@[k])
                < n && self.system.flow_of(self.system.flow_priority@[k] as int) > 0
    }

    /// Whether a walker fits the valves that are open: the valve to
    /// which it is on its way is shut and a step away at least; where it
    /// is on no way, the valve at which it stands is open or lets
    /// nothing through.
    pub open spec fn aimed(&self, enabled: u64, e: Entity) -> bool {
        &&& e.pos < self.system.valves@.len()
        &&& match e.dest {
            Some(d) => d.0 < self.system.valves@.len() && 1 <= d.1 < 128 && !bit(
                enabled,
                d.0 as int,
            ),
            None => bit(enabled, e.pos as int) || self.system.flow_of(e.pos as int) == 0,
        }
    }

    /// Whether a state is one that the search can be in.
    pub open spec fn sound(&self, s: SearchState) -> bool {
        &&& self.aimed(s.enabled, s.player)
        &&& self.aimed(s.enabled, s.elephant)
        &&& (s.player.dest is Some && s.elephant.dest is Some ==> s.player.dest.unwrap().0
            != s.elephant.dest.unwrap().0)
        &&& (!self.elephant ==> s.elephant.dest is None)
        &&& s.step <= self.steps
        &&& s.flow == lit(self.system, s.enabled, self.system.valves@.len())
        &&& s.volume <= s.step * CAP
    }
}

/// The valves that are open and what flows, after valve `v` has been
/// opened.
pub open spec fn opened(sys: System, enabled: u64, flow: int, v: u8) -> (u64, int) {
    ((enabled | (1u64 << (v as u64))), flow + sys.flow_of(v as int))
}

impl SearchState {
    /// Opens valve `v`.
    pub fn open_valve(&mut self, search: &Search, v: u8)
        requires
            search.fit(),
            v < search.system.valves@.len(),
            !bit(old(self).enabled, v as int),
            old(self).flow == lit(search.system, old(self).enabled, search.system.valves@.len()),
        ensures
            final(self).player == old(self).player,
            final(self).elephant == old(self).elephant,
            final(self).volume == old(self).volume,
            final(self).step == old(self).step,
            final(self).reward == old(self).reward,
            (final(self).enabled, final(self).flow as int) == opened(
                search.system,
                old(self).enabled,
                old(self).flow as int,
                v,
            ),
            final(self).flow == lit(search.system, final(self).enabled, search.system.valves@.len()),
            forall|j: int|
                0 <= j < 64 ==> bit(final(self).enabled, j) == (j == v || bit(old(self).enabled, j)),
    {
        proof {
            let n = search.system.valves@.len();
            lemma_lit_more(search.system, self.enabled, v as u64, n);
            lemma_lit_bound(search.system, (self.enabled | (1u64 << (v as u64))), n);
            assert forall|j: int| 0 <= j < 64 implies bit(
                (self.enabled | (1u64 << (v as u64))),
                j,
            ) == (j == v || bit(self.enabled, j)) by {
                lemma_one_more_bit(self.enabled, v as u64, j as u64);
            }
        }
        self.enabled |= 1u64 << (v as u64);
        self.flow += search.system.valves[v as usize].flow as u32;
    }

    /// How promising the state is: what flows, and the shares of the
    /// walkers.
    pub open spec fn promise(&self) -> int {
        self.flow + self.player.share() + self.elephant.share()
    }

    /// Works out how promising the state is.
    pub fn calculate_reward(&mut self)
        requires
            old(self).player.dest matches Some(d) ==> d.1 != 0,
            old(self).elephant.dest matches Some(d) ==> d.1 != 0,
            old(self).flow <= CAP,
        ensures
            final(self).reward == old(self).promise(),
            final(self).player == old(self).player,
            final(self).elephant == old(self).elephant,
            final(self).enabled == old(self).enabled,
            final(self).volume == old(self).volume,
            final(self).flow == old(self).flow,
            final(self).step == old(self).step,
    {
        let mut reward = self.flow as usize;
        proof {
            if let Some(d) = self.player.dest {
                assert((d.0 as int) / (d.1 as int) <= d.0) by (nonlinear_arith)
                    requires
                        d.0 >= 0,
                        d.1 >= 1,
                ;
            }
            if let Some(d) = self.elephant.dest {
                assert((d.0 as int) / (d.1 as int) <= d.0) by (nonlinear_arith)
                    requires
                        d.0 >= 0,
                        d.1 >= 1,
                ;
            }
        }
        reward += self.player.partial_reward();
        reward += self.elephant.partial_reward();
        self.reward = reward;
    }
}

/// The steps that a walker needs to valve `v`.
pub open spec fn delay(search: Search, e: Entity, v: int) -> int {
    search.system.valves@[e.pos as int].times@[v] as int
}

/// Whether a walker may set out for valve `v`: the valve is shut, the
/// other walker is not on its way to it, and when the walker has got
/// there and opened it a step at least is left.
pub open spec fn wanted(search: Search, s: SearchState, e: Entity, other: Entity, v: int) -> bool {
    &&& !bit(s.enabled, v)
    &&& !(other.dest is Some && other.dest.unwrap().0 == v)
    &&& s.step + delay(search, e, v) + 2 <= search.steps
}

/// The valves among the first `k` worth opening for which a walker may
/// set out, with the steps to each.
pub open spec fn opens(search: Search, s: SearchState, e: Entity, other: Entity, k: nat) -> Seq<
    Choice,
>
    decreases k,
{
    if k == 0 {
        Seq::empty()
    } else {
        let v = search.system.flow_priority@[k - 1] as int;
        if wanted(search, s, e, other, v) {
            opens(search, s, e, other, (k - 1) as nat).push(
                Choice::Open(v as u8, delay(search, e, v) as u8),
            )
        } else {
            opens(search, s, e, other, (k - 1) as nat)
        }
    }
}

/// What a walker can do: go on where it is on its way; else set out for
/// a valve; and stay where there is none to set out for.
pub open spec fn choices(search: Search, s: SearchState, e: Entity, other: Entity) -> Seq<Choice> {
    if e.dest is Some {
        seq![Choice::Continue]
    } else {
        let o = opens(search, s, e, other, search.system.flow_priority@.len());
        if o.len() == 0 {
            seq![Choice::Idle]
        } else {
            o
        }
    }
}

/// The walker after it has done what it chose, and the valve that it has
/// reached and opens, if it has reached one.
pub open spec fn applied(c: Choice, e: Entity) -> (Entity, Option<u8>) {
    match c {
        Choice::Open(dest, len) => (Entity { pos: e.pos, dest: Some((dest, len)) }, None),
        Choice::Idle => (e, None),
        Choice::Continue => {
            let d = e.dest.unwrap();
            if d.1 > 1 {
                (Entity { pos: e.pos, dest: Some((d.0, (d.1 - 1) as u8)) }, None)
            } else {
                (Entity { pos: d.0, dest: None }, Some(d.0))
            }
        },
    }
}

/// The valves that are open and what flows, after a walker has opened
/// the valve that it reached, if it reached one.
pub open spec fn turned_on(sys: System, enabled: u64, flow: int, v: Option<u8>) -> (u64, int) {
    match v {
        Some(v) => opened(sys, enabled, flow, v),
        None => (enabled, flow),
    }
}

/// The state after a step in which the walkers did what they chose.
pub open spec fn child(search: Search, s: SearchState, mc: Choice, ec: Choice) -> SearchState {
    let p = applied(mc, s.player);
    let e = applied(ec, s.elephant);
    let first = turned_on(search.system, s.enabled, s.flow as int, p.1);
    let second = turned_on(search.system, first.0, first.1, e.1);
    SearchState {
        player: p.0,
        elephant: e.0,
        enabled: second.0,
        volume: (s.volume + s.flow) as u32,
        flow: second.1 as u32,
        step: (s.step + 1) as u8,
        reward: (second.1 + p.0.share() + e.0.share()) as usize,
    }
}

/// Whether a pair of choices is passed over: both walkers set out, and
/// for the same valve; or they set out from the same valve, and the
/// second for a valve with no higher number than the first.
pub open spec fn skip(s: SearchState, mc: Choice, ec: Choice) -> bool {
    match (mc, ec) {
        (Choice::Open(ta, _), Choice::Open(tb, _)) => (s.player.pos == s.elephant.pos && tb <= ta)
            || ta == tb,
        _ => false,
    }
}

/// The states that follow from one choice of the first walker and the
/// first `j` choices of the second.
pub open spec fn row(search: Search, s: SearchState, mc: Choice, theirs: Seq<Choice>, j: nat) -> Seq<
    SearchState,
>
    decreases j,
{
    if j == 0 {
        Seq::empty()
    } else if skip(s, mc, theirs[j - 1]) {
        row(search, s, mc, theirs, (j - 1) as nat)
    } else {
        row(search, s, mc, theirs, (j - 1) as nat).push(child(search, s, mc, theirs[j - 1]))
    }
}

/// The states that follow from the first `i` choices of the first walker
/// and all choices of the second.
pub open spec fn table(
    search: Search,
    s: SearchState,
    mine: Seq<Choice>,
    theirs: Seq<Choice>,
    i: nat,
) -> Seq<SearchState>
    decreases i,
{
    if i == 0 {
        Seq::empty()
    } else {
        table(search, s, mine, theirs, (i - 1) as nat) + row(
            search,
            s,
            mine[i - 1],
            theirs,
            theirs.len(),
        )
    }
}

/// The states that can follow a state: none when the steps are used up.
pub open spec fn next(search: Search, s: SearchState) -> Seq<SearchState> {
    if s.step >= search.steps {
        Seq::empty()
    } else {
        let mine = choices(search, s, s.player, s.elephant);
        let theirs = if search.elephant {
            choices(search, s, s.elephant, s.player)
        } else {
            seq![Choice::Idle]
        };
        table(search, s, mine, theirs, mine.len())
    }
}

/// Whether a choice is one that a walker can make.
pub open spec fn legal(search: Search, s: SearchState, e: Entity, other: Entity, c: Choice) -> bool {
    match c {
        Choice::Open(t, len) => e.dest is None && t < search.system.valves@.len() && !bit(
            s.enabled,
            t as int,
        ) && 1 <= len < 128 && !(other.dest is Some && other.dest.unwrap().0 == t),
        Choice::Continue => e.dest is Some,
        Choice::Idle => e.dest is None,
    }
}

/// A word has its lowest bit set or not.
proof fn lemma_low_bit(w: u64)
    ensures
        (w & 1 == 0) == !(w & 1 == 1),
{
    assert((w & 1 == 0) == !(w & 1 == 1)) by (bit_vector);
}

/// A step from a state that the search can be in, by choices that the
/// walkers can make and that are not passed over, leads to a state that
/// the search can be in.
#[verifier::spinoff_prover]
pub proof fn lemma_child_sound(search: Search, s: SearchState, mc: Choice, ec: Choice)
    requires
        search.fit(),
        search.sound(s),
        s.step < search.steps,
        legal(search, s, s.player, s.elephant, mc),
        legal(search, s, s.elephant, s.player, ec),
        !skip(s, mc, ec),
        !search.elephant ==> ec is Idle,
    ensures
        search.sound(child(search, s, mc, ec)),
        child(search, s, mc, ec).step == s.step + 1,
        s.volume + s.flow <= u32::MAX,
        ({
            let p = applied(mc, s.player);
            let e = applied(ec, s.elephant);
            let first = turned_on(search.system, s.enabled, s.flow as int, p.1);
            let second = turned_on(search.system, first.0, first.1, e.1);
            &&& (p.1 matches Some(v) ==> v < search.system.valves@.len() && !bit(s.enabled, v as int))
            &&& (e.1 matches Some(v) ==> v < search.system.valves@.len() && !bit(first.0, v as int))
            &&& first.1 == lit(search.system, first.0, search.system.valves@.len())
            &&& second.1 == lit(search.system, second.0, search.system.valves@.len())
            &&& 0 <= second.1 <= CAP
            &&& (p.0.dest matches Some(d) ==> d.1 != 0)
            &&& (e.0.dest matches Some(d) ==> d.1 != 0)
        }),
{
    let n = search.system.valves@.len();
    let p = applied(mc, s.player);
    let e = applied(ec, s.elephant);
    let first = turned_on(search.system, s.enabled, s.flow as int, p.1);
    let second = turned_on(search.system, first.0, first.1, e.1);
    lemma_lit_bound(search.system, s.enabled, n);
    if let Some(v) = p.1 {
        lemma_lit_more(search.system, s.enabled, v as u64, n);
        assert forall|j: int| 0 <= j < 64 implies bit(first.0, j) == (j == v || bit(s.enabled, j)) by {
            lemma_one_more_bit(s.enabled, v as u64, j as u64);
        }
    }
    if let Some(v) = e.1 {
        assert(!bit(first.0, v as int));
        lemma_lit_more(search.system, first.0, v as u64, n);
        assert forall|j: int| 0 <= j < 64 implies bit(second.0, j) == (j == v || bit(first.0, j)) by {
            lemma_one_more_bit(first.0, v as u64, j as u64);
        }
    }
    lemma_lit_bound(search.system, first.0, n);
    lemma_lit_bound(search.system, second.0, n);
    assert(s.volume + s.flow <= (s.step + 1) * CAP) by (nonlinear_arith)
        requires
            s.volume <= s.step * CAP,
            s.flow <= CAP,
    ;
    assert((s.step + 1) * CAP <= u32::MAX) by (nonlinear_arith)
        requires
            s.step + 1 <= 100,
            CAP == 0x3f_ffc0,
    ;
}

/// Lets a walker do what it chose, and gives the valve that it has
/// reached, if it has reached one.
fn apply_choice(choice: &Choice, entity: &mut Entity) -> (reached: Option<u8>)
    requires
        *choice is Continue ==> old(entity).dest is Some,
    ensures
        (*final(entity), reached) == applied(*choice, *old(entity)),
{
    match *choice {
        Choice::Open(dest, len) => {
            entity.dest = Some((dest, len));
            None
        },
        Choice::Idle => None,
        Choice::Continue => {
            let (dest, prog) = entity.dest.unwrap();
            if prog > 1 {
                entity.dest = Some((dest, prog - 1));
                None
            } else {
                entity.pos = dest;
                entity.dest = None;
                Some(dest)
            }
        },
    }
}

impl SearchState {
    /// What a walker can do next.
    fn build_choices(&self, search: &Search, e: &Entity, other: &Entity) -> (out: Vec<Choice>)
        requires
            search.fit(),
            search.aimed(self.enabled, *e),
            self.step <= search.steps,
        ensures
            out@ == choices(*search, *self, *e, *other),
            forall|k: int| 0 <= k < out@.len() ==> legal(*search, *self, *e, *other, #[trigger] out@[k]),
    {
        if e.dest.is_some() {
            return vec![Choice::Continue];
        }
        let mut out: Vec<Choice> = Vec::new();
        let mut k: usize = 0;
        while k < search.system.flow_priority.len()
            invariant
                k <= search.system.flow_priority@.len(),
                search.fit(),
                search.aimed(self.enabled, *e),
                self.step <= search.steps,
                e.dest is None,
                out@ == opens(*search, *self, *e, *other, k as nat),
                forall|j: int|
                    0 <= j < out@.len() ==> legal(*search, *self, *e, *other, #[trigger] out@[j])
                        && out@[j] is Open,
            decreases search.system.flow_priority@.len() - k,
        {
            let v = search.system.flow_priority[k];
            proof {
                lemma_low_bit(self.enabled >> (v as u64));
            }
            if (self.enabled >> (v as u64)) & 1 == 0 {
                let delay = search.system.valves[e.pos as usize].times[v] as u8;
                let mut taken = false;
                if let Some((p, _)) = other.dest {
                    if p as usize == v {
                        taken = true;
                    }
                }
                if !taken {
                    if self.step + delay + 2 > search.steps as u8 {
                    } else {
                        out.push(Choice::Open(v as u8, delay));
                    }
                }
            }
            k += 1;
        }
        if out.len() == 0 {
            out.push(Choice::Idle);
        }
        out
    }

    /// The states that can follow this one.
    pub fn next_states(&self, search: &Search) -> (out: Vec<SearchState>)
        requires
            search.fit(),
            search.sound(*self),
        ensures
            out@ == next(*search, *self),
            forall|k: int|
                0 <= k < out@.len() ==> search.sound(#[trigger] out@[k]) && out@[k].step == self.step
                    + 1,
    {
        if self.step >= search.steps as u8 {
            return vec![];
        }
        let my_choices = self.build_choices(search, &self.player, &self.elephant);
        let elephant_choices = if search.elephant {
            self.build_choices(search, &self.elephant, &self.player)
        } else {
            vec![Choice::Idle]
        };
        let ghost mine = my_choices@;
        let ghost theirs = elephant_choices@;
        proof {
            if !search.elephant {
                assert(theirs =~= seq![Choice::Idle]);
            }
        }
        let mut out: Vec<SearchState> = Vec::new();
        let mut i: usize = 0;
        while i < my_choices.len()
            invariant
                i <= my_choices@.len(),
                mine == my_choices@,
                theirs == elephant_choices@,
                mine == choices(*search, *self, self.player, self.elephant),
                theirs == if search.elephant {
                    choices(*search, *self, self.elephant, self.player)
                } else {
                    seq![Choice::Idle]
                },
                search.fit(),
                search.sound(*self),
                self.step < search.steps,
                forall|k: int|
                    0 <= k < mine.len() ==> legal(
                        *search,
                        *self,
                        self.player,
                        self.elephant,
                        #[trigger] mine[k],
                    ),
                forall|k: int|
                    0 <= k < theirs.len() ==> legal(
                        *search,
                        *self,
                        self.elephant,
                        self.player,
                        #[trigger] theirs[k],
                    ) && (!search.elephant ==> theirs[k] is Idle),
                out@ == table(*search, *self, mine, theirs, i as nat),
                forall|k: int|
                    0 <= k < out@.len() ==> search.sound(#[trigger] out@[k]) && out@[k].step
                        == self.step + 1,
            decreases my_choices@.len() - i,
        {
            let my_choice = my_choices[i];
            let ghost done = out@;
            let mut j: usize = 0;
            while j < elephant_choices.len()
                invariant
                    j <= elephant_choices@.len(),
                    i < my_choices@.len(),
                    mine == my_choices@,
                    theirs == elephant_choices@,
                    my_choice == mine[i as int],
                    search.fit(),
                    search.sound(*self),
                    self.step < search.steps,
                    legal(*search, *self, self.player, self.elephant, my_choice),
                    forall|k: int|
                        0 <= k < theirs.len() ==> legal(
                            *search,
                            *self,
                            self.elephant,
                            self.player,
                            #[trigger] theirs[k],
                        ) && (!search.elephant ==> theirs[k] is Idle),
                    out@ == done + row(*search, *self, my_choice, theirs, j as nat),
                    forall|k: int|
                        0 <= k < out@.len() ==> search.sound(#[trigger] out@[k]) && out@[k].step
                            == self.step + 1,
                decreases elephant_choices@.len() - j,
            {
                let ele_choice = elephant_choices[j];
                let ghost so_far = row(*search, *self, my_choice, theirs, j as nat);
                let mut passed = false;
                if let Choice::Open(ta, _) = my_choice {
                    if let Choice::Open(tb, _) = ele_choice {
                        if self.player.pos == self.elephant.pos {
                            if tb <= ta {
                                passed = true;
                            }
                        }
                        if ta == tb {
                            passed = true;
                        }
                    }
                }
                if !passed {
                    proof {
                        lemma_child_sound(*search, *self, my_choice, ele_choice);
                    }
                    let mut base = *self;
                    base.volume += base.flow;
                    base.step += 1;
                    if let Some(v) = apply_choice(&my_choice, &mut base.player) {
                        base.open_valve(search, v);
                    }
                    if let Some(v) = apply_choice(&ele_choice, &mut base.elephant) {
                        base.open_valve(search, v);
                    }
                    base.calculate_reward();
                    assert(base == child(*search, *self, my_choice, ele_choice));
                    out.push(base);
                    assert(out@ =~= done + so_far.push(base));
                } else {
                    assert(skip(*self, my_choice, ele_choice));
                }
                j += 1;
            }
            proof {
                assert(out@ =~= table(*search, *self, mine, theirs, (i + 1) as nat));
            }
            i += 1;
        }
        out
    }
}

/// The least number of steps from valve `sp` to a shut valve other than
/// `sp` among the first `k` worth opening, if there is one.
pub open spec fn lowest(search: Search, enabled: u64, sp: int, k: nat) -> Option<int>
    decreases k,
{
    if k == 0 {
        None
    } else {
        let rest = lowest(search, enabled, sp, (k - 1) as nat);
        let p = search.system.flow_priority@[k - 1] as int;
        if !bit(enabled, p) && p != sp {
            let time = search.system.valves@[sp].times@[p] as int;
            match rest {
                Some(v) => if time < v {
                    Some(time)
                } else {
                    rest
                },
                None => Some(time),
            }
        } else {
            rest
        }
    }
}

/// What a walker could do at best: the step in which it opens the valve
/// to which it is on its way, that valve, and the step in which it could
/// open the next. A walker on no way could open a valve in the first
/// step and in the fourth.
pub open spec fn plan(search: Search, enabled: u64, e: Entity) -> (int, Option<u8>, int) {
    match e.dest {
        Some(d) => (
            d.1 - 1,
            Some(d.0),
            d.1 - 1 + (match lowest(
                search,
                enabled,
                d.0 as int,
                search.system.flow_priority@.len(),
            ) {
                Some(t) => t,
                None => 1,
            }) + 1,
        ),
        None => (0, None, 3),
    }
}

/// The valve that a walker's valve counts as when valves are handed out:
/// valve zero where it has none.
pub open spec fn held(specific: Option<u8>) -> int {
    match specific {
        Some(v) => v as int,
        None => 0,
    }
}

/// The first shut valve among the first `k` worth opening that neither
/// walker holds, if there is one.
pub open spec fn pick(search: Search, enabled: u64, a: Option<u8>, b: Option<u8>, k: nat) -> Option<
    int,
>
    decreases k,
{
    if k == 0 {
        None
    } else {
        match pick(search, enabled, a, b, (k - 1) as nat) {
            Some(p) => Some(p),
            None => {
                let p = search.system.flow_priority@[k - 1] as int;
                if p != held(a) && p != held(b) && !bit(enabled, p) {
                    Some(p)
                } else {
                    None
                }
            },
        }
    }
}

/// The valves that are open and what flows, after the best shut valve
/// that neither walker holds has been opened, if there is one.
pub open spec fn assigned(search: Search, st: (u64, int), a: Option<u8>, b: Option<u8>) -> (
    u64,
    int,
) {
    match pick(search, st.0, a, b, search.system.flow_priority@.len()) {
        Some(p) => opened(search.system, st.0, st.1, p as u8),
        None => st,
    }
}

/// Whether a walker opens a valve in step `c`: in its first step, in the
/// step of the next, and in every third step after that.
pub open spec fn acts(c: int, first: int, next: int) -> bool {
    c == first || (c >= next && (c - next) % 3 == 0)
}

/// The valves that are open and what flows after a walker had its turn
/// in step `c`.
pub open spec fn acted(
    search: Search,
    st: (u64, int),
    c: int,
    p: (int, Option<u8>, int),
    a: Option<u8>,
    b: Option<u8>,
) -> (u64, int) {
    if acts(c, p.0, p.2) {
        match p.1 {
            Some(v) => if c == p.0 {
                opened(search.system, st.0, st.1, v)
            } else {
                assigned(search, st, a, b)
            },
            None => assigned(search, st, a, b),
        }
    } else {
        st
    }
}

/// The valves that are open, what flows and what has flowed after `c`
/// more steps, if the walkers do what they could do at best.
pub open spec fn outlook(search: Search, s: SearchState, c: nat) -> (u64, int, int)
    decreases c,
{
    if c == 0 {
        (s.enabled, s.flow as int, s.volume as int)
    } else {
        let prev = outlook(search, s, (c - 1) as nat);
        let pa = plan(search, s.enabled, s.player);
        let pb = plan(search, s.enabled, s.elephant);
        let first = acted(search, (prev.0, prev.1), c - 1, pa, pa.1, pb.1);
        let second = if search.elephant {
            acted(search, first, c - 1, pb, pa.1, pb.1)
        } else {
            first
        };
        (second.0, second.1, prev.2 + prev.1)
    }
}

impl SearchState {
    /// What a walker could do at best.
    fn plan_for(&self, search: &Search, entity: &Entity) -> (r: (usize, Option<u8>, usize))
        requires
            search.fit(),
            search.aimed(self.enabled, *entity),
        ensures
            (r.0 as int, r.1, r.2 as int) == plan(*search, self.enabled, *entity),
            r.0 < 128,
            r.2 < 512,
    {
        match entity.dest {
            Some((sp, left)) => {
                let first = (left - 1) as usize;
                let mut lowest_time: Option<usize> = None;
                let mut k: usize = 0;
                while k < search.system.flow_priority.len()
                    invariant
                        k <= search.system.flow_priority@.len(),
                        search.fit(),
                        sp < search.system.valves@.len(),
                        match lowest_time {
                            Some(t) => lowest(*search, self.enabled, sp as int, k as nat) == Some(
                                t as int,
                            ) && t < 128,
                            None => lowest(*search, self.enabled, sp as int, k as nat) is None,
                        },
                    decreases search.system.flow_priority@.len() - k,
                {
                    let p = search.system.flow_priority[k];
                    proof {
                        lemma_low_bit(self.enabled >> (p as u64));
                    }
                    if (self.enabled >> (p as u64)) & 1 == 0 && p != sp as usize {
                        let time = search.system.valves[sp as usize].times[p];
                        if let Some(v) = lowest_time {
                            if time < v {
                                lowest_time = Some(time);
                            }
                        } else {
                            lowest_time = Some(time);
                        }
                    }
                    k += 1;
                }
                let gap = match lowest_time {
                    Some(t) => t,
                    None => 1,
                };
                (first, Some(sp), first + gap + 1)
            },
            None => (0, None, 3),
        }
    }

    /// Opens the best shut valve that neither walker holds, if there is
    /// one.
    fn generic_assign(&mut self, search: &Search, a: Option<u8>, b: Option<u8>)
        requires
            search.fit(),
            old(self).flow == lit(search.system, old(self).enabled, search.system.valves@.len()),
        ensures
            final(self).player == old(self).player,
            final(self).elephant == old(self).elephant,
            final(self).volume == old(self).volume,
            final(self).step == old(self).step,
            final(self).reward == old(self).reward,
            (final(self).enabled, final(self).flow as int) == assigned(
                *search,
                (old(self).enabled, old(self).flow as int),
                a,
                b,
            ),
            final(self).flow == lit(search.system, final(self).enabled, search.system.valves@.len()),
            forall|j: int|
                0 <= j < 64 && bit(final(self).enabled, j) && !bit(old(self).enabled, j) ==> j
                    != held(a) && j != held(b),
    {
        let skip_a = match a {
            Some(v) => v as usize,
            None => 0,
        };
        let skip_b = match b {
            Some(v) => v as usize,
            None => 0,
        };
        let mut k: usize = 0;
        while k < search.system.flow_priority.len()
            invariant
                k <= search.system.flow_priority@.len(),
                search.fit(),
                *self == *old(self),
                skip_a == held(a),
                skip_b == held(b),
                self.flow == lit(search.system, self.enabled, search.system.valves@.len()),
                pick(*search, self.enabled, a, b, k as nat) is None,
            decreases search.system.flow_priority@.len() - k,
        {
            let p = search.system.flow_priority[k];
            proof {
                lemma_low_bit(self.enabled >> (p as u64));
            }
            if p == skip_a || p == skip_b {
            } else if (self.enabled >> (p as u64)) & 1 == 0 {
                proof {
                    assert(pick(*search, self.enabled, a, b, (k + 1) as nat) == Some(p as int));
                    lemma_pick_stays(
                        *search,
                        self.enabled,
                        a,
                        b,
                        (k + 1) as nat,
                        search.system.flow_priority@.len(),
                    );
                }
                self.open_valve(search, p as u8);
                return ;
            }
            k += 1;
        }
    }

    /// The most that can have flowed at the end, if each walker opens the
    /// valve to which it is on its way as soon as it gets there, then the
    /// nearest in as many steps as it is away, and from then on a valve
    /// every three steps, each time the best that is shut.
    pub fn best_possible_outcome(&self, search: &Search) -> (out: usize)
        requires
            search.fit(),
            search.sound(*self),
        ensures
            out == outlook(*search, *self, (search.steps - self.step) as nat).2,
            out >= self.volume + (search.steps - self.step) * self.flow,
    {
        let steps = search.steps - self.step as usize;
        let mut clone = *self;
        let mut out = self.volume as usize;
        let (a_first, a_specific, a_next) = self.plan_for(search, &self.player);
        let (b_first, b_specific, b_next) = self.plan_for(search, &self.elephant);
        let ghost pa = plan(*search, self.enabled, self.player);
        let ghost pb = plan(*search, self.enabled, self.elephant);
        let ghost n = search.system.valves@.len();
        proof {
            lemma_lit_bound(search.system, self.enabled, n);
            assert(self.volume <= 100 * CAP) by (nonlinear_arith)
                requires
                    self.volume <= self.step * CAP,
                    self.step <= 100,
            ;
        }
        let mut c: usize = 0;
        while c < steps
            invariant
                c <= steps,
                steps == search.steps - self.step,
                steps <= 100,
                search.fit(),
                search.sound(*self),
                n == search.system.valves@.len(),
                pa == plan(*search, self.enabled, self.player),
                pb == plan(*search, self.enabled, self.elephant),
                (a_first as int, a_specific, a_next as int) == pa,
                (b_first as int, b_specific, b_next as int) == pb,
                (clone.enabled, clone.flow as int, out as int) == outlook(*search, *self, c as nat),
                clone.flow == lit(search.system, clone.enabled, n),
                clone.flow >= self.flow,
                out >= self.volume + c * self.flow,
                out <= 100 * CAP + c * CAP,
                a_specific matches Some(v) ==> c <= a_first ==> !bit(clone.enabled, v as int),
                b_specific matches Some(v) ==> c <= b_first ==> !bit(clone.enabled, v as int),
                a_specific is Some && b_specific is Some ==> a_specific.unwrap() != b_specific.unwrap(),
            decreases steps - c,
        {
            proof {
                lemma_lit_bound(search.system, clone.enabled, n);
                assert(100 * CAP + c * CAP + CAP <= 201 * CAP) by (nonlinear_arith)
                    requires
                        c <= 100,
                ;
                assert(self.volume + c * self.flow + self.flow == self.volume + (c + 1) * self.flow)
                    by (nonlinear_arith);
                assert(100 * CAP + c * CAP + CAP == 100 * CAP + (c + 1) * CAP) by (nonlinear_arith);
            }
            out += clone.flow as usize;
            let a_trigger = c == a_first || ((c >= a_next) && ((c - a_next) % 3 == 0));
            let b_trigger = c == b_first || ((c >= b_next) && ((c - b_next) % 3 == 0));
            let ghost before = clone;
            if a_trigger {
                if let Some(v) = a_specific {
                    if c == a_first {
                        clone.open_valve(search, v);
                    } else {
                        clone.generic_assign(search, a_specific, b_specific);
                    }
                } else {
                    clone.generic_assign(search, a_specific, b_specific);
                }
            }
            proof {
                assert((clone.enabled, clone.flow as int) == acted(
                    *search,
                    (before.enabled, before.flow as int),
                    c as int,
                    pa,
                    pa.1,
                    pb.1,
                ));
                lemma_lit_bound(search.system, clone.enabled, n);
            }
            let ghost middle = clone;
            if b_trigger && search.elephant {
                if let Some(v) = b_specific {
                    if c == b_first {
                        clone.open_valve(search, v);
                    } else {
                        clone.generic_assign(search, a_specific, b_specific);
                    }
                } else {
                    clone.generic_assign(search, a_specific, b_specific);
                }
            }
            proof {
                if search.elephant {
                    assert((clone.enabled, clone.flow as int) == acted(
                        *search,
                        (middle.enabled, middle.flow as int),
                        c as int,
                        pb,
                        pa.1,
                        pb.1,
                    ));
                }
                lemma_lit_bound(search.system, clone.enabled, n);
            }
            c += 1;
        }
        out
    }
}

/// The first valve picked among some is the first picked among more.
pub proof fn lemma_pick_stays(
    search: Search,
    enabled: u64,
    a: Option<u8>,
    b: Option<u8>,
    k: nat,
    m: nat,
)
    requires
        k <= m,
        pick(search, enabled, a, b, k) is Some,
    ensures
        pick(search, enabled, a, b, m) == pick(search, enabled, a, b, k),
    decreases m,
{
    if k < m {
        lemma_pick_stays(search, enabled, a, b, k, (m - 1) as nat);
    }
}

/// The numbers by which states are ordered, in the order of their
/// weight: the two walkers, each by the valve at which it stands and the
/// valve to which it is on its way (a walker on no way first), the open
/// valves, what has flowed, what flows, the steps taken and the promise.
pub open spec fn key(s: SearchState) -> Seq<int> {
    seq![
        s.player.pos as int,
        if s.player.dest is Some { 1int } else { 0int },
        if s.player.dest is Some { s.player.dest.unwrap().0 as int } else { 0int },
        if s.player.dest is Some { s.player.dest.unwrap().1 as int } else { 0int },
        s.elephant.pos as int,
        if s.elephant.dest is Some { 1int } else { 0int },
        if s.elephant.dest is Some { s.elephant.dest.unwrap().0 as int } else { 0int },
        if s.elephant.dest is Some { s.elephant.dest.unwrap().1 as int } else { 0int },
        s.enabled as int,
        s.volume as int,
        s.flow as int,
        s.step as int,
        s.reward as int,
    ]
}

/// Whether one row of numbers comes before another of the same length,
/// from place `i` on: at the first place where they differ it has the
/// lower number.
pub open spec fn lex_less(a: Seq<int>, b: Seq<int>, i: nat) -> bool
    decreases a.len() - i,
{
    if i >= a.len() {
        false
    } else if a[i as int] < b[i as int] {
        true
    } else if a[i as int] > b[i as int] {
        false
    } else {
        lex_less(a, b, i + 1)
    }
}

/// Whether state `a` comes before state `b`.
pub open spec fn less(a: SearchState, b: SearchState) -> bool {
    lex_less(key(a), key(b), 0)
}

/// The place among the first `k` of a falling row of states at which a
/// state is put: behind all that do not come before it.
pub open spec fn slot(sorted: Seq<SearchState>, x: SearchState, k: nat) -> nat
    decreases k,
{
    if k > 0 && less(sorted[k - 1], x) {
        slot(sorted, x, (k - 1) as nat)
    } else {
        k
    }
}

/// The first `n` of some states in falling order.
pub open spec fn falling(kids: Seq<SearchState>, n: nat) -> Seq<SearchState>
    decreases n,
{
    if n == 0 {
        Seq::empty()
    } else {
        let prev = falling(kids, (n - 1) as nat);
        prev.insert(slot(prev, kids[n - 1], prev.len()) as int, kids[n - 1])
    }
}

/// States in falling order are the states that were given, in some
/// order.
pub proof fn lemma_falling(kids: Seq<SearchState>, n: nat)
    requires
        n <= kids.len(),
    ensures
        falling(kids, n).len() == n,
        forall|i: int| 0 <= i < n ==> kids.take(n as int).contains(#[trigger] falling(kids, n)[i]),
    decreases n,
{
    if n > 0 {
        lemma_falling(kids, (n - 1) as nat);
        let prev = falling(kids, (n - 1) as nat);
        lemma_slot(prev, kids[n - 1], prev.len());
        let at = slot(prev, kids[n - 1], prev.len()) as int;
        let now = falling(kids, n);
        let given = kids.take(n as int);
        assert forall|i: int| 0 <= i < n implies given.contains(#[trigger] now[i]) by {
            if i == at {
                assert(given[n - 1] == now[i]);
            } else {
                let was = if i < at {
                    i
                } else {
                    i - 1
                };
                assert(now[i] == prev[was]);
                let earlier = kids.take(n - 1);
                assert(earlier.contains(prev[was]));
                let j = choose|j: int| 0 <= j < n - 1 && earlier[j] == prev[was];
                assert(given[j] == now[i]);
            }
        }
    }
}

/// The place at which a state is put lies in the row.
pub proof fn lemma_slot(sorted: Seq<SearchState>, x: SearchState, k: nat)
    ensures
        slot(sorted, x, k) <= k,
    decreases k,
{
    if k > 0 && less(sorted[k - 1], x) {
        lemma_slot(sorted, x, (k - 1) as nat);
    }
}

/// The numbers by which a state is ordered.
fn key_of(s: &SearchState) -> (v: Vec<u64>)
    ensures
        v@.len() == 13,
        forall|i: int| 0 <= i < 13 ==> #[trigger] v@[i] as int == key(*s)[i],
{
    let (p_tag, p_to, p_left): (u64, u64, u64) = match s.player.dest {
        Some((to, left)) => (1, to as u64, left as u64),
        None => (0, 0, 0),
    };
    let (e_tag, e_to, e_left): (u64, u64, u64) = match s.elephant.dest {
        Some((to, left)) => (1, to as u64, left as u64),
        None => (0, 0, 0),
    };
    vec![
        s.player.pos as u64,
        p_tag,
        p_to,
        p_left,
        s.elephant.pos as u64,
        e_tag,
        e_to,
        e_left,
        s.enabled,
        s.volume as u64,
        s.flow as u64,
        s.step as u64,
        s.reward as u64,
    ]
}

/// Whether state `a` comes before state `b`.
pub fn comes_before(a: &SearchState, b: &SearchState) -> (r: bool)
    ensures
        r == less(*a, *b),
{
    let ka = key_of(a);
    let kb = key_of(b);
    let mut i: usize = 0;
    while i < 13
        invariant
            i <= 13,
            ka@.len() == 13,
            kb@.len() == 13,
            key(*a).len() == 13,
            forall|j: int| 0 <= j < 13 ==> #[trigger] ka@[j] as int == key(*a)[j],
            forall|j: int| 0 <= j < 13 ==> #[trigger] kb@[j] as int == key(*b)[j],
            less(*a, *b) == lex_less(key(*a), key(*b), i as nat),
        decreases 13 - i,
    {
        if ka[i] < kb[i] {
            return true;
        }
        if ka[i] > kb[i] {
            return false;
        }
        i += 1;
    }
    false
}

/// The states in falling order.
pub fn sort_falling(kids: &Vec<SearchState>) -> (out: Vec<SearchState>)
    ensures
        out@ == falling(kids@, kids@.len()),
{
    let mut out: Vec<SearchState> = Vec::new();
    let mut n: usize = 0;
    while n < kids.len()
        invariant
            n <= kids@.len(),
            out@ == falling(kids@, n as nat),
            out@.len() == n,
        decreases kids@.len() - n,
    {
        let x = kids[n];
        let mut k: usize = out.len();
        while k > 0 && comes_before(&out[k - 1], &x)
            invariant
                k <= out@.len(),
                slot(out@, x, out@.len()) == slot(out@, x, k as nat),
            decreases k,
        {
            k -= 1;
        }
        out.insert(k, x);
        n += 1;
    }
    out
}

/// The best state known after a state has come up, and whether the
/// search goes on from that state: it does not where the best known is
/// as good as anything that the state could still lead to.
pub open spec fn judged(p: Search, best: Option<SearchState>, child: SearchState) -> (
    bool,
    Option<SearchState>,
) {
    match best {
        Some(b) => if b.volume >= outlook(p, child, (p.steps - child.step) as nat).2 {
            (false, best)
        } else if b.volume < child.volume {
            (true, Some(child))
        } else {
            (true, best)
        },
        None => (true, Some(child)),
    }
}

/// The best state known when the search has gone through the states
/// from the `i`-th on that follow a state with `room` steps left.
pub open spec fn sweep(
    p: Search,
    best: Option<SearchState>,
    kids: Seq<SearchState>,
    i: nat,
    room: nat,
) -> Option<SearchState>
    decreases room, 0int, kids.len() - i,
{
    if i >= kids.len() {
        best
    } else {
        let child = kids[i as int];
        let j = judged(p, best, child);
        let then = if j.0 && 0 <= p.steps - child.step < room {
            explore(p, j.1, child)
        } else {
            j.1
        };
        sweep(p, then, kids, i + 1, room)
    }
}

/// The best state known when the search has gone through all that can
/// follow a state, the most promising first.
pub open spec fn explore(p: Search, best: Option<SearchState>, state: SearchState) -> Option<
    SearchState,
>
    decreases (p.steps - state.step) as nat, 1int, 0int,
{
    let kids = next(p, state);
    sweep(p, best, falling(kids, kids.len()), 0, (p.steps - state.step) as nat)
}

/// What the search has found and counted.
pub struct Tally {
    pub checked: usize,
    pub skipped: usize,
    pub best: Option<SearchState>,
}

impl Search {
    /// A search that has found nothing yet, with both walkers at valve
    /// `start`.
    pub fn new(system: System, steps: usize, elephant: bool, start: u8) -> (search: Search)
        ensures
            search.steps == steps,
            search.elephant == elephant,
            search.checked == 0,
            search.skipped == 0,
            search.system == system,
            search.best is None,
            search.initial == (SearchState {
                player: Entity { pos: start, dest: None },
                elephant: Entity { pos: start, dest: None },
                flow: 0,
                reward: 0,
                enabled: 0,
                volume: 0,
                step: 0,
            }),
    {
        Search {
            steps,
            elephant,
            checked: 0,
            skipped: 0,
            system,
            best: None,
            initial: SearchState {
                player: Entity { pos: start, dest: None },
                elephant: Entity { pos: start, dest: None },
                flow: 0,
                reward: 0,
                enabled: 0,
                volume: 0,
                step: 0,
            },
        }
    }

    /// Goes through all that can follow a state, the most promising
    /// first, and keeps the best state that comes up.
    fn explore_from(&self, tally: &mut Tally, state: SearchState)
        requires
            self.fit(),
            self.sound(state),
        ensures
            final(tally).best == explore(*self, old(tally).best, state),
        decreases self.steps - state.step,
    {
        let choices = state.next_states(self);
        if tally.checked < usize::MAX {
            tally.checked += 1;
        }
        let kids = sort_falling(&choices);
        let ghost room = (self.steps - state.step) as nat;
        proof {
            lemma_falling(choices@, choices@.len());
            assert(choices@.take(choices@.len() as int) =~= choices@);
            assert forall|k: int| 0 <= k < kids@.len() implies self.sound(#[trigger] kids@[k])
                && kids@[k].step == state.step + 1 by {
                assert(choices@.contains(kids@[k]));
                let j = choose|j: int| 0 <= j < choices@.len() && choices@[j] == kids@[k];
                assert(self.sound(choices@[j]));
            }
        }
        let mut i: usize = 0;
        while i < kids.len()
            invariant
                i <= kids@.len(),
                self.fit(),
                self.sound(state),
                room == self.steps - state.step,
                choices@ == next(*self, state),
                kids@ == falling(choices@, choices@.len()),
                forall|k: int|
                    0 <= k < kids@.len() ==> self.sound(#[trigger] kids@[k]) && kids@[k].step
                        == state.step + 1,
                sweep(*self, old(tally).best, kids@, 0, room) == sweep(
                    *self,
                    tally.best,
                    kids@,
                    i as nat,
                    room,
                ),
            decreases kids@.len() - i,
        {
            let child = kids[i];
            let mut go = true;
            if let Some(best) = tally.best {
                let best_outcome = child.best_possible_outcome(self);
                if best.volume as usize >= best_outcome {
                    if tally.skipped < usize::MAX {
                        tally.skipped += 1;
                    }
                    go = false;
                } else if best.volume < child.volume {
                    tally.best = Some(child);
                }
            } else {
                tally.best = Some(child);
            }
            if go {
                self.explore_from(tally, child);
            }
            i += 1;
        }
    }

    /// Searches on from a state.
    pub fn search_inner(&mut self, state: SearchState)
        requires
            old(self).fit(),
            old(self).sound(state),
        ensures
            final(self).steps == old(self).steps,
            final(self).elephant == old(self).elephant,
            final(self).system == old(self).system,
            final(self).initial == old(self).initial,
            final(self).best == explore(*old(self), old(self).best, state),
    {
        let mut tally = Tally { checked: self.checked, skipped: self.skipped, best: self.best };
        self.explore_from(&mut tally, state);
        self.checked = tally.checked;
        self.skipped = tally.skipped;
        self.best = tally.best;
    }

    /// Searches from the state at the start, and gives what has flowed
    /// in the best state found; nothing where no state follows the first.
    pub fn search(&mut self) -> (volume: Option<u32>)
        requires
            old(self).fit(),
            old(self).sound(old(self).initial),
        ensures
            final(self).steps == old(self).steps,
            final(self).elephant == old(self).elephant,
            final(self).system == old(self).system,
            final(self).initial == old(self).initial,
            final(self).best == explore(*old(self), old(self).best, old(self).initial),
            volume == match final(self).best {
                Some(b) => Some(b.volume),
                None => None,
            },
    {
        let initial = self.initial;
        self.search_inner(initial);
        match self.best {
            Some(b) => Some(b.volume),
            None => None,
        }
    }
}

impl Search {
    /// Whether the search can go.
    pub fn fits(&self) -> (b: bool)
        ensures
            b == self.fit(),
    {
        let n = self.system.valves.len();
        if n == 0 || n > 64 || self.steps > 100 {
            return false;
        }
        let mut i: usize = 0;
        while i < n
            invariant
                i <= n,
                n == self.system.valves@.len(),
                forall|a: int|
                    0 <= a < i ==> (#[trigger] self.system.valves@[a]).times@.len() == n
                        && self.system.valves@[a].flow <= 0xffff,
                forall|a: int, x: int|
                    0 <= a < i && 0 <= x < n ==> (#[trigger] self.system.valves@[a].times@[x]) < 128
                        && (a != x ==> self.system.valves@[a].times@[x] >= 1),
            decreases n - i,
        {
            let valve = &self.system.valves[i];
            if valve.times.len() != n || valve.flow > 0xffff {
                return false;
            }
            let mut x: usize = 0;
            while x < n
                invariant
                    x <= n,
                    i < n,
                    n == self.system.valves@.len(),
                    valve == self.system.valves@[i as int],
                    valve.times@.len() == n,
                    forall|y: int|
                        0 <= y < x ==> (#[trigger] valve.times@[y]) < 128 && (i != y
                            ==> valve.times@[y] >= 1),
                decreases n - x,
            {
                let t = valve.times[x];
                if t >= 128 || (i != x && t < 1) {
                    return false;
                }
                x += 1;
            }
            i += 1;
        }
        let mut k: usize = 0;
        while k < self.system.flow_priority.len()
            invariant
                k <= self.system.flow_priority@.len(),
                n == self.system.valves@.len(),
                forall|j: int|
                    0 <= j < k ==> (#[trigger] self.system.flow_priority@[j]) < n
                        && self.system.flow_of(self.system.flow_priority@[j] as int) > 0,
            decreases self.system.flow_priority@.len() - k,
        {
            let p = self.system.flow_priority[k];
            if p >= n {
                return false;
            }
            if self.system.valves[p].flow == 0 {
                return false;
            }
            k += 1;
        }
        true
    }

    /// Whether a walker fits the valves that are open.
    fn is_aimed(&self, enabled: u64, e: &Entity) -> (b: bool)
        requires
            self.fit(),
        ensures
            b == self.aimed(enabled, *e),
    {
        let n = self.system.valves.len();
        if e.pos as usize >= n {
            return false;
        }
        match e.dest {
            Some((to, left)) => {
                if to as usize >= n || left < 1 || left >= 128 {
                    return false;
                }
                proof {
                    lemma_low_bit(enabled >> (to as u64));
                }
                (enabled >> (to as u64)) & 1 == 0
            },
            None => {
                (enabled >> (e.pos as u64)) & 1 == 1 || self.system.valves[e.pos as usize].flow == 0
            },
        }
    }

    /// What flows through the open valves.
    fn flowing(&self, enabled: u64) -> (total: u32)
        requires
            self.fit(),
        ensures
            total == lit(self.system, enabled, self.system.valves@.len()),
    {
        let n = self.system.valves.len();
        let mut total: u32 = 0;
        let mut i: usize = 0;
        while i < n
            invariant
                i <= n,
                n == self.system.valves@.len(),
                self.fit(),
                total == lit(self.system, enabled, i as nat),
                total <= i * 0xffff,
            decreases n - i,
        {
            if (enabled >> (i as u64)) & 1 == 1 {
                total += self.system.valves[i].flow as u32;
            }
            i += 1;
        }
        total
    }

    /// Whether a state is one that the search can be in.
    pub fn is_sound(&self, s: &SearchState) -> (b: bool)
        requires
            self.fit(),
        ensures
            b == self.sound(*s),
    {
        if !self.is_aimed(s.enabled, &s.player) || !self.is_aimed(s.enabled, &s.elephant) {
            return false;
        }
        if let Some((a, _)) = s.player.dest {
            if let Some((b, _)) = s.elephant.dest {
                if a == b {
                    return false;
                }
            }
        }
        if !self.elephant && s.elephant.dest.is_some() {
            return false;
        }
        if s.step as usize > self.steps {
            return false;
        }
        if s.flow != self.flowing(s.enabled) {
            return false;
        }
        s.volume as u64 <= s.step as u64 * 0x3f_ffc0
    }

    /// Whether the search can go from the state at its start.
    pub fn ready(&self) -> (b: bool)
        ensures
            b == (self.fit() && self.sound(self.initial)),
    {
        self.fits() && self.is_sound(&self.initial)
    }
}

/// The pattern of a line that tells of a valve: its name of two
/// characters, its flow, and the names of the valves that its tunnels
/// lead to.
pub const VALVE_PATTERN: &'static str =
    "^Valve (..) has flow rate=(\\d+); tunnels* leads* to valves* (.+)$";

/// The names that a list writes, cut at every comma; a blank behind a
/// comma is no part of the name that follows.
pub open spec fn names_of(list: Seq<char>) -> Seq<Seq<char>>
    decreases list.len(),
{
    match first_index(list, ',') {
        Some(i) => if 0 <= i < list.len() {
            let rest = list.skip(i + 1);
            seq![list.take(i)] + names_of(
                if rest.len() > 0 && rest[0] == ' ' {
                    rest.skip(1)
                } else {
                    rest
                },
            )
        } else {
            seq![list]
        },
        None => seq![list],
    }
}

/// The texts of some strings.
pub open spec fn texts(v: Seq<String>) -> Seq<Seq<char>> {
    Seq::new(v.len(), |i: int| v[i]@)
}

/// Reads the names of a list.
pub fn read_names(list: &Vec<char>) -> (out: Vec<String>)
    ensures
        texts(out@) == names_of(list@),
{
    let mut out: Vec<String> = Vec::new();
    let mut start: usize = 0;
    let total = list.len();
    assert(list@.skip(0) =~= list@);
    assert(texts(out@) =~= Seq::<Seq<char>>::empty());
    loop
        invariant
            start <= list@.len(),
            total == list@.len(),
            names_of(list@) == texts(out@) + names_of(list@.skip(start as int)),
        decreases list@.len() - start,
    {
        let ghost rest = list@.skip(start as int);
        let ghost before = texts(out@);
        match find_from(list, ',', start) {
            None => {
                let name = string_of(list, start, total);
                assert(name@ =~= rest);
                out.push(name);
                assert(texts(out@) =~= before + seq![rest]);
                return out;
            },
            Some(i) => {
                let name = string_of(list, start, i);
                assert(name@ =~= rest.take(i - start));
                out.push(name);
                let next = if i + 1 < total && list[i + 1] == ' ' {
                    i + 2
                } else {
                    i + 1
                };
                proof {
                    let after = rest.skip(i - start + 1);
                    assert(after =~= list@.skip(i + 1));
                    if after.len() > 0 {
                        assert(after[0] == list@[i + 1]);
                    }
                    if after.len() > 0 && after[0] == ' ' {
                        assert(after.skip(1) =~= list@.skip(i + 2));
                    }
                    let more = names_of(list@.skip(next as int));
                    assert(texts(out@) =~= before + seq![rest.take(i - start)]);
                    assert(before + (seq![rest.take(i - start)] + more) =~= texts(out@) + more);
                }
                start = next;
            },
        }
    }
}

/// What a line tells of a valve, given the groups that the pattern found
/// in it: the name, the flow and the names of the neighbours.
pub open spec fn told(groups: Option<Seq<Option<Seq<char>>>>) -> Option<
    (Seq<char>, usize, Seq<Seq<char>>),
> {
    match groups {
        Some(g) => match (group_text(g, 1), group_text(g, 2), group_text(g, 3)) {
            (Some(name), Some(flow), Some(list)) => match plus_value(flow, usize::MAX as nat) {
                Some(f) => Some((name, f as usize, names_of(list))),
                None => None,
            },
            _ => None,
        },
        None => None,
    }
}

/// What was read of a valve: the name, the flow and the names of the
/// neighbours.
pub struct Told {
    pub name: String,
    pub flow: usize,
    pub to: Vec<String>,
}

impl Told {
    /// The texts of what was read.
    pub open spec fn view(&self) -> (Seq<char>, usize, Seq<Seq<char>>) {
        (self.name@, self.flow, texts(self.to@))
    }
}

/// Reads what the groups of a matched line tell of a valve.
pub fn told_from_groups(found: Option<Vec<Option<String>>>) -> (r: Option<Told>)
    ensures
        match told(groups_view(found)) {
            Some(t) => r matches Some(got) && got@ == t,
            None => r is None,
        },
{
    match found {
        Some(groups) => {
            let name = match group(&groups, 1) {
                Some(s) => chars_of(s),
                None => {
                    return None;
                },
            };
            let flow = match group(&groups, 2) {
                Some(s) => chars_of(s),
                None => {
                    return None;
                },
            };
            let list = match group(&groups, 3) {
                Some(s) => chars_of(s),
                None => {
                    return None;
                },
            };
            match read_plus(&flow) {
                Some(f) => {
                    let text = string_of(&name, 0, name.len());
                    assert(name@.subrange(0, name@.len() as int) =~= name@);
                    Some(Told { name: text, flow: f, to: read_names(&list) })
                },
                None => None,
            }
        },
        None => None,
    }
}

/// Reads what a line tells of a valve, with the given pattern.
pub fn read_valve(pattern: &Pattern, line: &str) -> (r: Option<Told>)
    ensures
        match told(regex_groups(pattern.text(), line@)) {
            Some(t) => r matches Some(got) && got@ == t,
            None => r is None,
        },
{
    told_from_groups(pattern.captures(line))
}

/// The first place among the first `n` names at which a name stands.
pub open spec fn spot(names: Seq<Seq<char>>, name: Seq<char>, n: nat) -> Option<int>
    decreases n,
{
    if n == 0 {
        None
    } else {
        match spot(names, name, (n - 1) as nat) {
            Some(i) => Some(i),
            None => if names[n - 1] == name {
                Some(n - 1)
            } else {
                None
            },
        }
    }
}

/// The names after a name has been noted, and its number: the place at
/// which it stood, or the end of the names, where it is put if it did
/// not stand among them.
pub open spec fn noted(names: Seq<Seq<char>>, name: Seq<char>) -> (Seq<Seq<char>>, int) {
    match spot(names, name, names.len()) {
        Some(i) => (names, i),
        None => (names.push(name), names.len() as int),
    }
}

/// A name found among some names is the first found among more.
proof fn lemma_spot_stays(names: Seq<Seq<char>>, name: Seq<char>, n: nat, m: nat)
    requires
        n <= m,
        spot(names, name, n) is Some,
    ensures
        spot(names, name, m) == spot(names, name, n),
    decreases m,
{
    if n < m {
        lemma_spot_stays(names, name, n, (m - 1) as nat);
    }
}

/// Notes a name and gives its number.
pub fn number_for(names: &mut Vec<String>, name: &String) -> (n: usize)
    ensures
        (texts(final(names)@), n as int) == noted(texts(old(names)@), name@),
{
    let ghost before = texts(names@);
    let mut i: usize = 0;
    while i < names.len()
        invariant
            i <= names@.len(),
            *names == *old(names),
            before == texts(names@),
            spot(before, name@, i as nat) is None,
        decreases names@.len() - i,
    {
        if names[i].eq(name) {
            proof {
                assert(before[i as int] == names@[i as int]@);
                assert(spot(before, name@, (i + 1) as nat) == Some(i as int));
                lemma_spot_stays(before, name@, (i + 1) as nat, before.len());
            }
            return i;
        }
        proof {
            assert(before[i as int] == names@[i as int]@);
        }
        i += 1;
    }
    let n = names.len();
    names.push(name.clone());
    proof {
        assert(texts(names@) =~= before.push(name@));
    }
    n
}

/// The names after the first `k` names of a list have been noted, and
/// their numbers.
pub open spec fn all_noted(names: Seq<Seq<char>>, list: Seq<Seq<char>>, k: nat) -> (
    Seq<Seq<char>>,
    Seq<usize>,
)
    decreases k,
{
    if k == 0 {
        (names, Seq::empty())
    } else {
        let prev = all_noted(names, list, (k - 1) as nat);
        let next = noted(prev.0, list[k - 1]);
        (next.0, prev.1.push(next.1 as usize))
    }
}

/// The names and the valves after the first `n` of what was read have
/// been taken in: each valve has the number of its name, its flow, and
/// the numbers of the names of its neighbours, and no distances yet.
pub open spec fn assembled(read: Seq<(Seq<char>, usize, Seq<Seq<char>>)>, n: nat) -> (
    Seq<Seq<char>>,
    Seq<(usize, usize, Seq<usize>)>,
)
    decreases n,
{
    if n == 0 {
        (Seq::empty(), Seq::empty())
    } else {
        let prev = assembled(read, (n - 1) as nat);
        let own = noted(prev.0, read[n - 1].0);
        let others = all_noted(own.0, read[n - 1].2, read[n - 1].2.len());
        (others.0, prev.1.push((own.1 as usize, read[n - 1].1, others.1)))
    }
}

/// The number, the flow and the tunnels of a valve.
pub open spec fn trio(v: Valve) -> (usize, usize, Seq<usize>) {
    (v.num, v.flow, v.connections@)
}

/// The numbers, flows and tunnels of some valves.
pub open spec fn trios(valves: Seq<Valve>) -> Seq<(usize, usize, Seq<usize>)> {
    Seq::new(valves.len(), |i: int| trio(valves[i]))
}

/// What was read as texts.
pub open spec fn read_view(read: Seq<Told>) -> Seq<(Seq<char>, usize, Seq<Seq<char>>)> {
    Seq::new(read.len(), |i: int| read[i]@)
}

/// Takes in what was read of the valves: gives every name a number in
/// the order in which the names come up, and makes the valves.
pub fn assemble(read: &Vec<Told>) -> (r: (Vec<String>, Vec<Valve>))
    ensures
        (texts(r.0@), trios(r.1@)) == assembled(read_view(read@), read@.len()),
        forall|i: int| 0 <= i < r.1@.len() ==> (#[trigger] r.1@[i]).times@.len() == 0,
{
    let ghost all = read_view(read@);
    let mut names: Vec<String> = Vec::new();
    let mut valves: Vec<Valve> = Vec::new();
    let mut n: usize = 0;
    assert(texts(names@) =~= Seq::<Seq<char>>::empty());
    assert(trios(valves@) =~= Seq::<(usize, usize, Seq<usize>)>::empty());
    while n < read.len()
        invariant
            n <= read@.len(),
            all == read_view(read@),
            (texts(names@), trios(valves@)) == assembled(all, n as nat),
            forall|i: int| 0 <= i < valves@.len() ==> (#[trigger] valves@[i]).times@.len() == 0,
        decreases read@.len() - n,
    {
        let t = &read[n];
        assert(all[n as int] == t@);
        let ghost done = trios(valves@);
        let num = number_for(&mut names, &t.name);
        let ghost own = texts(names@);
        let mut to: Vec<usize> = Vec::new();
        let mut k: usize = 0;
        while k < t.to.len()
            invariant
                k <= t.to@.len(),
                (texts(names@), to@) == all_noted(own, texts(t.to@), k as nat),
            decreases t.to@.len() - k,
        {
            assert(texts(t.to@)[k as int] == t.to@[k as int]@);
            let c = number_for(&mut names, &t.to[k]);
            to.push(c);
            k += 1;
        }
        valves.push(Valve { num, times: Vec::new(), flow: t.flow, connections: to });
        assert(trios(valves@) =~= done.push((num, t.flow, to@)));
        n += 1;
    }
    (names, valves)
}

/// Whether some valves stand in the order of their numbers.
pub open spec fn in_order(valves: Seq<Valve>) -> bool {
    forall|a: int, b: int| 0 <= a < b < valves.len() ==> (#[trigger] valves[a]).num <= (
    #[trigger] valves[b]).num
}

/// The valves in the order of their numbers.
pub fn by_number(valves: Vec<Valve>) -> (out: Vec<Valve>)
    ensures
        out@.len() == valves@.len(),
        in_order(out@),
        forall|v: Valve| out@.contains(v) == valves@.contains(v),
{
    let ghost given = valves@;
    let mut rest = valves;
    let mut out: Vec<Valve> = Vec::new();
    while rest.len() > 0
        invariant
            out@.len() + rest@.len() == given.len(),
            in_order(out@),
            forall|v: Valve| given.contains(v) == (out@.contains(v) || rest@.contains(v)),
        decreases rest@.len(),
    {
        let ghost left = rest@;
        let ghost before = out@;
        let e = rest.pop().unwrap();
        let mut k: usize = out.len();
        while k > 0 && out[k - 1].num > e.num
            invariant
                k <= out@.len(),
                forall|j: int| k <= j < out@.len() ==> (#[trigger] out@[j]).num > e.num,
            decreases k,
        {
            k -= 1;
        }
        out.insert(k, e);
        proof {
            assert forall|a: int, b: int| 0 <= a < b < out@.len() implies (#[trigger] out@[a]).num
                <= (#[trigger] out@[b]).num by {
                let was_a = if a < k { a } else { a - 1 };
                let was_b = if b < k { b } else { b - 1 };
                if a != k {
                    assert(out@[a] == before[was_a]);
                }
                if b != k {
                    assert(out@[b] == before[was_b]);
                }
                if b == k && k > 0 {
                    assert(before[k - 1].num <= e.num);
                }
            }
            assert forall|v: Valve| given.contains(v) == (out@.contains(v) || rest@.contains(
                v,
            )) by {
                if out@.contains(v) {
                    let at = choose|at: int| 0 <= at < out@.len() && out@[at] == v;
                    if at == k {
                        assert(left[left.len() - 1] == v);
                        assert(left.contains(v));
                    } else {
                        let was = if at < k { at } else { at - 1 };
                        assert(before[was] == v);
                        assert(before.contains(v));
                    }
                }
                if rest@.contains(v) {
                    let at = choose|at: int| 0 <= at < rest@.len() && rest@[at] == v;
                    assert(left[at] == v);
                    assert(left.contains(v));
                }
                if before.contains(v) {
                    let was = choose|was: int| 0 <= was < before.len() && before[was] == v;
                    let at = if was < k { was } else { was + 1 };
                    assert(out@[at] == v);
                }
                if left.contains(v) {
                    let at = choose|at: int| 0 <= at < left.len() && left[at] == v;
                    if at == left.len() - 1 {
                        assert(out@[k as int] == v);
                    } else {
                        assert(rest@[at] == v);
                    }
                }
            }
        }
    }
    out
}

/// What the first `n` lines tell of valves, with a pattern of the given
/// text: an empty line tells nothing.
pub open spec fn tolds(pattern: Seq<char>, lines: Seq<String>, n: nat) -> Seq<
    (Seq<char>, usize, Seq<Seq<char>>),
>
    decreases n,
{
    if n == 0 {
        Seq::empty()
    } else if lines[n - 1]@.len() == 0 {
        tolds(pattern, lines, (n - 1) as nat)
    } else {
        tolds(pattern, lines, (n - 1) as nat).push(
            told(regex_groups(pattern, lines[n - 1]@)).unwrap(),
        )
    }
}

/// Whether every line that is not empty tells of a valve.
pub open spec fn all_told(pattern: Seq<char>, lines: Seq<String>) -> bool {
    forall|i: int|
        0 <= i < lines.len() && lines[i]@.len() > 0 ==> told(
            regex_groups(pattern, #[trigger] lines[i]@),
        ) is Some
}

/// Reads the valves that lines tell of, with the given pattern: the
/// valves in the order of the numbers of their names, without distances,
/// and the number of the name `AA`. None where a line that is not empty
/// tells of no valve.
pub fn read_valves(pattern: &Pattern, lines: &Vec<String>) -> (r: Option<(System, usize)>)
    ensures
        r is Some == all_told(pattern.text(), lines@),
        r matches Some(found) ==> {
            let whole = assembled(
                tolds(pattern.text(), lines@, lines@.len()),
                tolds(pattern.text(), lines@, lines@.len()).len(),
            );
            &&& found.0.flow_priority@.len() == 0
            &&& found.0.valves@.len() == whole.1.len()
            &&& in_order(found.0.valves@)
            &&& forall|t: (usize, usize, Seq<usize>)|
                trios(found.0.valves@).contains(t) == whole.1.contains(t)
            &&& forall|i: int|
                0 <= i < found.0.valves@.len() ==> (#[trigger] found.0.valves@[i]).times@.len() == 0
            &&& found.1 == noted(whole.0, seq!['A', 'A']).1
        },
{
    let ghost text = pattern.text();
    let mut read: Vec<Told> = Vec::new();
    let mut i: usize = 0;
    assert(read_view(read@) =~= tolds(text, lines@, 0));
    while i < lines.len()
        invariant
            i <= lines@.len(),
            text == pattern.text(),
            read_view(read@) == tolds(text, lines@, i as nat),
            forall|k: int|
                0 <= k < i && lines@[k]@.len() > 0 ==> told(
                    regex_groups(text, #[trigger] lines@[k]@),
                ) is Some,
        decreases lines@.len() - i,
    {
        let line = &lines[i];
        let ghost before = read_view(read@);
        if line.as_str().unicode_len() > 0 {
            match read_valve(pattern, line.as_str()) {
                Some(t) => {
                    read.push(t);
                    assert(read_view(read@) =~= before.push(t@));
                },
                None => {
                    return None;
                },
            }
        }
        i += 1;
    }
    let (mut names, valves) = assemble(&read);
    let ghost made = valves@;
    let aa = string_of(&vec!['A', 'A'], 0, 2);
    assert(aa@ =~= seq!['A', 'A']);
    let start = number_for(&mut names, &aa);
    let sorted = by_number(valves);
    proof {
        let whole = assembled(read_view(read@), read@.len());
        assert(trios(made) == whole.1);
        assert forall|t: (usize, usize, Seq<usize>)| trios(sorted@).contains(t) == whole.1.contains(
            t,
        ) by {
            if trios(sorted@).contains(t) {
                let at = choose|at: int| 0 <= at < sorted@.len() && trios(sorted@)[at] == t;
                assert(sorted@.contains(sorted@[at]));
                assert(made.contains(sorted@[at]));
                let was = choose|was: int| 0 <= was < made.len() && made[was] == sorted@[at];
                assert(trios(made)[was] == t);
            }
            if whole.1.contains(t) {
                let was = choose|was: int| 0 <= was < made.len() && trios(made)[was] == t;
                assert(made.contains(made[was]));
                assert(sorted@.contains(made[was]));
                let at = choose|at: int| 0 <= at < sorted@.len() && sorted@[at] == made[was];
                assert(trios(sorted@)[at] == t);
            }
        }
        assert forall|k: int| 0 <= k < sorted@.len() implies (#[trigger] sorted@[k]).times@.len()
            == 0 by {
            assert(sorted@.contains(sorted@[k]));
            assert(made.contains(sorted@[k]));
            let was = choose|was: int| 0 <= was < made.len() && made[was] == sorted@[k];
        }
    }
    Some((System { valves: sorted, flow_priority: Vec::new() }, start))
}

} // verus!
