//! A ring of numbers that is mixed by moving each number, in the order in
//! which they were given, as many places along the ring as it says.

use crate::text::{int_value, read_int};
use vstd::prelude::*;

verus! {

/// A number of the ring and the place at which it was given.
#[derive(Copy, Clone, Debug)]
pub struct CodeItem {
    pub val: i16,
    pub pos: u16,
}

/// The ring, cut into buckets that follow one another, with the bucket in
/// which each number lies, by the place at which it was given.
pub struct Code {
    pub multiplier: isize,
    pub buckets: Vec<Vec<CodeItem>>,
    pub index: Vec<usize>,
    pub length: usize,
}

/// The largest size of a multiplier.
pub const FACTOR_MAX: isize = 0x7fff_ffff;

/// The first `n` buckets, one after the other.
pub open spec fn flat(buckets: Seq<Vec<CodeItem>>, n: nat) -> Seq<CodeItem>
    decreases n,
{
    if n == 0 {
        Seq::empty()
    } else {
        flat(buckets, (n - 1) as nat) + buckets[n - 1]@
    }
}

/// All the buckets, one after the other.
pub open spec fn ring(buckets: Seq<Vec<CodeItem>>) -> Seq<CodeItem> {
    flat(buckets, buckets.len())
}

/// The slot at which a number lands that is taken out at slot `current`
/// of a ring that is then `length` long, and moved by `offset`: it stays
/// for no move, and else goes round the ring, a number that lands before
/// the first slot going to the end of the ring.
pub open spec fn slot(current: int, offset: int, length: int) -> int {
    let loci = current + offset;
    if offset == 0 {
        loci
    } else if loci <= 0 {
        length - (length - loci) % length
    } else if loci >= length {
        loci % length
    } else {
        loci
    }
}

/// The slot at which a number lands.
pub fn target_slot(current: usize, offset: isize, length: usize) -> (r: usize)
    requires
        0 < length <= 0x1_0000,
        current <= length,
        -0x4000_0000_0000 <= offset <= 0x4000_0000_0000,
        isize::MAX >= 0x7fff_ffff_ffff_ffff,
    ensures
        r == slot(current as int, offset as int, length as int),
        r <= length,
{
    let loci = current as isize + offset;
    let leni = length as isize;
    if offset == 0 {
        loci as usize
    } else if loci <= 0 {
        (leni - (leni - loci) % leni) as usize
    } else if loci >= leni {
        (loci % leni) as usize
    } else {
        loci as usize
    }
}

/// The buckets up to number `b` with one of them changed are the same
/// buckets put one after the other, where the change is in a later one.
pub proof fn lemma_flat_before(a: Seq<Vec<CodeItem>>, c: Seq<Vec<CodeItem>>, n: nat)
    requires
        n <= a.len(),
        n <= c.len(),
        forall|k: int| 0 <= k < n ==> (#[trigger] a[k])@ == c[k]@,
    ensures
        flat(a, n) == flat(c, n),
    decreases n,
{
    if n > 0 {
        lemma_flat_before(a, c, (n - 1) as nat);
    }
}

/// Taking a number out of bucket `b` takes it out of the ring, at the
/// place where the bucket starts plus its place in the bucket.
pub proof fn lemma_flat_remove(a: Seq<Vec<CodeItem>>, c: Seq<Vec<CodeItem>>, b: int, i: int, n: nat)
    requires
        a.len() == c.len(),
        0 <= b < a.len(),
        b < n <= a.len(),
        0 <= i < a[b]@.len(),
        c[b]@ == a[b]@.remove(i),
        forall|k: int| 0 <= k < a.len() && k != b ==> (#[trigger] c[k])@ == a[k]@,
    ensures
        flat(c, n) == flat(a, n).remove(flat(a, b as nat).len() + i),
    decreases n,
{
    let at = flat(a, b as nat).len() + i;
    if n - 1 == b {
        lemma_flat_before(a, c, b as nat);
        assert(flat(c, n) =~= flat(a, n).remove(at));
    } else {
        lemma_flat_remove(a, c, b, i, (n - 1) as nat);
        lemma_flat_len(a, b as nat, (n - 1) as nat);
        assert(flat(c, n) =~= flat(a, n).remove(at));
    }
}

/// Putting a number into bucket `b` puts it into the ring, at the place
/// where the bucket starts plus its place in the bucket.
pub proof fn lemma_flat_insert(
    a: Seq<Vec<CodeItem>>,
    c: Seq<Vec<CodeItem>>,
    b: int,
    i: int,
    x: CodeItem,
    n: nat,
)
    requires
        a.len() == c.len(),
        0 <= b < a.len(),
        b < n <= a.len(),
        0 <= i <= a[b]@.len(),
        c[b]@ == a[b]@.insert(i, x),
        forall|k: int| 0 <= k < a.len() && k != b ==> (#[trigger] c[k])@ == a[k]@,
    ensures
        flat(c, n) == flat(a, n).insert(flat(a, b as nat).len() + i, x),
    decreases n,
{
    let at = flat(a, b as nat).len() + i;
    if n - 1 == b {
        lemma_flat_before(a, c, b as nat);
        assert(flat(c, n) =~= flat(a, n).insert(at, x));
    } else {
        lemma_flat_insert(a, c, b, i, x, (n - 1) as nat);
        lemma_flat_len(a, b as nat, (n - 1) as nat);
        assert(flat(c, n) =~= flat(a, n).insert(at, x));
    }
}

/// More buckets hold no fewer numbers, and a bucket among them lies
/// within them.
pub proof fn lemma_flat_len(a: Seq<Vec<CodeItem>>, b: nat, n: nat)
    requires
        b < n <= a.len(),
    ensures
        flat(a, b).len() + a[b as int]@.len() <= flat(a, n).len(),
    decreases n,
{
    if b + 1 < n {
        lemma_flat_len(a, b, (n - 1) as nat);
    }
}

/// The number at place `i` of bucket `b` is the number of the ring at the
/// place where the bucket starts plus `i`.
pub proof fn lemma_flat_index(a: Seq<Vec<CodeItem>>, b: int, i: int, n: nat)
    requires
        0 <= b < n <= a.len(),
        0 <= i < a[b]@.len(),
    ensures
        flat(a, b as nat).len() + i < flat(a, n).len(),
        flat(a, n)[flat(a, b as nat).len() + i] == a[b]@[i],
    decreases n,
{
    if n - 1 > b {
        lemma_flat_index(a, b, i, (n - 1) as nat);
    }
}

/// No two numbers were given at the same place.
pub open spec fn distinct(r: Seq<CodeItem>) -> bool {
    forall|i: int, j: int| 0 <= i < j < r.len() ==> (#[trigger] r[i]).pos != (#[trigger] r[j]).pos
}

/// Whether bucket `b` holds the number that was given at place `k`.
pub open spec fn holds(buckets: Seq<Vec<CodeItem>>, b: int, k: int) -> bool {
    0 <= b < buckets.len() && exists|i: int| 0 <= i < buckets[b]@.len() && (#[trigger] buckets[b]@[i]).pos == k
}

impl Code {
    /// The ring.
    pub open spec fn view(&self) -> Seq<CodeItem> {
        ring(self.buckets@)
    }

    /// The ring holds each number that was given but, perhaps, the one
    /// given at place `out`; no number twice; and each in the bucket that
    /// the index names.
    pub open spec fn holds_all_but(&self, out: int) -> bool {
        &&& 2 <= self.length <= 0x1_0000
        &&& -FACTOR_MAX <= self.multiplier <= FACTOR_MAX
        &&& self.index@.len() == self.length
        &&& self.buckets@.len() > 0
        &&& distinct(self@)
        &&& forall|k: int|
            0 <= k < self.length && k != out ==> holds(self.buckets@, (#[trigger] self.index@[k]) as int, k)
        &&& forall|i: int| 0 <= i < self@.len() ==> (#[trigger] self@[i]).pos != out
    }

    /// The ring holds each number that was given, once, in the bucket that
    /// the index names.
    pub open spec fn wf(&self) -> bool {
        self.holds_all_but(-1) && self@.len() == self.length
    }

    /// The numbers of the ring, in their order.
    pub fn to_array(&self) -> (out: Vec<i16>)
        ensures
            out@.len() == self@.len(),
            forall|i: int| 0 <= i < out@.len() ==> out@[i] == self@[i].val,
    {
        let mut out: Vec<i16> = Vec::new();
        let mut b: usize = 0;
        while b < self.buckets.len()
            invariant
                b <= self.buckets@.len(),
                out@.len() == flat(self.buckets@, b as nat).len(),
                forall|i: int| 0 <= i < out@.len() ==> out@[i] == flat(self.buckets@, b as nat)[i].val,
            decreases self.buckets@.len() - b,
        {
            let cb = &self.buckets[b];
            let ghost before = out@;
            let mut i: usize = 0;
            while i < cb.len()
                invariant
                    i <= cb@.len(),
                    b < self.buckets@.len(),
                    cb@ == self.buckets@[b as int]@,
                    out@.len() == before.len() + i,
                    before.len() == flat(self.buckets@, b as nat).len(),
                    forall|k: int| 0 <= k < before.len() ==> out@[k] == before[k],
                    forall|k: int| 0 <= k < i ==> out@[before.len() + k] == cb@[k].val,
                decreases cb@.len() - i,
            {
                out.push(cb[i].val);
                i += 1;
            }
            proof {
                let whole = flat(self.buckets@, (b + 1) as nat);
                assert(whole == flat(self.buckets@, b as nat) + cb@);
                assert forall|k: int| 0 <= k < out@.len() implies out@[k] == whole[k].val by {
                    if k < before.len() {
                        assert(out@[k] == before[k]);
                    } else {
                        assert(out@[before.len() + (k - before.len())] == cb@[k - before.len()].val);
                    }
                }
            }
            b += 1;
        }
        out
    }

    /// Takes the number that was given at place `n` out of the ring.
    /// Returns the number and the place at which it lay.
    pub fn take(&mut self, n: usize) -> (r: (CodeItem, usize))
        requires
            old(self).wf(),
            n < old(self).length,
        ensures
            final(self).holds_all_but(n as int),
            final(self).length == old(self).length,
            final(self).multiplier == old(self).multiplier,
            final(self).index == old(self).index,
            final(self).buckets@.len() == old(self).buckets@.len(),
            r.1 < old(self)@.len(),
            r.0 == old(self)@[r.1 as int],
            r.0.pos == n,
            final(self)@ == old(self)@.remove(r.1 as int),
    {
        let bucket = self.index[n];
        assert(holds(self.buckets@, self.index@[n as int] as int, n as int));
        let mut pos: usize = 0;
        let mut c: usize = 0;
        proof {
            lemma_flat_len(self.buckets@, bucket as nat, self.buckets@.len());
        }
        while c < bucket
            invariant
                c <= bucket < self.buckets@.len(),
                pos == flat(self.buckets@, c as nat).len(),
                flat(self.buckets@, bucket as nat).len() <= 0x1_0000,
            decreases bucket - c,
        {
            proof {
                if c + 1 < bucket {
                    lemma_flat_len(self.buckets@, (c + 1) as nat, bucket as nat);
                }
            }
            pos += self.buckets[c].len();
            c += 1;
        }
        let ghost start = pos;
        let mut i: usize = 0;
        let count = self.buckets[bucket].len();
        while i < count
            invariant
                *self == *old(self),
                self.wf(),
                bucket < self.buckets@.len(),
                count == self.buckets@[bucket as int]@.len(),
                i <= count,
                pos == start + i,
                start == flat(self.buckets@, bucket as nat).len(),
                start + count <= 0x1_0000,
                forall|k: int| 0 <= k < i ==> (#[trigger] self.buckets@[bucket as int]@[k]).pos != n,
                holds(self.buckets@, bucket as int, n as int),
            decreases count - i,
        {
            if self.buckets[bucket][i].pos as usize == n {
                let ci = self.buckets[bucket].remove(i);
                proof {
                    let a = old(self).buckets@;
                    let c = self.buckets@;
                    lemma_flat_remove(a, c, bucket as int, i as int, a.len());
                    lemma_flat_index(a, bucket as int, i as int, a.len());
                    let r = old(self)@;
                    let at = pos as int;
                    assert(self@ == r.remove(at));
                    // the rest holds no number twice, and not the one taken out
                    assert forall|x: int, y: int| 0 <= x < y < self@.len() implies (
                    #[trigger] self@[x]).pos != (#[trigger] self@[y]).pos by {
                        let fx = if x < at {
                            x
                        } else {
                            x + 1
                        };
                        let fy = if y < at {
                            y
                        } else {
                            y + 1
                        };
                        assert(self@[x] == r[fx] && self@[y] == r[fy]);
                    }
                    assert forall|x: int| 0 <= x < self@.len() implies (#[trigger] self@[x]).pos
                        != n by {
                        let fx = if x < at {
                            x
                        } else {
                            x + 1
                        };
                        assert(self@[x] == r[fx]);
                        assert(r[at].pos == n);
                        if fx < at {
                            assert(r[fx].pos != r[at].pos);
                        } else {
                            assert(r[at].pos != r[fx].pos);
                        }
                    }
                    // each other number lies where it lay
                    assert forall|k: int| 0 <= k < self.length && k != n implies holds(
                        self.buckets@,
                        (#[trigger] self.index@[k]) as int,
                        k,
                    ) by {
                        let bk = self.index@[k] as int;
                        assert(holds(a, bk, k));
                        let w = choose|w: int| 0 <= w < a[bk]@.len() && (#[trigger] a[bk]@[w]).pos == k;
                        if bk == bucket {
                            let v = if w < i {
                                w
                            } else {
                                w - 1
                            };
                            assert(c[bk]@[v] == a[bk]@[w]);
                        } else {
                            assert(c[bk]@[w] == a[bk]@[w]);
                        }
                    }
                }
                return (ci, pos);
            }
            pos += 1;
            i += 1;
        }
        proof {
            let w = choose|w: int|
                0 <= w < self.buckets@[bucket as int]@.len() && (
                #[trigger] self.buckets@[bucket as int]@[w]).pos == n;
            assert(self.buckets@[bucket as int]@[w].pos != n);
        }
        (CodeItem { val: 0, pos: 0 }, 0)
    }

    /// Puts the number that was given at place `n` into the ring at
    /// `slot`.
    pub fn place(&mut self, ci: CodeItem, slot: usize, n: usize)
        requires
            old(self).holds_all_but(n as int),
            old(self)@.len() == old(self).length - 1,
            n < old(self).length,
            ci.pos == n,
            slot <= old(self)@.len(),
        ensures
            final(self).wf(),
            final(self).length == old(self).length,
            final(self).multiplier == old(self).multiplier,
            final(self)@ == old(self)@.insert(slot as int, ci),
    {
        let mut left = slot;
        let mut b: usize = 0;
        let last = self.buckets.len() - 1;
        while b < last && left > self.buckets[b].len()
            invariant
                *self == *old(self),
                b <= last,
                last == self.buckets@.len() - 1,
                left + flat(self.buckets@, b as nat).len() == slot,
                slot <= self@.len(),
            decreases last - b,
        {
            left -= self.buckets[b].len();
            b += 1;
        }
        proof {
            if b == last {
                assert(flat(self.buckets@, (last + 1) as nat) == flat(self.buckets@, last as nat)
                    + self.buckets@[last as int]@);
            }
        }
        self.buckets[b].insert(left, ci);
        self.index[n] = b;
        proof {
            let a = old(self).buckets@;
            let c = self.buckets@;
            let r = old(self)@;
            let at = slot as int;
            lemma_flat_insert(a, c, b as int, left as int, ci, a.len());
            assert(self@ == r.insert(at, ci));
            assert forall|x: int, y: int| 0 <= x < y < self@.len() implies (#[trigger] self@[x]).pos
                != (#[trigger] self@[y]).pos by {
                let fx = if x < at {
                    x
                } else {
                    x - 1
                };
                let fy = if y < at {
                    y
                } else {
                    y - 1
                };
                if x != at {
                    assert(self@[x] == r[fx]);
                }
                if y != at {
                    assert(self@[y] == r[fy]);
                }
            }
            assert forall|k: int| 0 <= k < self.length implies holds(
                self.buckets@,
                (#[trigger] self.index@[k]) as int,
                k,
            ) by {
                if k == n {
                    assert(c[b as int]@[left as int].pos == k);
                } else {
                    let bk = self.index@[k] as int;
                    assert(old(self).index@[k] == self.index@[k]);
                    assert(holds(a, bk, k));
                    let w = choose|w: int| 0 <= w < a[bk]@.len() && (#[trigger] a[bk]@[w]).pos == k;
                    if bk == b {
                        let v = if w < left {
                            w
                        } else {
                            w + 1
                        };
                        assert(c[bk]@[v] == a[bk]@[w]);
                    } else {
                        assert(c[bk]@[w] == a[bk]@[w]);
                    }
                }
            }
            assert forall|i: int| 0 <= i < self@.len() implies (#[trigger] self@[i]).pos != -1 by {
            }
        }
    }
}

/// The place in the ring of the number that was given at place `n`.
pub open spec fn place_of(r: Seq<CodeItem>, n: int) -> int {
    choose|p: int| 0 <= p < r.len() && (#[trigger] r[p]).pos == n
}

/// The ring after the number that was given at place `n` has moved, by
/// its value times `multiplier`.
pub open spec fn moved(r: Seq<CodeItem>, n: int, multiplier: int) -> Seq<CodeItem> {
    let p = place_of(r, n);
    r.remove(p).insert(slot(p, r[p].val * multiplier, r.len() - 1), r[p])
}

/// The ring after the numbers that were given at the first `n` places
/// have moved, one after the other.
pub open spec fn mixed(r: Seq<CodeItem>, n: nat, multiplier: int) -> Seq<CodeItem>
    decreases n,
{
    if n == 0 {
        r
    } else {
        moved(mixed(r, (n - 1) as nat, multiplier), n - 1, multiplier)
    }
}

/// The sum of the numbers that lie 1000, 2000 and 3000 places after the
/// first zero of the ring, each times `multiplier`; `None` for a ring
/// without a zero.
pub open spec fn grove(r: Seq<CodeItem>, multiplier: int) -> Option<int> {
    if exists|i: int| 0 <= i < r.len() && (#[trigger] r[i]).val == 0 {
        let i = choose|i: int|
            0 <= i < r.len() && (#[trigger] r[i]).val == 0 && forall|k: int|
                0 <= k < i ==> (#[trigger] r[k]).val != 0;
        Some(
            r[(i + 1000) % (r.len() as int)].val * multiplier + r[(i + 2000) % (r.len() as int)].val
                * multiplier + r[(i + 3000) % (r.len() as int)].val * multiplier,
        )
    } else {
        None
    }
}

impl Code {
    /// Moves the number that was given at place `n`.
    pub fn process(&mut self, insertion_order: usize)
        requires
            old(self).wf(),
            insertion_order < old(self).length,
            isize::MAX >= 0x7fff_ffff_ffff_ffff,
        ensures
            final(self).wf(),
            final(self).length == old(self).length,
            final(self).multiplier == old(self).multiplier,
            final(self)@ == moved(old(self)@, insertion_order as int, old(self).multiplier as int),
    {
        let ghost r = self@;
        let (ci, pos) = self.take(insertion_order);
        proof {
            let p = place_of(r, insertion_order as int);
            assert(r[pos as int].pos == insertion_order);
            if p < pos {
                assert(r[p].pos != r[pos as int].pos);
            } else if pos < p {
                assert(r[pos as int].pos != r[p].pos);
            }
            assert(-0x8000 * 0x7fff_ffff <= ci.val * self.multiplier <= 0x8000 * 0x7fff_ffff)
                by (nonlinear_arith)
                requires
                    -0x8000 <= ci.val <= 0x8000,
                    -0x7fff_ffff <= self.multiplier <= 0x7fff_ffff,
            ;
        }
        let slot = target_slot(pos, ci.val as isize * self.multiplier, self.length - 1);
        self.place(ci, slot, insertion_order);
    }

    /// Moves each number once, in the order in which they were given.
    pub fn decode(&mut self)
        requires
            old(self).wf(),
            isize::MAX >= 0x7fff_ffff_ffff_ffff,
        ensures
            final(self).wf(),
            final(self).length == old(self).length,
            final(self).multiplier == old(self).multiplier,
            final(self)@ == mixed(old(self)@, old(self).length as nat, old(self).multiplier as int),
    {
        let mut n: usize = 0;
        while n < self.length
            invariant
                self.wf(),
                n <= self.length,
                self.length == old(self).length,
                self.multiplier == old(self).multiplier,
                isize::MAX >= 0x7fff_ffff_ffff_ffff,
                self@ == mixed(old(self)@, n as nat, old(self).multiplier as int),
            decreases self.length - n,
        {
            self.process(n);
            n += 1;
        }
    }

    /// The sum of the numbers that lie 1000, 2000 and 3000 places after
    /// the first zero, each times the multiplier.
    pub fn answer(&self) -> (r: Option<isize>)
        requires
            self.wf(),
            isize::MAX >= 0x7fff_ffff_ffff_ffff,
        ensures
            match grove(self@, self.multiplier as int) {
                Some(sum) => r == Some(sum as isize),
                None => r is None,
            },
    {
        let arr = self.to_array();
        let mut i: usize = 0;
        while i < arr.len()
            invariant
                i <= arr@.len(),
                arr@.len() == self@.len(),
                self@.len() <= 0x1_0000,
                -FACTOR_MAX <= self.multiplier <= FACTOR_MAX,
                isize::MAX >= 0x7fff_ffff_ffff_ffff,
                forall|k: int| 0 <= k < arr@.len() ==> arr@[k] == (#[trigger] self@[k]).val,
                forall|k: int| 0 <= k < i ==> (#[trigger] self@[k]).val != 0,
            decreases arr@.len() - i,
        {
            if arr[i] == 0 {
                let len = arr.len();
                let a = arr[(i + 1000) % len];
                let b = arr[(i + 2000) % len];
                let c = arr[(i + 3000) % len];
                proof {
                    let found = choose|j: int|
                        0 <= j < self@.len() && (#[trigger] self@[j]).val == 0 && forall|k: int|
                            0 <= k < j ==> (#[trigger] self@[k]).val != 0;
                    assert(self@[i as int].val == 0);
                    if found < i {
                        assert(self@[found].val != 0);
                    }
                    if i < found {
                        assert(self@[i as int].val != 0);
                    }
                    let m = self.multiplier as int;
                    assert(-0x8000 * 0x7fff_ffff <= a * m <= 0x8000 * 0x7fff_ffff && -0x8000
                        * 0x7fff_ffff <= b * m <= 0x8000 * 0x7fff_ffff && -0x8000 * 0x7fff_ffff <= c
                        * m <= 0x8000 * 0x7fff_ffff) by (nonlinear_arith)
                        requires
                            -0x8000 <= a <= 0x8000,
                            -0x8000 <= b <= 0x8000,
                            -0x8000 <= c <= 0x8000,
                            -0x7fff_ffff <= m <= 0x7fff_ffff,
                    ;
                }
                return Some(
                    a as isize * self.multiplier + b as isize * self.multiplier + c as isize
                        * self.multiplier,
                );
            }
            i += 1;
        }
        None
    }

    /// The ring of the given numbers, cut into buckets of `bucket_size`.
    /// Returns `None` where the numbers do not fill the buckets, are fewer
    /// than two or more than 65536, or the multiplier is too large.
    pub fn new(input: &Vec<i16>, bucket_size: usize, multiplier: isize) -> (r: Option<Code>)
        ensures
            r is Some == (bucket_size > 0 && (input@.len() as int) % (bucket_size as int) == 0 && 2
                <= input@.len() <= 0x1_0000 && -FACTOR_MAX <= multiplier <= FACTOR_MAX),
            r matches Some(code) ==> code.wf() && code.multiplier == multiplier && code.length
                == input@.len() && forall|i: int|
                0 <= i < input@.len() ==> #[trigger] code@[i] == (CodeItem {
                    val: input@[i],
                    pos: i as u16,
                }),
    {
        if bucket_size == 0 || input.len() % bucket_size != 0 || input.len() < 2 || input.len()
            > 0x1_0000 || multiplier < -0x7fff_ffff || multiplier > 0x7fff_ffff {
            return None;
        }
        let count = input.len() / bucket_size;
        let mut buckets: Vec<Vec<CodeItem>> = Vec::new();
        let mut index: Vec<usize> = Vec::new();
        let mut x: usize = 0;
        assert(input@.len() == count * bucket_size) by {
            vstd::arithmetic::div_mod::lemma_fundamental_div_mod(input@.len() as int, bucket_size as int);
            assert(bucket_size * count == count * bucket_size) by (nonlinear_arith);
        }
        while x < count
            invariant
                x <= count,
                bucket_size > 0,
                input@.len() == count * bucket_size,
                input@.len() <= 0x1_0000,
                buckets@.len() == x,
                index@.len() == x * bucket_size,
                ring(buckets@).len() == x * bucket_size,
                forall|i: int|
                    0 <= i < x * bucket_size ==> #[trigger] ring(buckets@)[i] == (CodeItem {
                        val: input@[i],
                        pos: i as u16,
                    }),
                forall|k: int| 0 <= k < x * bucket_size ==> holds(buckets@, (#[trigger] index@[k]) as int, k),
            decreases count - x,
        {
            let mut items: Vec<CodeItem> = Vec::new();
            let ghost old_index = index@;
            let ghost old_buckets = buckets@;
            proof {
                assert((x + 1) * bucket_size == x * bucket_size + bucket_size) by (nonlinear_arith);
                assert((x + 1) * bucket_size <= count * bucket_size) by (nonlinear_arith)
                    requires
                        x + 1 <= count,
                        bucket_size > 0,
                ;
            }
            let base = x * bucket_size;
            let mut c: usize = 0;
            while c < bucket_size
                invariant
                    c <= bucket_size,
                    x < count,
                    base == x * bucket_size,
                    base + bucket_size <= input@.len(),
                    input@.len() <= 0x1_0000,
                    items@.len() == c,
                    index@.len() == base + c,
                    forall|k: int| 0 <= k < base ==> #[trigger] index@[k] == old_index[k],
                    forall|k: int| base <= k < base + c ==> #[trigger] index@[k] == x,
                    forall|k: int|
                        0 <= k < c ==> #[trigger] items@[k] == (CodeItem {
                            val: input@[base + k],
                            pos: (base + k) as u16,
                        }),
                decreases bucket_size - c,
            {
                let i = base + c;
                items.push(CodeItem { val: input[i], pos: i as u16 });
                index.push(x);
                c += 1;
            }
            buckets.push(items);
            proof {
                lemma_flat_before(old_buckets, buckets@, x as nat);
                let whole = ring(buckets@);
                assert(whole == flat(buckets@, x as nat) + buckets@[x as int]@);
                assert forall|k: int| 0 <= k < (x + 1) * bucket_size implies holds(
                    buckets@,
                    (#[trigger] index@[k]) as int,
                    k,
                ) by {
                    if k < x * bucket_size {
                        let bk = old_index[k] as int;
                        assert(holds(old_buckets, bk, k));
                        let w = choose|w: int|
                            0 <= w < old_buckets[bk]@.len() && (#[trigger] old_buckets[bk]@[w]).pos == k;
                        assert(buckets@[bk]@[w] == old_buckets[bk]@[w]);
                    } else {
                        let w = k - base;
                        assert(index@[k] == x);
                        assert(buckets@[x as int]@[w].pos == k);
                    }
                }
            }
            x += 1;
        }
        let code = Code { buckets, multiplier, index, length: input.len() };
        proof {
            assert forall|i: int, j: int| 0 <= i < j < code@.len() implies (#[trigger] code@[i]).pos != (
            #[trigger] code@[j]).pos by {
            }
        }
        Some(code)
    }
}

/// The number that a line writes, where it is a whole number of sixteen
/// bits.
pub open spec fn small_value(line: Seq<char>) -> Option<int> {
    match int_value(line) {
        Some(n) => if -0x8000 <= n <= 0x7fff {
            Some(n)
        } else {
            None
        },
        None => None,
    }
}

/// Reads a number from every line; none where a line writes no number of
/// sixteen bits.
pub fn read_numbers(lines: &Vec<Vec<char>>) -> (r: Option<Vec<i16>>)
    ensures
        r is Some == (forall|i: int| 0 <= i < lines@.len() ==> small_value(#[trigger] lines@[i]@) is Some),
        r matches Some(v) ==> v@.len() == lines@.len() && forall|i: int|
            0 <= i < v@.len() ==> Some(#[trigger] v@[i] as int) == small_value(lines@[i]@),
{
    let mut out: Vec<i16> = Vec::new();
    let mut i: usize = 0;
    while i < lines.len()
        invariant
            i <= lines@.len(),
            out@.len() == i,
            forall|k: int| 0 <= k < i ==> Some(#[trigger] out@[k] as int) == small_value(lines@[k]@),
        decreases lines@.len() - i,
    {
        let line = &lines[i];
        assert(line@.skip(0) =~= line@);
        match read_int(line, 0) {
            Some(n) => {
                if n < -0x8000 || n > 0x7fff {
                    assert(small_value(lines@[i as int]@) is None);
                    return None;
                }
                out.push(n as i16);
            },
            None => {
                assert(small_value(lines@[i as int]@) is None);
                return None;
            },
        }
        i += 1;
    }
    proof {
        assert forall|k: int| 0 <= k < lines@.len() implies small_value(
            #[trigger] lines@[k]@,
        ) is Some by {
            assert(Some(out@[k] as int) == small_value(lines@[k]@));
        }
    }
    Some(out)
}

} // verus!
