//! Bit-level facts about 128-bit words: single bits, packing a predicate into a
//! word, and bridging two adjacent words into one unaligned word.

use vstd::prelude::*;

verus! {

/// The unsigned integer that holds one run of columns of a row.
pub type BitWidth = u128;

/// Number of bits in a word, as a signed coordinate.
pub const WIDTH: isize = 128;

/// Number of bits in a word, as an unsigned size.
pub const WIDTH_U: usize = 128;

/// Whether bit `i` of `w` is set; false for `i` outside `[0, 128)`.
pub open spec fn bit(w: u128, i: int) -> bool {
    0 <= i < 128 && (w >> (i as u128)) & 1 == 1
}

/// The word whose bits below `n` are given by `p` and whose other bits are zero.
pub open spec fn pack_below(p: spec_fn(int) -> bool, n: nat) -> u128
    decreases n,
{
    if n == 0 {
        0
    } else {
        let rest = pack_below(p, (n - 1) as nat);
        if p(n - 1) {
            rest | (1u128 << ((n - 1) as u128))
        } else {
            rest
        }
    }
}

/// The word whose bit `i` is `p(i)`, for every `i` in `[0, 128)`.
pub open spec fn pack(p: spec_fn(int) -> bool) -> u128 {
    pack_below(p, 128)
}

/// The zero word has no bit set.
pub proof fn lemma_zero_bits()
    ensures
        forall|i: int| !bit(0u128, i),
{
    assert forall|i: int| !bit(0u128, i) by {
        if 0 <= i < 128 {
            let iu = i as u128;
            assert((0u128 >> iu) & 1 == 0) by (bit_vector);
        }
    }
}

proof fn lemma_or_single_bit(a: u128, k: u128, i: u128)
    requires
        k < 128,
        i < 128,
    ensures
        (((a | (1u128 << k)) >> i) & 1 == 1) <==> (((a >> i) & 1 == 1) || i == k),
{
    assert((((a | (1u128 << k)) >> i) & 1 == 1) <==> (((a >> i) & 1 == 1) || i == k))
        by (bit_vector)
        requires
            k < 128,
            i < 128,
    ;
}

/// Bit `i` of `pack_below(p, n)` is `p(i)` below `n` and clear from `n` on.
pub proof fn lemma_pack_below_bit(p: spec_fn(int) -> bool, n: nat, i: int)
    requires
        n <= 128,
    ensures
        bit(pack_below(p, n), i) == (0 <= i < n && p(i)),
    decreases n,
{
    if n == 0 {
        lemma_zero_bits();
    } else {
        lemma_pack_below_bit(p, (n - 1) as nat, i);
        if 0 <= i < 128 && p(n - 1) {
            lemma_or_single_bit(pack_below(p, (n - 1) as nat), (n - 1) as u128, i as u128);
        }
    }
}

/// Bit `i` of `pack(p)` is `p(i)` inside the word and clear outside it.
pub proof fn lemma_pack_bit(p: spec_fn(int) -> bool, i: int)
    ensures
        bit(pack(p), i) == (0 <= i < 128 && p(i)),
{
    lemma_pack_below_bit(p, 128, i);
}


spec fn low_bits(a: u128, n: nat) -> u128 {
    a & !(0xffff_ffff_ffff_ffff_ffff_ffff_ffff_ffffu128 << (n as u128))
}

proof fn lemma_low_bits_equal(a: u128, b: u128, n: nat)
    requires
        n <= 127,
        forall|i: int| 0 <= i < 128 ==> bit(a, i) == bit(b, i),
    ensures
        low_bits(a, n) == low_bits(b, n),
    decreases n,
{
    if n == 0 {
        assert(a & !(0xffff_ffff_ffff_ffff_ffff_ffff_ffff_ffffu128 << 0u128) == 0) by (bit_vector);
        assert(b & !(0xffff_ffff_ffff_ffff_ffff_ffff_ffff_ffffu128 << 0u128) == 0) by (bit_vector);
    } else {
        lemma_low_bits_equal(a, b, (n - 1) as nat);
        let m = (n - 1) as u128;
        let k = n as u128;
        assert(bit(a, n - 1) == bit(b, n - 1));
        assert(a & !(0xffff_ffff_ffff_ffff_ffff_ffff_ffff_ffffu128 << k) == b & !(0xffff_ffff_ffff_ffff_ffff_ffff_ffff_ffffu128 << k))
            by (bit_vector)
            requires
                m < 127,
                k == m + 1,
                a & !(0xffff_ffff_ffff_ffff_ffff_ffff_ffff_ffffu128 << m) == b & !(0xffff_ffff_ffff_ffff_ffff_ffff_ffff_ffffu128 << m),
                ((a >> m) & 1 == 1) == ((b >> m) & 1 == 1),
        ;
    }
}

/// Two words that agree on every bit are the same word.
pub proof fn lemma_bits_equal(a: u128, b: u128)
    requires
        forall|i: int| 0 <= i < 128 ==> bit(a, i) == bit(b, i),
    ensures
        a == b,
{
    lemma_low_bits_equal(a, b, 127);
    assert(bit(a, 127) == bit(b, 127));
    assert(a == b) by (bit_vector)
        requires
            a & !(0xffff_ffff_ffff_ffff_ffff_ffff_ffff_ffffu128 << 127u128) == b & !(0xffff_ffff_ffff_ffff_ffff_ffff_ffff_ffffu128 << 127u128),
            ((a >> 127u128) & 1 == 1) == ((b >> 127u128) & 1 == 1),
    ;
}

/// Two rules that agree on `[0, 128)` pack into the same word.
pub proof fn lemma_pack_same(p: spec_fn(int) -> bool, q: spec_fn(int) -> bool)
    requires
        forall|i: int| 0 <= i < 128 ==> #[trigger] p(i) == q(i),
    ensures
        pack(p) == pack(q),
{
    assert forall|i: int| 0 <= i < 128 implies bit(pack(p), i) == bit(pack(q), i) by {
        lemma_pack_bit(p, i);
        lemma_pack_bit(q, i);
    }
    lemma_bits_equal(pack(p), pack(q));
}

/// A word equals `pack(p)` as soon as each of its bits is given by `p`.
pub proof fn lemma_is_pack(w: u128, p: spec_fn(int) -> bool)
    requires
        forall|i: int| 0 <= i < 128 ==> bit(w, i) == p(i),
    ensures
        w == pack(p),
{
    assert forall|i: int| 0 <= i < 128 implies bit(w, i) == bit(pack(p), i) by {
        lemma_pack_bit(p, i);
    }
    lemma_bits_equal(w, pack(p));
}

/// The word `w` with bit `i` replaced by `v`.
pub open spec fn set_bit(w: u128, i: int, v: bool) -> u128 {
    pack(set_bit_rule(w, i, v))
}

/// The rule for the bits of `set_bit`: `v` at place `i`, the bits of `w` elsewhere.
pub open spec fn set_bit_rule(w: u128, i: int, v: bool) -> spec_fn(int) -> bool {
    |j: int| if j == i { v } else { bit(w, j) }
}

/// Setting bit `i` gives that bit the new value and keeps the others.
pub proof fn lemma_set_bit(w: u128, i: int, v: bool, j: int)
    requires
        0 <= i < 128,
    ensures
        bit(set_bit(w, i, v), j) == (if j == i {
            v
        } else {
            bit(w, j)
        }),
{
    lemma_pack_bit(set_bit_rule(w, i, v), j);
}

/// The 128 bits that start `rem` bits into `lo` and run on into `hi`.
pub open spec fn bridged(lo: u128, hi: u128, rem: int) -> u128 {
    pack(bridge_rule(lo, hi, rem))
}

/// The rule for the bits of `bridged`: bit `i` comes from place `i + rem` of
/// `lo` while that is inside `lo`, and from `hi` after it.
pub open spec fn bridge_rule(lo: u128, hi: u128, rem: int) -> spec_fn(int) -> bool {
    |i: int| if i + rem < 128 { bit(lo, i + rem) } else { bit(hi, i + rem - 128) }
}

/// The rule for the bits of a range mask: set from `lo` up to, not including, `hi`.
pub open spec fn range_rule(lo: int, hi: int) -> spec_fn(int) -> bool {
    |i: int| lo <= i < hi
}

/// The rule for the bits of an extent mask: bit `i` is set when column
/// `x + i` lies in `[0, width)`.
pub open spec fn extent_rule(x: int, width: int) -> spec_fn(int) -> bool {
    |i: int| 0 <= x + i < width
}

proof fn lemma_bridge_bit(lo: u128, hi: u128, r: u128, i: u128)
    requires
        0 < r < 128,
        i < 128,
    ensures
        bit(((lo >> r) | (hi << ((128 - r) as u128))), i as int) == (if i + r < 128 {
            bit(lo, i + r)
        } else {
            bit(hi, i + r - 128)
        }),
{
    let back = (128 - r) as u128;
    let w = (lo >> r) | (hi << back);
    if i + r < 128 {
        let s = (i + r) as u128;
        assert(((w >> i) & 1 == 1) == ((lo >> s) & 1 == 1)) by (bit_vector)
            requires
                0 < r < 128,
                i < 128,
                s == i + r,
                s < 128,
                back == 128 - r,
                w == (lo >> r) | (hi << back),
        ;
    } else {
        let s = (i + r - 128) as u128;
        assert(((w >> i) & 1 == 1) == ((hi >> s) & 1 == 1)) by (bit_vector)
            requires
                0 < r < 128,
                i < 128,
                s == i + r - 128,
                i + r >= 128,
                back == 128 - r,
                w == (lo >> r) | (hi << back),
        ;
    }
}

/// Assembles the word that starts `rem` bits into `lo`: the high `128 - rem`
/// bits of `lo` moved down, joined with the low `rem` bits of `hi` moved up.
/// With `rem == 0` the second word contributes nothing and no shift by the
/// full word width takes place.
pub fn bridge(lo: u128, hi: u128, rem: u32) -> (w: u128)
    requires
        rem < 128,
    ensures
        w == bridged(lo, hi, rem as int),
{
    let w = if rem == 0 {
        lo
    } else {
        (lo >> rem) | (hi << (128 - rem))
    };
    proof {
        let p = bridge_rule(lo, hi, rem as int);
        assert forall|i: int| 0 <= i < 128 implies bit(w, i) == p(i) by {
            if rem != 0 {
                lemma_bridge_bit(lo, hi, rem as u128, i as u128);
            }
        }
        lemma_is_pack(w, p);
    }
    w
}

/// The word whose set bits are exactly those in `[lo, hi)`.
pub fn range_mask(lo: u32, hi: u32) -> (m: u128)
    requires
        lo <= hi <= 128,
    ensures
        m == pack(range_rule(lo as int, hi as int)),
{
    let m = if lo == hi {
        0
    } else {
        (u128::MAX >> (128 - (hi - lo))) << lo
    };
    proof {
        let p = range_rule(lo as int, hi as int);
        assert forall|i: int| 0 <= i < 128 implies bit(m, i) == p(i) by {
            let iu = i as u128;
            let l = lo as u128;
            let h = hi as u128;
            if lo == hi {
                lemma_zero_bits();
            } else {
                let a = (128 - (hi - lo)) as u128;
                let top = 0xffff_ffff_ffff_ffff_ffff_ffff_ffff_ffffu128 >> a;
                if l <= iu {
                    let back = (iu - l) as u128;
                    assert(((top >> back) & 1 == 1) == (back < 128 - a)) by (bit_vector)
                        requires
                            a < 128,
                            back < 128,
                            top == 0xffff_ffff_ffff_ffff_ffff_ffff_ffff_ffffu128 >> a,
                    ;
                    assert((((top << l) >> iu) & 1 == 1) == ((top >> back) & 1 == 1)) by (bit_vector)
                        requires
                            l <= iu < 128,
                            back == iu - l,
                    ;
                } else {
                    assert((((top << l) >> iu) & 1 == 1) == false) by (bit_vector)
                        requires
                            iu < l < 128,
                    ;
                }
            }
        }
        lemma_is_pack(m, p);
    }
    m
}

/// The mask that keeps, of a word read at column `x`, the bits whose column
/// lies in `[0, width)`.
pub fn extent_mask(x: i128, width: usize) -> (m: u128)
    requires
        -0x1_0000_0000_0000_0000_0000 < x < 0x1_0000_0000_0000_0000_0000,
    ensures
        m == pack(extent_rule(x as int, width as int)),
{
    let ghost p = extent_rule(x as int, width as int);
    if x <= -128 || x >= width as i128 {
        proof {
            lemma_zero_bits();
            lemma_is_pack(0u128, p);
        }
        return 0;
    }
    let lo: u32 = if x < 0 {
        (-x) as u32
    } else {
        0
    };
    let rest: i128 = width as i128 - x;
    let hi: u32 = if rest >= 128 {
        128
    } else {
        rest as u32
    };
    let m = range_mask(lo, hi);
    proof {
        assert forall|i: int| 0 <= i < 128 implies bit(m, i) == p(i) by {
            lemma_pack_bit(range_rule(lo as int, hi as int), i);
        }
        lemma_is_pack(m, p);
    }
    m
}

/// Bit `i` of `a & b` is set when it is set in both.
pub proof fn lemma_and_bit(a: u128, b: u128, i: int)
    ensures
        bit(a & b, i) == (bit(a, i) && bit(b, i)),
{
    if 0 <= i < 128 {
        let iu = i as u128;
        assert((((a & b) >> iu) & 1 == 1) == (((a >> iu) & 1 == 1) && ((b >> iu) & 1 == 1)))
            by (bit_vector);
    }
}

/// Bit `i` of `a & !b` is set when it is set in `a` and clear in `b`.
pub proof fn lemma_and_not_bit(a: u128, b: u128, i: int)
    ensures
        bit(a & !b, i) == (bit(a, i) && !bit(b, i)),
{
    if 0 <= i < 128 {
        let iu = i as u128;
        assert((((a & !b) >> iu) & 1 == 1) == (((a >> iu) & 1 == 1) && !((b >> iu) & 1 == 1)))
            by (bit_vector);
    }
}

/// Bit `i` of `a | b` is set when it is set in either.
pub proof fn lemma_or_bit(a: u128, b: u128, i: int)
    ensures
        bit(a | b, i) == (bit(a, i) || bit(b, i)),
{
    if 0 <= i < 128 {
        let iu = i as u128;
        assert((((a | b) >> iu) & 1 == 1) == (((a >> iu) & 1 == 1) || ((b >> iu) & 1 == 1)))
            by (bit_vector);
    }
}

/// Bit `i` of `a ^ b` is set when it is set in one and clear in the other.
pub proof fn lemma_xor_bit(a: u128, b: u128, i: int)
    ensures
        bit(a ^ b, i) == (bit(a, i) != bit(b, i)),
{
    if 0 <= i < 128 {
        let iu = i as u128;
        assert((((a ^ b) >> iu) & 1 == 1) == (((a >> iu) & 1 == 1) != ((b >> iu) & 1 == 1)))
            by (bit_vector);
    }
}

/// The remainder of `a` by `m` that lies in `[0, m)`, also for negative `a`.
pub fn floor_mod(a: i128, m: i128) -> (r: i128)
    requires
        m > 0,
    ensures
        r == a % m,
        0 <= r < m,
{
    proof {
        vstd::arithmetic::div_mod::lemma_mod_bound(a as int, m as int);
    }
    match a.checked_rem_euclid(m) {
        Some(r) => r,
        None => 0,
    }
}

/// The start of the word that holds column `p`, and the place of `p` in it.
pub fn split(p: i128) -> (r: (i128, u32))
    requires
        -0x1_0000_0000_0000_0000_0000 < p < 0x1_0000_0000_0000_0000_0000,
    ensures
        r.0 == 128 * (p / 128),
        r.1 == p % 128,
        r.0 + r.1 == p,
{
    if p >= 0 {
        let up = p as u128;
        let rem = (up % 128) as u32;
        (p - rem as i128, rem)
    } else {
        let n = (-(p + 1)) as u128;
        let rem = 127 - (n % 128) as u32;
        (p - rem as i128, rem)
    }
}

} // verus!
