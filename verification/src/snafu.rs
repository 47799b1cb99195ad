//! Numbers written in balanced base five, with the digits `=`, `-`, `0`,
//! `1` and `2` for minus two up to two.

use vstd::prelude::*;
use crate::text::chars_of;

verus! {

/// Whether `c` is a digit of this notation.
pub open spec fn is_snafu_digit(c: char) -> bool {
    c == '=' || c == '-' || c == '0' || c == '1' || c == '2'
}

/// The value of a digit.
pub open spec fn snafu_digit(c: char) -> int {
    if c == '=' {
        -2
    } else if c == '-' {
        -1
    } else if c == '1' {
        1
    } else if c == '2' {
        2
    } else {
        0
    }
}

/// The number that the digits write, the most significant first.
pub open spec fn snafu_value(digits: Seq<char>) -> int
    decreases digits.len(),
{
    if digits.len() == 0 {
        0
    } else {
        5 * snafu_value(digits.drop_last()) + snafu_digit(digits.last())
    }
}

/// Every character is a digit of this notation.
pub open spec fn is_snafu(digits: Seq<char>) -> bool {
    forall|i: int| 0 <= i < digits.len() ==> is_snafu_digit(#[trigger] digits[i])
}

/// Every number that a prefix of the digits writes fits in `isize`, also
/// before its last digit is added.
pub open spec fn snafu_fits(digits: Seq<char>) -> bool {
    forall|n: int|
        0 <= n < digits.len() ==> isize::MIN <= 5 * #[trigger] snafu_value(digits.take(n))
            && 5 * snafu_value(digits.take(n)) <= isize::MAX && isize::MIN <= snafu_value(
            digits.take(n + 1),
        ) <= isize::MAX
}

/// Reads a number.
pub fn snafu_to_num(s: &str) -> (n: isize)
    requires
        is_snafu(s@),
        snafu_fits(s@),
    ensures
        n == snafu_value(s@),
{
    let chars = chars_of(s);
    let mut out: isize = 0;
    let mut i: usize = 0;
    assert(chars@.take(0) =~= Seq::empty());
    while i < chars.len()
        invariant
            i <= chars@.len(),
            chars@ == s@,
            is_snafu(chars@),
            snafu_fits(chars@),
            out == snafu_value(chars@.take(i as int)),
        decreases chars@.len() - i,
    {
        let c = chars[i];
        assert(is_snafu_digit(chars@[i as int]));
        assert(chars@.take(i + 1).drop_last() =~= chars@.take(i as int));
        assert(5 * snafu_value(chars@.take(i as int)) <= isize::MAX);
        assert(snafu_value(chars@.take(i + 1)) <= isize::MAX);
        out = out * 5;
        let d: isize = match c {
            '1' => 1,
            '2' => 2,
            '0' => 0,
            '-' => -1,
            _ => -2,
        };
        out = out + d;
        i += 1;
    }
    assert(chars@.take(chars@.len() as int) =~= chars@);
    out
}

/// Reads a number, or returns `None` where a character is no digit of
/// this notation or the number, at some digit, does not fit in `isize`.
pub fn read_snafu(s: &str) -> (r: Option<isize>)
    ensures
        r is Some == (is_snafu(s@) && snafu_fits(s@)),
        r matches Some(n) ==> n == snafu_value(s@),
{
    let chars = chars_of(s);
    let mut out: isize = 0;
    let mut i: usize = 0;
    assert(chars@.take(0) =~= Seq::empty());
    while i < chars.len()
        invariant
            i <= chars@.len(),
            chars@ == s@,
            forall|k: int| 0 <= k < i ==> is_snafu_digit(#[trigger] chars@[k]),
            forall|n: int|
                0 <= n < i ==> isize::MIN <= 5 * #[trigger] snafu_value(chars@.take(n)) && 5
                    * snafu_value(chars@.take(n)) <= isize::MAX && isize::MIN <= snafu_value(
                    chars@.take(n + 1),
                ) <= isize::MAX,
            out == snafu_value(chars@.take(i as int)),
        decreases chars@.len() - i,
    {
        let c = chars[i];
        assert(chars@.take(i + 1).drop_last() =~= chars@.take(i as int));
        let d: isize = if c == '1' {
            1
        } else if c == '2' {
            2
        } else if c == '0' {
            0
        } else if c == '-' {
            -1
        } else if c == '=' {
            -2
        } else {
            assert(!is_snafu_digit(chars@[i as int]));
            return None;
        };
        let next = match out.checked_mul(5) {
            Some(v) => v.checked_add(d),
            None => None,
        };
        match next {
            Some(v) => {
                out = v;
            },
            None => {
                assert(!(isize::MIN <= 5 * snafu_value(chars@.take(i as int)) && 5 * snafu_value(
                    chars@.take(i as int),
                ) <= isize::MAX && isize::MIN <= snafu_value(chars@.take(i + 1)) <= isize::MAX));
                return None;
            },
        }
        i += 1;
    }
    assert(chars@.take(chars@.len() as int) =~= chars@);
    Some(out)
}

/// The digit that stands for `d`, which lies in `[-2, 2]`.
pub open spec fn snafu_char(d: int) -> char {
    if d == -2 {
        '='
    } else if d == -1 {
        '-'
    } else if d == 1 {
        '1'
    } else if d == 2 {
        '2'
    } else {
        '0'
    }
}

/// The last digit of `n`: its remainder by five, taken from `[-2, 2]`.
pub open spec fn last_digit(n: int) -> int {
    if n % 5 <= 2 {
        n % 5
    } else {
        n % 5 - 5
    }
}

/// The digits that write `n`, which is not negative: no digit for zero,
/// and no leading zero.
pub open spec fn snafu_digits(n: int) -> Seq<char>
    decreases n,
{
    if n <= 0 {
        Seq::empty()
    } else {
        snafu_digits((n - last_digit(n)) / 5).push(snafu_char(last_digit(n)))
    }
}

/// The text of `n`: its digits, and `0` for zero.
pub open spec fn snafu_text(n: int) -> Seq<char> {
    if n <= 0 {
        seq!['0']
    } else {
        snafu_digits(n)
    }
}

/// The digits of `n` write `n`.
pub proof fn lemma_snafu_digits_value(n: int)
    requires
        0 <= n,
    ensures
        snafu_value(snafu_digits(n)) == n,
        is_snafu(snafu_digits(n)),
    decreases n,
{
    if n > 0 {
        let rest = (n - last_digit(n)) / 5;
        lemma_snafu_digits_value(rest);
        assert(snafu_digits(n).drop_last() =~= snafu_digits(rest));
    }
}

/// Writing a number and reading it back gives the number.
pub proof fn lemma_snafu_round_trip(n: int)
    requires
        0 <= n,
    ensures
        snafu_value(snafu_text(n)) == n,
        is_snafu(snafu_text(n)),
{
    if n > 0 {
        lemma_snafu_digits_value(n);
    } else {
        assert(seq!['0'].drop_last() =~= Seq::<char>::empty());
        assert(snafu_value(seq!['0'].drop_last()) == 0);
    }
}

/// What a prefix of the digits of `n` writes lies between zero and `n`,
/// and five times what a shorter prefix writes is `n` without its last
/// digit at most.
pub proof fn lemma_snafu_prefix(n: int, k: int)
    requires
        0 <= n,
        0 <= k <= snafu_digits(n).len(),
    ensures
        0 <= snafu_value(snafu_digits(n).take(k)) <= n,
        k < snafu_digits(n).len() ==> 5 * snafu_value(snafu_digits(n).take(k)) <= n - last_digit(
            n,
        ),
    decreases n,
{
    let digits = snafu_digits(n);
    if n > 0 {
        let rest = (n - last_digit(n)) / 5;
        lemma_snafu_digits_value(rest);
        lemma_snafu_digits_value(n);
        if k < digits.len() {
            assert(digits.take(k) =~= snafu_digits(rest).take(k));
            lemma_snafu_prefix(rest, k);
        } else {
            assert(digits.take(k) =~= digits);
        }
    } else {
        assert(digits.take(k) =~= Seq::<char>::empty());
    }
}

/// What is written of a number that fits in `isize` can be read: at no
/// digit does the number read so far, or five times it, leave `isize`.
pub proof fn lemma_snafu_text_fits(n: int)
    requires
        0 <= n <= isize::MAX,
    ensures
        is_snafu(snafu_text(n)),
        snafu_fits(snafu_text(n)),
        snafu_value(snafu_text(n)) == n,
{
    lemma_snafu_round_trip(n);
    let text = snafu_text(n);
    assert(isize::MAX == 0x7fff_ffff || isize::MAX == 0x7fff_ffff_ffff_ffff);
    assert forall|k: int| 0 <= k < text.len() implies isize::MIN <= 5 * #[trigger] snafu_value(
        text.take(k),
    ) && 5 * snafu_value(text.take(k)) <= isize::MAX && isize::MIN <= snafu_value(text.take(k + 1))
        <= isize::MAX by {
        if n > 0 {
            lemma_snafu_prefix(n, k);
            lemma_snafu_prefix(n, k + 1);
        } else {
            assert(text.take(0) =~= Seq::<char>::empty());
            assert(text.take(1) =~= text);
        }
    }
}

/// Writes a number that is not negative.
pub fn num_to_snafu(n: isize) -> (out: String)
    requires
        0 <= n,
    ensures
        out@ == snafu_text(n as int),
{
    let mut n = n;
    let ghost whole = n as int;
    let mut low_first: Vec<char> = Vec::new();
    loop
        invariant_except_break
            0 <= n,
            0 <= whole,
            snafu_digits(whole) == snafu_digits(n as int) + low_first@.reverse(),
            n == 0 ==> whole == 0,
            whole == 0 ==> n == 0 && low_first@.len() == 0,
        ensures
            0 <= whole,
            whole > 0 ==> low_first@.reverse() == snafu_digits(whole),
            whole == 0 ==> low_first@ == seq!['0'],
        decreases n,
    {
        let r = n % 5;
        let (c, off): (char, isize) = if r == 0 {
            ('0', 0)
        } else if r == 1 {
            ('1', 1)
        } else if r == 2 {
            ('2', 2)
        } else if r == 3 {
            ('=', -2)
        } else {
            ('-', -1)
        };
        let ghost before = n as int;
        let ghost sofar = low_first@;
        assert(off == last_digit(before));
        assert(c == snafu_char(last_digit(before)));
        assert(n - off <= isize::MAX) by {
            assert(n + 2 <= isize::MAX || n % 5 <= 2) by {
                assert(isize::MAX % 5 == 2 || isize::MAX % 5 == 3) by {
                    assert(isize::MAX == 0x7fff_ffff || isize::MAX == 0x7fff_ffff_ffff_ffff);
                }
            }
        }
        n = n - off;
        low_first.push(c);
        n = n / 5;
        proof {
            if before > 0 {
                assert(snafu_digits(before) == snafu_digits(n as int).push(c));
                assert(low_first@.reverse() =~= seq![c] + sofar.reverse());
                assert(snafu_digits(n as int).push(c) + sofar.reverse() =~= snafu_digits(n as int)
                    + low_first@.reverse());
            } else {
                assert(low_first@ =~= seq!['0']);
            }
        }
        if n == 0 {
            proof {
                if whole > 0 {
                    assert(snafu_digits(0) =~= Seq::<char>::empty());
                    assert(snafu_digits(whole) =~= low_first@.reverse());
                }
            }
            break ;
        }
    }
    let mut out = String::new();
    let mut k: usize = low_first.len();
    while k > 0
        invariant
            k <= low_first@.len(),
            out@ == low_first@.reverse().take(low_first@.len() - k),
        decreases k,
    {
        k -= 1;
        out.push(low_first[k]);
        assert(out@ =~= low_first@.reverse().take(low_first@.len() - k));
    }
    proof {
        assert(out@ =~= low_first@.reverse());
        if whole == 0 {
            assert(seq!['0'].reverse() =~= seq!['0']);
        }
    }
    out
}

} // verus!
