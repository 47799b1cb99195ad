//! What the library assumes of `String`.

use vstd::prelude::*;
use vstd::string::StrSliceExecFns;

verus! {

/// `String::push` appends the character to the end of the string and
/// changes nothing before it.
pub assume_specification[ String::push ](s: &mut String, c: char)
    ensures
        final(s)@ == old(s)@.push(c),
;

/// Whether `c` is a decimal digit.
pub open spec fn is_digit(c: char) -> bool {
    '0' <= c <= '9'
}

/// The value of the decimal digit `c`.
pub open spec fn digit_value(c: char) -> nat {
    (c as u32 - '0' as u32) as nat
}

/// The number that a run of decimal digits writes.
pub open spec fn number(digits: Seq<char>) -> nat
    decreases digits.len(),
{
    if digits.len() == 0 {
        0
    } else {
        10 * number(digits.drop_last()) + digit_value(digits.last())
    }
}

/// The digits of a run can be read one more at a time.
pub proof fn lemma_number_push(s: Seq<char>, i: int, j: int)
    requires
        0 <= i <= j < s.len(),
    ensures
        number(s.subrange(i, j + 1)) == 10 * number(s.subrange(i, j)) + digit_value(s[j]),
{
    assert(s.subrange(i, j + 1).drop_last() =~= s.subrange(i, j));
}

/// A longer run of digits does not write a smaller number.
pub proof fn lemma_number_grows(s: Seq<char>, i: int, j: int, k: int)
    requires
        0 <= i <= j <= k <= s.len(),
    ensures
        number(s.subrange(i, j)) <= number(s.subrange(i, k)),
    decreases k - j,
{
    if j < k {
        lemma_number_grows(s, i, j, k - 1);
        lemma_number_push(s, i, k - 1);
    }
}

/// The character for the digit `d`, which is below ten.
pub open spec fn digit_char(d: nat) -> char {
    if d == 0 {
        '0'
    } else if d == 1 {
        '1'
    } else if d == 2 {
        '2'
    } else if d == 3 {
        '3'
    } else if d == 4 {
        '4'
    } else if d == 5 {
        '5'
    } else if d == 6 {
        '6'
    } else if d == 7 {
        '7'
    } else if d == 8 {
        '8'
    } else {
        '9'
    }
}

/// The decimal digits of `n`, without leading zeros.
pub open spec fn decimal(n: nat) -> Seq<char>
    decreases n,
{
    if n < 10 {
        seq![digit_char(n)]
    } else {
        decimal(n / 10).push(digit_char(n % 10))
    }
}

/// `s` with as many `fill` before it as it takes to reach `width`.
pub open spec fn padded(s: Seq<char>, width: nat, fill: char) -> Seq<char> {
    if s.len() >= width {
        s
    } else {
        Seq::new((width - s.len()) as nat, |i: int| fill) + s
    }
}

fn digit_of(d: usize) -> (c: char)
    requires
        d < 10,
    ensures
        c == digit_char(d as nat),
{
    if d == 0 {
        '0'
    } else if d == 1 {
        '1'
    } else if d == 2 {
        '2'
    } else if d == 3 {
        '3'
    } else if d == 4 {
        '4'
    } else if d == 5 {
        '5'
    } else if d == 6 {
        '6'
    } else if d == 7 {
        '7'
    } else if d == 8 {
        '8'
    } else {
        '9'
    }
}

/// Appends to `out` the decimal digits of `n`, with zeros before them
/// where they are fewer than `width`.
pub fn push_decimal(out: &mut String, n: usize, width: usize)
    ensures
        final(out)@ == old(out)@ + padded(decimal(n as nat), width as nat, '0'),
{
    let mut low_first: Vec<char> = Vec::new();
    let mut rest = n;
    low_first.push(digit_of(rest % 10));
    rest = rest / 10;
    assert(low_first@.reverse() =~= seq![digit_char((n % 10) as nat)]);
    while rest > 0
        invariant
            low_first@.len() > 0,
            decimal(n as nat) == if rest == 0 {
                low_first@.reverse()
            } else {
                decimal(rest as nat) + low_first@.reverse()
            },
        decreases rest,
    {
        let ghost sofar = low_first@;
        let ghost was = rest;
        low_first.push(digit_of(rest % 10));
        rest = rest / 10;
        proof {
            assert(low_first@.reverse() =~= seq![digit_char((was % 10) as nat)] + sofar.reverse());
            if rest == 0 {
                assert(decimal(was as nat) =~= seq![digit_char((was % 10) as nat)]);
            } else {
                assert(decimal(was as nat) + sofar.reverse() =~= decimal(rest as nat)
                    + low_first@.reverse());
            }
        }
    }
    let ghost start = out@;
    let ghost digits = low_first@.reverse();
    let mut fill: usize = low_first.len();
    while fill < width
        invariant
            low_first@.len() <= fill,
            fill == low_first@.len() || fill <= width,
            out@ == start + Seq::new((fill - low_first@.len()) as nat, |i: int| '0'),
        decreases width - fill,
    {
        out.push('0');
        fill += 1;
        assert(out@ =~= start + Seq::new((fill - low_first@.len()) as nat, |i: int| '0'));
    }
    let ghost lead = out@;
    proof {
        assert(decimal(n as nat) == digits);
        assert(digits.len() == low_first@.len());
        let want = padded(digits, width as nat, '0');
        if digits.len() >= width {
            assert(lead =~= start);
        } else {
            assert(fill == width);
            assert((lead + digits).len() == (start + want).len());
            assert forall|i: int| 0 <= i < (lead + digits).len() implies (lead + digits)[i] == (
            start + want)[i] by {
                if i >= start.len() && i < start.len() + (width - digits.len()) {
                    assert(lead[i] == '0');
                    assert(want[i - start.len()] == '0');
                }
            }
        }
        assert(lead + digits =~= start + want);
    }
    let mut k: usize = low_first.len();
    while k > 0
        invariant
            k <= low_first@.len(),
            digits == low_first@.reverse(),
            out@ == lead + digits.take(low_first@.len() - k),
        decreases k,
    {
        k -= 1;
        out.push(low_first[k]);
        assert(out@ =~= lead + digits.take(low_first@.len() - k));
    }
    assert(out@ =~= lead + digits);
}

/// Appends the characters of `s` to `out`.
pub fn push_chars(out: &mut String, s: &Vec<char>)
    ensures
        final(out)@ == old(out)@ + s@,
{
    let ghost start = out@;
    let mut i: usize = 0;
    while i < s.len()
        invariant
            i <= s@.len(),
            out@ == start + s@.take(i as int),
        decreases s@.len() - i,
    {
        out.push(s[i]);
        i += 1;
        assert(out@ =~= start + s@.take(i as int));
    }
    assert(out@ =~= start + s@);
}

/// The number that `s` writes in decimal digits, where it holds nothing
/// else, holds at least one digit, and the number is at most `max`.
pub open spec fn decimal_value(s: Seq<char>, max: nat) -> Option<nat> {
    if s.len() > 0 && (forall|i: int| 0 <= i < s.len() ==> is_digit(#[trigger] s[i])) && number(s)
        <= max {
        Some(number(s))
    } else {
        None
    }
}

/// Reads the digits `s[from..]` as a number that is at most `max`.
pub fn read_decimal(s: &Vec<char>, from: usize, max: u64) -> (r: Option<u64>)
    requires
        from <= s@.len(),
    ensures
        match decimal_value(s@.skip(from as int), max as nat) {
            Some(n) => r == Some(n as u64),
            None => r is None,
        },
{
    let ghost digits = s@.skip(from as int);
    if from == s.len() {
        return None;
    }
    let mut value: u64 = 0;
    let mut i: usize = from;
    assert(digits.subrange(0, 0) =~= Seq::empty());
    while i < s.len()
        invariant
            from <= i <= s@.len(),
            digits == s@.skip(from as int),
            forall|k: int| 0 <= k < i - from ==> is_digit(#[trigger] digits[k]),
            value == number(digits.subrange(0, i - from)),
            value <= max,
        decreases s@.len() - i,
    {
        let c = s[i];
        assert(digits[i - from] == c);
        if !('0' <= c && c <= '9') {
            return None;
        }
        let d = (c as u32 - '0' as u32) as u64;
        proof {
            lemma_number_push(digits, 0, i - from);
            lemma_number_grows(digits, 0, i - from + 1, digits.len() as int);
            assert(digits.subrange(0, digits.len() as int) =~= digits);
        }
        let next = match value.checked_mul(10) {
            Some(tens) => tens.checked_add(d),
            None => None,
        };
        match next {
            Some(v) => {
                if v > max {
                    return None;
                }
                value = v;
            },
            None => {
                return None;
            },
        }
        i += 1;
    }
    assert(digits.subrange(0, digits.len() as int) =~= digits);
    Some(value)
}

/// The number that `s` writes as an unsigned decimal that fits in 32 bits.
pub fn read_u32(s: &str) -> (r: Option<u32>)
    ensures
        match decimal_value(s@, u32::MAX as nat) {
            Some(n) => r == Some(n as u32),
            None => r is None,
        },
{
    let chars = chars_of(s);
    assert(chars@.skip(0) =~= s@);
    match read_decimal(&chars, 0, 0xffff_ffff) {
        Some(n) => Some(n as u32),
        None => None,
    }
}

/// The number that `s` writes as a decimal with an optional minus sign
/// before it, where its size is at most `max`.
pub open spec fn signed_value(s: Seq<char>, max: nat) -> Option<int> {
    if s.len() > 0 && s[0] == '-' {
        match decimal_value(s.skip(1), max) {
            Some(n) => Some(-(n as int)),
            None => None,
        }
    } else {
        match decimal_value(s, max) {
            Some(n) => Some(n as int),
            None => None,
        }
    }
}

/// Reads a decimal with an optional minus sign whose size is at most `max`.
pub fn read_signed(s: &str, max: u32) -> (r: Option<isize>)
    requires
        max <= 0x7fff_ffff,
    ensures
        match signed_value(s@, max as nat) {
            Some(n) => r == Some(n as isize),
            None => r is None,
        },
{
    let chars = chars_of(s);
    assert(chars@.skip(0) =~= s@);
    if chars.len() > 0 && chars[0] == '-' {
        match read_decimal(&chars, 1, max as u64) {
            Some(n) => Some(-(n as isize)),
            None => None,
        }
    } else {
        match read_decimal(&chars, 0, max as u64) {
            Some(n) => Some(n as isize),
            None => None,
        }
    }
}

/// The first index at which `s` holds the character `c`, if any.
#[verifier::opaque]
pub open spec fn first_index(s: Seq<char>, c: char) -> Option<int> {
    if exists|i: int| 0 <= i < s.len() && s[i] == c {
        Some(choose|i: int| 0 <= i < s.len() && s[i] == c && forall|k: int| 0 <= k < i ==> s[k] != c)
    } else {
        None
    }
}

/// The first index at which `s` holds the character `c`.
pub fn find_char(s: &Vec<char>, c: char) -> (r: Option<usize>)
    ensures
        match r {
            Some(i) => first_index(s@, c) == Some(i as int) && i < s@.len() && s@[i as int] == c,
            None => first_index(s@, c) is None,
        },
{
    reveal(first_index);
    let mut i: usize = 0;
    while i < s.len()
        invariant
            i <= s@.len(),
            forall|k: int| 0 <= k < i ==> s@[k] != c,
        decreases s@.len() - i,
    {
        if s[i] == c {
            proof {
                reveal(first_index);
                let found = choose|j: int|
                    0 <= j < s@.len() && s@[j] == c && forall|k: int| 0 <= k < j ==> s@[k] != c;
                assert(0 <= i < s@.len() && s@[i as int] == c && forall|k: int|
                    0 <= k < i ==> s@[k] != c);
                assert(found == i) by {
                    if found < i {
                        assert(s@[found] != c);
                    }
                    if i < found {
                        assert(s@[i as int] != c);
                    }
                }
            }
            return Some(i);
        }
        i += 1;
    }
    None
}

/// Whether two texts hold the same characters.
pub fn same_text(a: &Vec<char>, b: &Vec<char>) -> (r: bool)
    ensures
        r == (a@ =~= b@),
{
    if a.len() != b.len() {
        return false;
    }
    let mut i: usize = 0;
    while i < a.len()
        invariant
            i <= a@.len(),
            a@.len() == b@.len(),
            forall|k: int| 0 <= k < i ==> a@[k] == b@[k],
        decreases a@.len() - i,
    {
        if a[i] != b[i] {
            return false;
        }
        i += 1;
    }
    true
}

/// The number that `s` writes as a decimal with an optional `+` or `-`
/// before it, where it lies in the range of `isize`.
pub open spec fn int_value(s: Seq<char>) -> Option<int> {
    if s.len() > 0 && s[0] == '-' {
        match decimal_value(s.skip(1), (isize::MAX + 1) as nat) {
            Some(n) => Some(-(n as int)),
            None => None,
        }
    } else if s.len() > 0 && s[0] == '+' {
        match decimal_value(s.skip(1), isize::MAX as nat) {
            Some(n) => Some(n as int),
            None => None,
        }
    } else {
        match decimal_value(s, isize::MAX as nat) {
            Some(n) => Some(n as int),
            None => None,
        }
    }
}

/// Reads `s[from..]` as a signed decimal in the range of `isize`.
pub fn read_int(s: &Vec<char>, from: usize) -> (r: Option<isize>)
    requires
        from <= s@.len(),
    ensures
        match int_value(s@.skip(from as int)) {
            Some(n) => r == Some(n as isize),
            None => r is None,
        },
{
    let ghost rest = s@.skip(from as int);
    if from < s.len() && s[from] == '-' {
        assert(rest.skip(1) =~= s@.skip(from + 1));
        match read_decimal(s, from + 1, isize::MAX as u64 + 1) {
            Some(n) => {
                if n == isize::MAX as u64 + 1 {
                    Some(isize::MIN)
                } else {
                    Some(-(n as isize))
                }
            },
            None => None,
        }
    } else if from < s.len() && s[from] == '+' {
        assert(rest.skip(1) =~= s@.skip(from + 1));
        match read_decimal(s, from + 1, isize::MAX as u64) {
            Some(n) => Some(n as isize),
            None => None,
        }
    } else {
        match read_decimal(s, from, isize::MAX as u64) {
            Some(n) => Some(n as isize),
            None => None,
        }
    }
}

/// The number that `s` writes as a decimal with an optional `+` before it,
/// where it is at most `max`.
pub open spec fn plus_value(s: Seq<char>, max: nat) -> Option<nat> {
    if s.len() > 0 && s[0] == '+' {
        decimal_value(s.skip(1), max)
    } else {
        decimal_value(s, max)
    }
}

/// Reads `s` as an unsigned decimal with an optional `+` before it that
/// fits in 32 bits.
pub fn read_plus_u32(s: &Vec<char>) -> (r: Option<u32>)
    ensures
        match plus_value(s@, u32::MAX as nat) {
            Some(n) => r == Some(n as u32),
            None => r is None,
        },
{
    assert(s@.skip(0) =~= s@);
    let from: usize = if s.len() > 0 && s[0] == '+' {
        1
    } else {
        0
    };
    match read_decimal(s, from, 0xffff_ffff) {
        Some(n) => Some(n as u32),
        None => None,
    }
}

/// The text of the characters `s[from..to]`.
pub fn string_of(s: &Vec<char>, from: usize, to: usize) -> (out: String)
    requires
        from <= to <= s@.len(),
    ensures
        out@ == s@.subrange(from as int, to as int),
{
    let mut out = String::new();
    let mut i: usize = from;
    while i < to
        invariant
            from <= i <= to <= s@.len(),
            out@ == s@.subrange(from as int, i as int),
        decreases to - i,
    {
        out.push(s[i]);
        i += 1;
        assert(out@ =~= s@.subrange(from as int, i as int));
    }
    out
}

/// The characters of `s`, in order.
pub fn chars_of(s: &str) -> (v: Vec<char>)
    ensures
        v@ == s@,
{
    let n = s.unicode_len();
    let mut v: Vec<char> = Vec::new();
    let mut i: usize = 0;
    while i < n
        invariant
            i <= n,
            n == s@.len(),
            v@ == s@.subrange(0, i as int),
        decreases n - i,
    {
        v.push(s.get_char(i));
        i += 1;
        assert(v@ =~= s@.subrange(0, i as int));
    }
    assert(v@ =~= s@);
    v
}

/// The first index from `from` on at which `s` holds the character `c`.
pub fn find_from(s: &Vec<char>, c: char, from: usize) -> (r: Option<usize>)
    requires
        from <= s@.len(),
    ensures
        match r {
            Some(i) => from <= i < s@.len() && first_index(s@.skip(from as int), c) == Some(
                i - from,
            ),
            None => first_index(s@.skip(from as int), c) is None,
        },
{
    let ghost rest = s@.skip(from as int);
    let mut i: usize = from;
    while i < s.len()
        invariant
            from <= i <= s@.len(),
            rest == s@.skip(from as int),
            forall|k: int| 0 <= k < i - from ==> rest[k] != c,
        decreases s@.len() - i,
    {
        if s[i] == c {
            proof {
                reveal(first_index);
                let at = i - from;
                assert(0 <= at < rest.len() && rest[at] == c);
                let found = choose|j: int|
                    0 <= j < rest.len() && rest[j] == c && forall|k: int| 0 <= k < j ==> rest[k] != c;
                assert(0 <= at < rest.len() && rest[at] == c && forall|k: int|
                    0 <= k < at ==> rest[k] != c);
                assert(found == at) by {
                    if found < at {
                        assert(rest[found] != c);
                    }
                    if at < found {
                        assert(rest[at] != c);
                    }
                }
            }
            return Some(i);
        }
        i += 1;
    }
    proof {
        reveal(first_index);
    }
    None
}

/// The characters `s[from..to]`.
pub fn slice(s: &Vec<char>, from: usize, to: usize) -> (out: Vec<char>)
    requires
        from <= to <= s@.len(),
    ensures
        out@ == s@.subrange(from as int, to as int),
{
    let mut out: Vec<char> = Vec::new();
    let mut i: usize = from;
    while i < to
        invariant
            from <= i <= to <= s@.len(),
            out@ == s@.subrange(from as int, i as int),
        decreases to - i,
    {
        out.push(s[i]);
        i += 1;
        assert(out@ =~= s@.subrange(from as int, i as int));
    }
    out
}

/// The part number `k` of `s`, counted from zero, when `s` is cut at
/// every `sep`.
pub open spec fn part(s: Seq<char>, sep: char, k: nat) -> Option<Seq<char>>
    decreases k,
{
    match first_index(s, sep) {
        Some(i) => if k == 0 {
            Some(s.take(i))
        } else {
            part(s.skip(i + 1), sep, (k - 1) as nat)
        },
        None => if k == 0 {
            Some(s)
        } else {
            None
        },
    }
}

/// The part number `k` of `s`, counted from zero, when `s` is cut at
/// every `sep`.
pub fn nth_part(s: &Vec<char>, sep: char, k: usize) -> (r: Option<Vec<char>>)
    ensures
        match part(s@, sep, k as nat) {
            Some(p) => r matches Some(v) && v@ == p,
            None => r is None,
        },
{
    let mut start: usize = 0;
    let mut left: usize = k;
    assert(s@.skip(0) =~= s@);
    loop
        invariant
            start <= s@.len(),
            part(s@, sep, k as nat) == part(s@.skip(start as int), sep, left as nat),
        decreases left,
    {
        let ghost rest = s@.skip(start as int);
        match find_from(s, sep, start) {
            Some(i) => {
                if left == 0 {
                    let out = slice(s, start, i);
                    assert(out@ =~= rest.take(i - start));
                    return Some(out);
                }
                assert(rest.skip(i - start + 1) =~= s@.skip(i + 1));
                assert(i < s.len());
                start = i + 1;
                left -= 1;
            },
            None => {
                if left == 0 {
                    let out = slice(s, start, s.len());
                    assert(out@ =~= rest);
                    return Some(out);
                }
                return None;
            },
        }
    }
}

/// What stands before the first `sep` of `s` and what stands after it.
pub open spec fn halves(s: Seq<char>, sep: char) -> Option<(Seq<char>, Seq<char>)> {
    match first_index(s, sep) {
        Some(i) => Some((s.take(i), s.skip(i + 1))),
        None => None,
    }
}

/// What stands before the first `sep` of `s` and what stands after it.
pub fn split_once(s: &Vec<char>, sep: char) -> (r: Option<(Vec<char>, Vec<char>)>)
    ensures
        match halves(s@, sep) {
            Some(h) => r matches Some(v) && v.0@ == h.0 && v.1@ == h.1,
            None => r is None,
        },
{
    assert(s@.skip(0) =~= s@);
    match find_from(s, sep, 0) {
        Some(i) => {
            let before = slice(s, 0, i);
            assert(i < s.len());
            let after = slice(s, i + 1, s.len());
            assert(before@ =~= s@.take(i as int));
            assert(after@ =~= s@.skip(i + 1));
            Some((before, after))
        },
        None => None,
    }
}

/// Reads `s` as an unsigned decimal with an optional `+` before it that
/// fits in a `usize`.
pub fn read_plus(s: &Vec<char>) -> (r: Option<usize>)
    ensures
        match plus_value(s@, usize::MAX as nat) {
            Some(n) => r == Some(n as usize),
            None => r is None,
        },
{
    assert(s@.skip(0) =~= s@);
    let from: usize = if s.len() > 0 && s[0] == '+' {
        1
    } else {
        0
    };
    match read_decimal(s, from, usize::MAX as u64) {
        Some(n) => Some(n as usize),
        None => None,
    }
}

} // verus!
