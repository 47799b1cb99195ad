//! Markers in a stream of characters: the first run of a given length in
//! which no character occurs twice.

use vstd::prelude::*;

verus! {

/// No character occurs twice among the `size` characters from `pos` on.
pub open spec fn distinct(signal: Seq<char>, pos: int, size: int) -> bool {
    forall|a: int, b: int| pos <= a < b < pos + size ==> signal[a] != signal[b]
}

/// A run of `size` characters starts at `pos` and lies inside the signal.
pub open spec fn window(signal: Seq<char>, pos: int, size: int) -> bool {
    0 <= pos < signal.len() && pos + size <= signal.len()
}

/// Whether no character occurs twice among the `size` characters from
/// `pos` on.
pub fn check(signal: &Vec<char>, pos: usize, size: usize) -> (b: bool)
    requires
        pos + size <= signal@.len(),
    ensures
        b == distinct(signal@, pos as int, size as int),
{
    let total = signal.len();
    let mut x: usize = 0;
    while x < size
        invariant
            x <= size,
            pos + size <= total,
            total == signal@.len(),
            forall|a: int, b: int| pos <= a < pos + x && a < b < pos + size ==> signal@[a] != signal@[b],
        decreases size - x,
    {
        let mut ax: usize = x + 1;
        while ax < size
            invariant
                x < size,
                x < ax <= size,
                pos + size <= total,
                total == signal@.len(),
                forall|b: int| pos + x < b < pos + ax ==> signal@[pos + x] != #[trigger] signal@[b],
            decreases size - ax,
        {
            if signal[x + pos] == signal[ax + pos] {
                return false;
            }
            ax += 1;
        }
        x += 1;
    }
    true
}

/// The index just after the first run of `size` distinct characters, or
/// `None` where the signal holds no such run.
pub fn find_marker(signal: &Vec<char>, size: usize) -> (r: Option<usize>)
    ensures
        match r {
            Some(end) => window(signal@, end - size, size as int) && distinct(
                signal@,
                end - size,
                size as int,
            ) && forall|x: int|
                0 <= x < end - size ==> !distinct(signal@, x, size as int),
            None => forall|x: int|
                window(signal@, x, size as int) ==> !distinct(signal@, x, size as int),
        },
{
    let mut x: usize = 0;
    while x < signal.len() && size <= signal.len() - x
        invariant
            x <= signal@.len(),
            forall|k: int| 0 <= k < x ==> !distinct(signal@, k, size as int),
        decreases signal@.len() - x,
    {
        if check(signal, x, size) {
            return Some(x + size);
        }
        x += 1;
    }
    None
}

/// Where the first packet and the first message of the signal start: just
/// after the first run of four, and of fourteen, distinct characters.
pub fn find_starts(signal: &Vec<char>) -> (r: Option<(usize, usize)>)
    ensures
        r is Some ==> (exists|x: int| window(signal@, x, 4) && distinct(signal@, x, 4)) && (exists|x: int|
            window(signal@, x, 14) && distinct(signal@, x, 14)),
        r matches Some((packet, message)) ==> distinct(signal@, packet - 4, 4) && distinct(
            signal@,
            message - 14,
            14,
        ) && (forall|x: int| 0 <= x < packet - 4 ==> !distinct(signal@, x, 4)) && (forall|x: int|
            0 <= x < message - 14 ==> !distinct(signal@, x, 14)),
        r is None ==> (forall|x: int| window(signal@, x, 4) ==> !distinct(signal@, x, 4)) || (forall|
            x: int,
        | window(signal@, x, 14) ==> !distinct(signal@, x, 14)),
{
    let packet = find_marker(signal, 4);
    let message = find_marker(signal, 14);
    match (packet, message) {
        (Some(p), Some(m)) => {
            assert(window(signal@, p - 4, 4));
            assert(window(signal@, m - 14, 14));
            Some((p, m))
        },
        _ => None,
    }
}

} // verus!
