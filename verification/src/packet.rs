//! Nested packets of numbers and lists, and the reader of their text form.

use vstd::prelude::*;
use crate::text::{
    chars_of, is_digit, lemma_number_grows, lemma_number_push, number,
};

verus! {

/// A packet: a number, or a list of packets.
#[derive(Debug, PartialEq)]
pub enum Packet {
    Number(usize),
    List(Vec<Packet>),
}

/// The mathematical content of a packet.
pub enum Shape {
    Number(nat),
    List(Seq<Shape>),
}

impl Packet {
    /// The content of this packet.
    pub open spec fn model(&self) -> Shape
        decreases self,
    {
        match self {
            Packet::Number(n) => Shape::Number(*n as nat),
            Packet::List(v) => Shape::List(
                Seq::new(
                    v@.len(),
                    |i: int|
                        if 0 <= i < v@.len() {
                            v@[i].model()
                        } else {
                            Shape::Number(0)
                        },
                ),
            ),
        }
    }
}

impl Clone for Packet {
    /// A packet of its own with the same content.
    fn clone(&self) -> (copy: Self)
        ensures
            copy.model() == self.model(),
        decreases self,
    {
        match self {
            Packet::Number(n) => Packet::Number(*n),
            Packet::List(v) => {
                let mut out: Vec<Packet> = Vec::new();
                let mut i: usize = 0;
                while i < v.len()
                    invariant
                        i <= v@.len(),
                        out@.len() == i,
                        self == Packet::List(*v),
                        forall|k: int| 0 <= k < i ==> (#[trigger] out@[k]).model() == v@[k].model(),
                    decreases v@.len() - i,
                {
                    assert(decreases_to!(self => self->List_0));
                    assert(decreases_to!(self->List_0 => self->List_0@));
                    assert(decreases_to!(self->List_0@ => self->List_0@[i as int]));
                    out.push(v[i].clone());
                    i += 1;
                }
                let copy = Packet::List(out);
                assert(copy.model()->List_0 =~= self.model()->List_0);
                copy
            },
        }
    }
}

/// The contents of a run of packets.
pub open spec fn models(v: Seq<Packet>) -> Seq<Shape> {
    Seq::new(v.len(), |i: int| v[i].model())
}

/// What is left of `l` after its first `n` items.
pub open spec fn rest(l: Seq<Shape>, n: usize) -> Seq<Shape> {
    l.skip(n as int)
}

/// The weight of a packet: one for itself and the weight of each item in it.
pub open spec fn weight(s: Shape) -> nat
    decreases s,
{
    match s {
        Shape::Number(_) => 1,
        Shape::List(l) => 1 + total(l),
    }
}

/// The summed weight of a run of packets.
pub open spec fn total(l: Seq<Shape>) -> nat
    decreases l,
{
    if l.len() == 0 {
        0
    } else {
        weight(l[0]) + total(l.drop_first())
    }
}

/// An item weighs no more than the run it stands in.
pub proof fn lemma_item_weight(l: Seq<Shape>, i: int)
    requires
        0 <= i < l.len(),
    ensures
        weight(l[i]) <= total(l),
        weight(l[i]) >= 1,
    decreases l.len(),
{
    if i > 0 {
        lemma_item_weight(l.drop_first(), i - 1);
    }
}

/// The items of the list that holds just the number `n`.
pub open spec fn single(n: nat) -> Seq<Shape> {
    seq![Shape::Number(n)]
}

/// The list that holds just a number weighs one.
pub proof fn lemma_single_total(n: nat)
    ensures
        total(single(n)) == 1,
{
    assert(single(n).drop_first() =~= Seq::empty());
    assert(total(single(n).drop_first()) == 0);
    assert(single(n).len() == 1);
    assert(weight(single(n)[0]) == 1);
    assert(total(single(n)) == weight(single(n)[0]) + total(single(n).drop_first()));
}

/// The content of a list is the contents of its items.
pub proof fn lemma_list_model(p: &Packet)
    requires
        p is List,
    ensures
        p.model() == Shape::List(models(p->List_0@)),
{
    assert(p.model()->List_0 =~= models(p->List_0@));
}

/// The content of the list that holds just the number `n`.
pub proof fn lemma_single_model(v: Seq<Packet>, n: usize)
    requires
        v.len() == 1,
        v[0] == Packet::Number(n),
    ensures
        models(v) == single(n as nat),
{
    assert(models(v) =~= single(n as nat));
}

/// The index just past the digits that start at `i`.
pub open spec fn digits_end(s: Seq<char>, i: int) -> int
    decreases s.len() - i,
{
    if 0 <= i < s.len() && is_digit(s[i]) {
        digits_end(s, i + 1)
    } else {
        i
    }
}

/// Reads one packet from `s` at index `i`: the packet and the index after
/// it, or `None` where no packet stands there. A packet is a run of digits
/// whose number fits in `usize`, or a `[`, packets and commas in any order,
/// and a `]`.
pub open spec fn scan(s: Seq<char>, i: int) -> Option<(Shape, int)>
    decreases s.len() - i, 0int,
{
    if !(0 <= i < s.len()) {
        None
    } else if s[i] == '[' {
        scan_items(s, i + 1, Seq::empty())
    } else {
        let j = digits_end(s, i);
        let n = number(s.subrange(i, j));
        if j == i || n > usize::MAX {
            None
        } else {
            Some((Shape::Number(n), j))
        }
    }
}

/// Reads the rest of a list from `s` at index `i`, after the items `found`:
/// the whole list and the index after its `]`.
pub open spec fn scan_items(s: Seq<char>, i: int, found: Seq<Shape>) -> Option<(Shape, int)>
    decreases s.len() - i, 1int,
{
    if !(0 <= i < s.len()) {
        None
    } else if s[i] == ']' {
        Some((Shape::List(found), i + 1))
    } else if s[i] == ',' {
        scan_items(s, i + 1, found)
    } else {
        match scan(s, i) {
            Some((item, j)) => if i < j <= s.len() {
                scan_items(s, j, found.push(item))
            } else {
                None
            },
            None => None,
        }
    }
}

/// What a read from position `from` of `text` must have done, given what
/// the text holds there according to `expected`.
pub open spec fn read_as(
    expected: Option<(Shape, int)>,
    got: Option<Packet>,
    end: int,
) -> bool {
    match expected {
        Some((shape, next)) => got matches Some(p) && p.model() == shape && end == next,
        None => got is None,
    }
}

/// The digits that start at `i` end where those that start inside them end.
pub proof fn lemma_digits_end(s: Seq<char>, i: int, j: int)
    requires
        0 <= i <= j <= s.len(),
        forall|k: int| i <= k < j ==> is_digit(s[k]),
    ensures
        digits_end(s, i) == digits_end(s, j),
        j <= digits_end(s, j) <= s.len(),
    decreases j - i,
{
    if i < j {
        lemma_digits_end(s, i + 1, j);
    } else {
        lemma_digits_end_bound(s, j);
    }
}

proof fn lemma_digits_end_bound(s: Seq<char>, i: int)
    requires
        0 <= i <= s.len(),
    ensures
        i <= digits_end(s, i) <= s.len(),
    decreases s.len() - i,
{
    if i < s.len() && is_digit(s[i]) {
        lemma_digits_end_bound(s, i + 1);
    }
}

/// A cursor over the characters of a text.
pub struct Stream {
    chars: Vec<char>,
    index: usize,
}

impl Stream {
    /// The whole text.
    pub closed spec fn text(&self) -> Seq<char> {
        self.chars@
    }

    /// The index of the next character.
    pub closed spec fn pos(&self) -> int {
        self.index as int
    }

    /// A cursor at the start of `chars`.
    pub fn new(chars: Vec<char>) -> (s: Stream)
        ensures
            s.text() == chars@,
            s.pos() == 0,
    {
        Stream { chars, index: 0 }
    }

    /// Whether every character has been read.
    pub fn eof(&self) -> (b: bool)
        ensures
            b == (self.pos() >= self.text().len()),
    {
        self.index >= self.chars.len()
    }

    /// The next character, which stays unread.
    pub fn peek(&self) -> (c: char)
        requires
            self.pos() < self.text().len(),
        ensures
            c == self.text()[self.pos()],
    {
        self.chars[self.index]
    }

    /// Reads the next character.
    pub fn read(&mut self) -> (c: char)
        requires
            old(self).pos() < old(self).text().len(),
        ensures
            c == old(self).text()[old(self).pos()],
            final(self).text() == old(self).text(),
            final(self).pos() == old(self).pos() + 1,
    {
        let res = self.peek();
        assert(self.index < self.chars.len());
        self.index += 1;
        res
    }
}

/// Reads a list whose `[` is the next character: the packet and the cursor
/// after its `]`, or `None` where the text ends before the list does or an
/// item is no packet.
pub fn read_array(s: &mut Stream) -> (r: Option<Packet>)
    requires
        old(s).pos() < old(s).text().len(),
    ensures
        final(s).text() == old(s).text(),
        read_as(scan_items(old(s).text(), old(s).pos() + 1, Seq::empty()), r, final(s).pos()),
    decreases old(s).text().len() - old(s).pos(), 0int,
{
    s.read();
    let mut out: Vec<Packet> = Vec::new();
    let ghost text = s.text();
    let ghost start = s.pos();
    assert(models(out@) =~= Seq::empty());
    loop
        invariant
            s.text() == text,
            start <= s.pos(),
            text == old(s).text(),
            start == old(s).pos() + 1,
            scan_items(text, start, Seq::empty()) == scan_items(text, s.pos(), models(out@)),
        decreases text.len() - s.pos(),
    {
        if s.eof() {
            return None;
        }
        if s.peek() == ']' {
            s.read();
            let ghost found = models(out@);
            let p = Packet::List(out);
            assert(p.model() == Shape::List(found)) by {
                assert(p.model()->List_0 =~= found);
            }
            return Some(p);
        } else if s.peek() == ',' {
            s.read();
        } else {
            let ghost before = s.pos();
            let ghost found = models(out@);
            match read(s) {
                Some(item) => {
                    proof {
                        lemma_scan_advances(text, before);
                    }
                    out.push(item);
                    assert(models(out@) =~= found.push(item.model()));
                },
                None => {
                    return None;
                },
            }
        }
    }
}

/// A packet that `scan` finds ends after the index at which it starts.
pub proof fn lemma_scan_advances(s: Seq<char>, i: int)
    ensures
        scan(s, i) matches Some((_, j)) ==> i < j <= s.len(),
    decreases s.len() - i, 0int,
{
    if 0 <= i < s.len() {
        if s[i] == '[' {
            lemma_scan_items_advances(s, i + 1, Seq::empty());
        } else {
            lemma_digits_end_bound(s, i);
        }
    }
}

proof fn lemma_scan_items_advances(s: Seq<char>, i: int, found: Seq<Shape>)
    ensures
        scan_items(s, i, found) matches Some((_, j)) ==> i < j <= s.len(),
    decreases s.len() - i, 1int,
{
    if 0 <= i < s.len() {
        if s[i] == ']' {
        } else if s[i] == ',' {
            lemma_scan_items_advances(s, i + 1, found);
        } else {
            lemma_scan_advances(s, i);
            match scan(s, i) {
                Some((item, j)) => {
                    if i < j <= s.len() {
                        lemma_scan_items_advances(s, j, found.push(item));
                    }
                },
                None => {},
            }
        }
    }
}

/// Reads the packet that starts at the cursor: a list, or a number written
/// in decimal digits. Returns `None`, with the cursor anywhere, where the
/// text holds no packet there or a number does not fit in `usize`.
pub fn read(s: &mut Stream) -> (r: Option<Packet>)
    ensures
        final(s).text() == old(s).text(),
        read_as(scan(old(s).text(), old(s).pos()), r, final(s).pos()),
    decreases old(s).text().len() - old(s).pos(), 1int,
{
    if s.eof() {
        return None;
    }
    if s.peek() == '[' {
        read_array(s)
    } else {
        let ghost text = s.text();
        let ghost start = s.pos();
        let mut value: usize = 0;
        let mut any = false;
        loop
            invariant
                s.text() == text,
                text == old(s).text(),
                start == old(s).pos(),
                start <= s.pos() <= text.len(),
                start < text.len(),
                text[start] != '[',
                any == (start < s.pos()),
                forall|k: int| start <= k < s.pos() ==> is_digit(text[k]),
                value == number(text.subrange(start, s.pos())),
            ensures
                digits_end(text, s.pos()) == s.pos(),
            decreases text.len() - s.pos(),
        {
            if s.eof() {
                break ;
            }
            let c = s.peek();
            if !('0' <= c && c <= '9') {
                break ;
            }
            let ghost at = s.pos();
            s.read();
            let d = (c as u32 - '0' as u32) as usize;
            proof {
                lemma_number_push(text, start, at);
                lemma_digits_end(text, start, at + 1);
                lemma_number_grows(text, start, at + 1, digits_end(text, start));
            }
            let next = match value.checked_mul(10) {
                Some(tens) => tens.checked_add(d),
                None => None,
            };
            match next {
                Some(v) => {
                    value = v;
                },
                None => {
                    return None;
                },
            }
            any = true;
        }
        proof {
            lemma_digits_end(text, start, s.pos());
        }
        if any {
            Some(Packet::Number(value))
        } else {
            None
        }
    }
}

/// Reads the packet that `ps` starts with, or `None` where it starts with
/// none.
pub fn try_parse(ps: &str) -> (r: Option<Packet>)
    ensures
        match scan(ps@, 0) {
            Some((shape, _)) => r matches Some(p) && p.model() == shape,
            None => r is None,
        },
{
    let mut s = Stream::new(chars_of(ps));
    read(&mut s)
}

/// Reads the packet that `ps` starts with.
pub fn parse(ps: &str) -> (p: Packet)
    requires
        scan(ps@, 0) is Some,
    ensures
        p.model() == scan(ps@, 0).unwrap().0,
{
    match try_parse(ps) {
        Some(p) => p,
        None => Packet::Number(0),
    }
}

} // verus!
