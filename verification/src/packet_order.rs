//! The order of packets.

use vstd::prelude::*;
use std::cmp::Ordering;
use crate::packet::{
    lemma_item_weight, lemma_list_model, lemma_single_model, lemma_single_total, models, rest,
    single, total, weight, Packet, Shape,
};

verus! {

/// How packet `a` stands to packet `b`: two numbers compare as numbers, two
/// lists item by item with the shorter one first where one runs out, and a
/// number against a list as the list that holds just that number.
pub open spec fn packet_order(a: Shape, b: Shape) -> Ordering
    decreases weight(a) + weight(b), 0int,
    via packet_order_ends
{
    match (a, b) {
        (Shape::Number(x), Shape::Number(y)) => if x < y {
            Ordering::Less
        } else if x == y {
            Ordering::Equal
        } else {
            Ordering::Greater
        },
        (Shape::List(la), Shape::List(lb)) => list_order(la, lb),
        (Shape::List(la), Shape::Number(y)) => list_order(la, single(y)),
        (Shape::Number(x), Shape::List(lb)) => list_order(single(x), lb),
    }
}

#[via_fn]
proof fn packet_order_ends(a: Shape, b: Shape) {
    match (a, b) {
        (Shape::List(la), Shape::Number(y)) => {
            lemma_single_total(y);
        },
        (Shape::Number(x), Shape::List(lb)) => {
            lemma_single_total(x);
        },
        _ => {},
    }
}

/// How the list of items `la` stands to the list of items `lb`.
pub open spec fn list_order(la: Seq<Shape>, lb: Seq<Shape>) -> Ordering
    decreases total(la) + total(lb), 1int,
{
    if la.len() == 0 && lb.len() == 0 {
        Ordering::Equal
    } else if la.len() == 0 {
        Ordering::Less
    } else if lb.len() == 0 {
        Ordering::Greater
    } else {
        match packet_order(la[0], lb[0]) {
            Ordering::Equal => list_order(la.drop_first(), lb.drop_first()),
            decided => decided,
        }
    }
}

/// Compares two packets.
pub fn packet_compare(a: &Packet, b: &Packet) -> (o: Ordering)
    ensures
        o == packet_order(a.model(), b.model()),
    decreases weight(a.model()) + weight(b.model()), 0int,
{
    match (a, b) {
        (Packet::Number(na), Packet::Number(nb)) => {
            if *na < *nb {
                Ordering::Less
            } else if *na == *nb {
                Ordering::Equal
            } else {
                Ordering::Greater
            }
        },
        (Packet::List(la), Packet::List(lb)) => {
            proof {
                lemma_list_model(a);
                lemma_list_model(b);
            }
            compare_lists(la, lb)
        },
        (Packet::List(la), Packet::Number(n)) => {
            let lb = vec![Packet::Number(*n)];
            proof {
                lemma_list_model(a);
                lemma_single_model(lb@, *n);
                lemma_single_total(models(lb@)[0]->Number_0);
            }
            compare_lists(la, &lb)
        },
        (Packet::Number(n), Packet::List(lb)) => {
            let la = vec![Packet::Number(*n)];
            proof {
                lemma_list_model(b);
                lemma_single_model(la@, *n);
                lemma_single_total(models(la@)[0]->Number_0);
            }
            compare_lists(&la, lb)
        },
    }
}

/// Compares two lists of packets item by item.
pub fn compare_lists(la: &Vec<Packet>, lb: &Vec<Packet>) -> (o: Ordering)
    ensures
        o == list_order(models(la@), models(lb@)),
    decreases total(models(la@)) + total(models(lb@)), 1int,
{
    let ghost ma = models(la@);
    let ghost mb = models(lb@);
    let mut n: usize = 0;
    assert(rest(ma, 0) =~= ma);
    assert(rest(mb, 0) =~= mb);
    loop
        invariant
            ma == models(la@),
            mb == models(lb@),
            n <= la@.len(),
            n <= lb@.len(),
            list_order(ma, mb) == list_order(rest(ma, n), rest(mb, n)),
        decreases la@.len() - n,
    {
        match (n >= la.len(), n >= lb.len()) {
            (true, false) => {
                return Ordering::Less;
            },
            (false, true) => {
                return Ordering::Greater;
            },
            (true, true) => {
                return Ordering::Equal;
            },
            (false, false) => {
                proof {
                    lemma_next_item(ma, n);
                    lemma_next_item(mb, n);
                }
                let o = packet_compare(&la[n], &lb[n]);
                match o {
                    Ordering::Equal => {},
                    _ => {
                        return o;
                    },
                }
            },
        }
        n += 1;
    }
}

/// The item at place `n` heads what is left after `n` items, and weighs no
/// more than the whole run.
proof fn lemma_next_item(l: Seq<Shape>, n: usize)
    requires
        n < l.len() <= usize::MAX,
    ensures
        rest(l, n).len() > 0,
        rest(l, n)[0] == l[n as int],
        rest(l, n).drop_first() == rest(l, (n + 1) as usize),
        weight(l[n as int]) <= total(l),
{
    assert(rest(l, n).drop_first() =~= rest(l, (n + 1) as usize));
    lemma_item_weight(l, n as int);
}

} // verus!
