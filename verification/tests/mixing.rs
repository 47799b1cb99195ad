use advent::mixing::{target_slot, Code, CodeItem};
use advent::mixing::read_numbers;

fn values(code: &Code) -> Vec<i16> {
    code.to_array()
}

// The move of one number on a plain list, to hold the buckets against.
fn reference_mix(input: &[i16], multiplier: i64, rounds: usize) -> Vec<i16> {
    let mut ring: Vec<(usize, i16)> = input.iter().cloned().enumerate().collect();
    let len = input.len() as i64 - 1;
    for _ in 0..rounds {
        for n in 0..input.len() {
            let at = ring.iter().position(|(p, _)| *p == n).unwrap();
            let item = ring.remove(at);
            let offset = item.1 as i64 * multiplier;
            let loci = at as i64 + offset;
            let slot = if offset == 0 {
                loci
            } else if loci <= 0 {
                len - (len - loci) % len
            } else if loci >= len {
                loci % len
            } else {
                loci
            };
            ring.insert(slot as usize, item);
        }
    }
    ring.iter().map(|(_, v)| *v).collect()
}

#[test]
fn mixing_of_the_sample() {
    let input = vec![1, 2, -3, 3, -2, 0, 4, 9];
    let sample = vec![1, 2, -3, 3, -2, 0, 4];
    let mut code = Code::new(&sample, 7, 1).unwrap();
    assert_eq!(values(&code), sample);
    code.process(0);
    assert_eq!(values(&code), vec![2, 1, -3, 3, -2, 0, 4]);
    code.process(1);
    assert_eq!(values(&code), vec![1, -3, 2, 3, -2, 0, 4]);
    code.process(2);
    assert_eq!(values(&code), vec![1, 2, 3, -2, -3, 0, 4]);
    code.process(3);
    assert_eq!(values(&code), vec![1, 2, -2, -3, 0, 3, 4]);
    code.process(4);
    assert_eq!(values(&code), vec![1, 2, -3, 0, 3, 4, -2]);
    code.process(5);
    assert_eq!(values(&code), vec![1, 2, -3, 0, 3, 4, -2]);
    code.process(6);
    assert_eq!(values(&code), vec![1, 2, -3, 4, 0, 3, -2]);
    assert_eq!(code.answer(), Some(3));
    let mut whole = Code::new(&sample, 7, 1).unwrap();
    whole.decode();
    assert_eq!(values(&whole), vec![1, 2, -3, 4, 0, 3, -2]);
    let mut key = Code::new(&sample, 1, 811589153).unwrap();
    for _ in 0..10 {
        key.decode();
    }
    assert_eq!(key.answer(), Some(1623178306));
    for size in [1, 2, 4, 8] {
        let mut c = Code::new(&input, size, 1).unwrap();
        c.decode();
        assert_eq!(values(&c), reference_mix(&input, 1, 1));
    }
}

#[test]
fn mixing_agrees_with_a_plain_list() {
    let mut input = vec![];
    let mut seed: i64 = 12345;
    for _ in 0..120 {
        seed = (seed * 1103515245 + 12345) % 2147483648;
        input.push((seed % 2001 - 1000) as i16);
    }
    for (size, multiplier, rounds) in [(10, 1, 1), (1, 1, 2), (120, -7, 1), (8, 811589153, 3), (60, 0, 1)] {
        let mut code = Code::new(&input, size, multiplier).unwrap();
        for _ in 0..rounds {
            code.decode();
        }
        assert_eq!(values(&code), reference_mix(&input, multiplier as i64, rounds), "buckets of {}", size);
        assert_eq!(code.buckets.len(), 120 / size);
        assert_eq!(code.buckets.iter().map(|b| b.len()).sum::<usize>(), 120);
        for (k, b) in code.index.iter().enumerate() {
            assert!(code.buckets[*b].iter().any(|i| i.pos as usize == k));
        }
    }
}

#[test]
fn mixing_rings_that_cannot_be_made() {
    assert!(Code::new(&vec![1, 2, 3], 0, 1).is_none());
    assert!(Code::new(&vec![1, 2, 3], 2, 1).is_none());
    assert!(Code::new(&vec![1], 1, 1).is_none());
    assert!(Code::new(&vec![], 1, 1).is_none());
    assert!(Code::new(&vec![1, 2], 1, 0x8000_0000).is_none());
    assert!(Code::new(&vec![1, 2], 1, -0x8000_0000).is_none());
    assert!(Code::new(&vec![1, 2], 1, 0x7fff_ffff).is_some());
    assert!(Code::new(&vec![0; 65537], 1, 1).is_none());
    assert!(Code::new(&vec![0; 65536], 65536, 1).is_some());
    let code = Code::new(&vec![5, 6], 2, 3).unwrap();
    assert_eq!(code.length, 2);
    assert_eq!(code.multiplier, 3);
    assert_eq!(code.index, vec![0, 0]);
    assert_eq!(code.answer(), None);
}

#[test]
fn mixing_take_and_place() {
    let mut code = Code::new(&vec![10, 20, 30, 40], 2, 1).unwrap();
    let (item, at) = code.take(2);
    assert_eq!((item.val, item.pos, at), (30, 2, 2));
    assert_eq!(values(&code), vec![10, 20, 40]);
    code.place(item, 0, 2);
    assert_eq!(values(&code), vec![30, 10, 20, 40]);
    assert_eq!(code.index, vec![0, 0, 0, 1]);
    let (item, at) = code.take(3);
    assert_eq!((item.val, at), (40, 3));
    code.place(CodeItem { val: 41, pos: 3 }, 3, 3);
    assert_eq!(values(&code), vec![30, 10, 20, 41]);
    assert_eq!(code.index[3], 0);
    let (_, at) = code.take(0);
    assert_eq!(at, 1);
}

#[test]
fn mixing_answer_goes_round_the_ring() {
    let code = Code::new(&vec![7, 0, 3], 3, 2).unwrap();
    assert_eq!(code.answer(), Some((3 + 7 + 0) * 2));
    let code = Code::new(&vec![0, 0], 1, 5).unwrap();
    assert_eq!(code.answer(), Some(0));
    let code = Code::new(&vec![i16::MIN, 0], 1, 0x7fff_ffff).unwrap();
    assert_eq!(code.answer(), Some(0));
    let code = Code::new(&vec![i16::MIN, 0, 1], 1, 0x7fff_ffff).unwrap();
    assert_eq!(code.answer(), Some(-32767 * 0x7fff_ffff));
}

#[test]
fn slots_on_the_ring() {
    assert_eq!(target_slot(3, 0, 6), 3);
    assert_eq!(target_slot(0, 0, 6), 0);
    assert_eq!(target_slot(6, 0, 6), 6);
    assert_eq!(target_slot(3, 1, 6), 4);
    assert_eq!(target_slot(3, 3, 6), 0);
    assert_eq!(target_slot(3, 4, 6), 1);
    assert_eq!(target_slot(3, -2, 6), 1);
    assert_eq!(target_slot(3, -3, 6), 6);
    assert_eq!(target_slot(3, -4, 6), 5);
    assert_eq!(target_slot(3, -9, 6), 6);
    assert_eq!(target_slot(0, 12, 6), 0);
    assert_eq!(target_slot(0, -12, 6), 6);
    assert_eq!(target_slot(2, 811589153 * 4, 6), ((2 + 811589153i64 * 4) % 6) as usize);
    assert_eq!(target_slot(1, 1, 1), 0);
    assert_eq!(target_slot(0, -1, 1), 1);
}

#[test]
fn numbers_of_lines() {
    let lines = |v: &[&str]| -> Vec<Vec<char>> { v.iter().map(|l| l.chars().collect()).collect() };
    assert_eq!(read_numbers(&lines(&["1", "-3", "+20", "0"])), Some(vec![1, -3, 20, 0]));
    assert_eq!(read_numbers(&lines(&["32767", "-32768"])), Some(vec![32767, -32768]));
    assert_eq!(read_numbers(&lines(&["32768"])), None);
    assert_eq!(read_numbers(&lines(&["-32769"])), None);
    assert_eq!(read_numbers(&lines(&["1", "", "2"])), None);
    assert_eq!(read_numbers(&lines(&["1 "])), None);
    assert_eq!(read_numbers(&lines(&[])), Some(vec![]));
}
