use rucene_core::bit_set::bits2words;
use rucene_core::bit_set::check_unpositioned;
use rucene_core::bit_set::BitSet;
use rucene_core::bit_set::DocIterator;
use rucene_core::bit_set::FixedBitSet;
use rucene_core::bit_set::ImmutableBitSet;
use rucene_core::bit_set::ImmutableBits;
use rucene_core::bit_set::NO_MORE_DOCS;
use rucene_core::error::ErrorKind;

fn bits_of(b: &FixedBitSet) -> Vec<bool> {
    (0..b.len()).map(|i| b.get(i).unwrap()).collect()
}

fn patterned(n: usize) -> FixedBitSet {
    let mut b = FixedBitSet::new(n);
    for i in 0..n {
        if i % 3 == 0 || i % 7 == 1 {
            b.set(i);
        }
    }
    b
}

#[test]
fn words_needed() {
    assert_eq!(bits2words(0), 0);
    assert_eq!(bits2words(1), 1);
    assert_eq!(bits2words(64), 1);
    assert_eq!(bits2words(65), 2);
    assert_eq!(bits2words(130), 3);
}

#[test]
fn scenario_130_bits() {
    let mut b = FixedBitSet::new(130);
    b.set(0);
    b.set(64);
    b.set(129);
    assert_eq!(b.cardinality(), 3);
    assert_eq!(b.approximate_cardinality(), 3);
    assert_eq!(b.next_set_bit(1), 64);
    assert_eq!(b.next_set_bit(65), 129);
    assert_eq!(b.next_set_bit(0), 0);
    assert_eq!(b.get(130), Err(ErrorKind::IllegalArgument));
}

#[test]
fn next_set_bit_sentinel() {
    let mut b = FixedBitSet::new(200);
    assert_eq!(b.next_set_bit(0), NO_MORE_DOCS);
    b.set(70);
    assert_eq!(b.next_set_bit(71), NO_MORE_DOCS);
    assert_eq!(b.next_set_bit(5), 70);
}

#[test]
fn next_set_bit_enumerates_set_bits() {
    let b = patterned(300);
    let mut seen = Vec::new();
    let mut i = 0usize;
    while i < b.len() {
        let r = b.next_set_bit(i);
        if r == NO_MORE_DOCS {
            break;
        }
        seen.push(r as usize);
        i = r as usize + 1;
    }
    let expected: Vec<usize> = (0..300).filter(|i| i % 3 == 0 || i % 7 == 1).collect();
    assert_eq!(seen, expected);
}

#[test]
fn cardinality_counts_get() {
    let b = patterned(259);
    let count = bits_of(&b).iter().filter(|x| **x).count();
    assert_eq!(b.cardinality(), count);
}

#[test]
fn flip_twice_restores() {
    for (a, c) in [(0usize, 200usize), (3, 5), (10, 140), (64, 128), (63, 65), (0, 0), (7, 3)] {
        let mut b = patterned(200);
        let before = bits_of(&b);
        b.flip(a, c);
        b.flip(a, c);
        assert_eq!(bits_of(&b), before);
    }
}

#[test]
fn flip_toggles_range_only() {
    let mut b = patterned(150);
    let before = bits_of(&b);
    b.flip(5, 133);
    let after = bits_of(&b);
    for i in 0..150 {
        if (5..133).contains(&i) {
            assert_eq!(after[i], !before[i]);
        } else {
            assert_eq!(after[i], before[i]);
        }
    }
    let mut small = FixedBitSet::new(10);
    small.flip(2, 4);
    assert_eq!(bits_of(&small), vec![false, false, true, true, false, false, false, false, false, false]);
}

#[test]
fn clear_range() {
    for (a, c) in [(0usize, 190usize), (3, 5), (10, 140), (64, 128), (63, 65), (9, 9)] {
        let mut b = patterned(190);
        let before = bits_of(&b);
        BitSet::clear(&mut b, a, c);
        let after = bits_of(&b);
        for i in 0..190 {
            if a <= i && i < c {
                assert!(!after[i]);
            } else {
                assert_eq!(after[i], before[i]);
            }
        }
    }
}

#[test]
fn clear_single_bit() {
    let mut b = FixedBitSet::new(100);
    b.set(77);
    b.set(78);
    b.clear(77);
    assert_eq!(b.get(77), Ok(false));
    assert_eq!(b.get(78), Ok(true));
}

#[test]
fn ensure_capacity_below_length_is_noop() {
    let mut b = patterned(100);
    let before = bits_of(&b);
    b.ensure_capacity(50);
    assert_eq!(b.len(), 100);
    assert_eq!(bits_of(&b), before);
}

#[test]
fn ensure_capacity_grows() {
    let mut b = patterned(100);
    let before = bits_of(&b);
    b.ensure_capacity(300);
    assert_eq!(b.len(), (bits2words(300) + 1) * 64);
    let after = bits_of(&b);
    assert_eq!(&after[..100], &before[..]);
    assert!(after[100..].iter().all(|x| !*x));
    b.set(300);
    assert_eq!(b.get(300), Ok(true));
}

#[test]
fn copy_from_checks_words() {
    assert_eq!(FixedBitSet::copy_from(vec![0u64; 1], 65).err(), Some(ErrorKind::IllegalArgument));
    assert_eq!(FixedBitSet::copy_from(vec![1u64 << 10], 10).err(), Some(ErrorKind::IllegalArgument));
    assert_eq!(FixedBitSet::copy_from(vec![0u64, 1u64], 10).err(), Some(ErrorKind::IllegalArgument));
    let b = FixedBitSet::copy_from(vec![0b1001u64, 0u64], 10).unwrap();
    assert_eq!(b.len(), 10);
    assert_eq!(b.cardinality(), 2);
    assert_eq!(b.next_set_bit(1), 3);
}

struct VecDocs {
    docs: Vec<i32>,
    pos: usize,
    current: i32,
}

impl DocIterator for VecDocs {
    fn doc_id(&self) -> i32 {
        self.current
    }

    fn next(&mut self) -> Result<i32, ErrorKind> {
        self.current = if self.pos < self.docs.len() { self.docs[self.pos] } else { NO_MORE_DOCS };
        self.pos += 1;
        Ok(self.current)
    }
}

#[test]
fn or_sets_every_doc() {
    let mut b = FixedBitSet::new(100);
    b.set(1);
    let mut it = VecDocs { docs: vec![3, 40, 99], pos: 0, current: -1 };
    assert_eq!(b.or(&mut it), Ok(()));
    assert_eq!(b.cardinality(), 4);
    assert_eq!(b.next_set_bit(2), 3);
    assert_eq!(b.next_set_bit(41), 99);
}

#[test]
fn or_needs_unpositioned_iterator() {
    let mut b = FixedBitSet::new(100);
    let mut it = VecDocs { docs: vec![3, 40], pos: 1, current: 3 };
    assert_eq!(b.or(&mut it), Err(ErrorKind::IllegalState));
    assert_eq!(b.cardinality(), 0);
    assert_eq!(check_unpositioned(-1), Ok(()));
    assert_eq!(check_unpositioned(0), Err(ErrorKind::IllegalState));
}

#[test]
fn or_step_outcomes() {
    let mut b = FixedBitSet::new(50);
    assert_eq!(b.or_step(NO_MORE_DOCS, 0), Ok(false));
    assert_eq!(b.or_step(50, 0), Err(ErrorKind::IllegalArgument));
    assert_eq!(b.or_step(-3, 0), Err(ErrorKind::IllegalArgument));
    assert_eq!(b.or_step(4, 5), Err(ErrorKind::IllegalArgument));
    assert_eq!(b.cardinality(), 0);
    assert_eq!(b.or_step(7, 5), Ok(true));
    assert_eq!(b.get(7), Ok(true));
    assert_eq!(b.cardinality(), 1);
}

#[test]
fn empty_range_clear_keeps_words() {
    let mut b = patterned(130);
    let words = b.bits.clone();
    BitSet::clear(&mut b, 90, 20);
    assert_eq!(b.bits, words);
}

#[test]
fn cardinality_full_words() {
    let mut b = FixedBitSet::new(192);
    b.flip(0, 192);
    assert_eq!(b.cardinality(), 192);
    let c = FixedBitSet::copy_from(vec![u64::MAX, 0, 1], 129).unwrap();
    assert_eq!(c.cardinality(), 65);
}
