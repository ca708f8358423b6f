use sudoku::BitSet;

fn members(set: BitSet) -> Vec<usize> {
    let mut out = Vec::new();
    let mut it = set.foreach();
    while let Some(x) = it.next() {
        out.push(x);
    }
    out
}

#[test]
fn test_foreach() {
    let set = BitSet::from_bits(0b1111111100);
    let mut idx = 2; // The first index is 2
    for x in members(set) {
        assert_eq!(x, idx);
        idx += 1;
    }
    assert_eq!(idx, 10);
}

#[test]
fn test_empty() {
    let mut set = BitSet::from_bits(0b11111);
    for idx in 0..5 {
        assert!(!set.empty());
        set = set.unset(idx);
    }
    assert!(set.empty());
}

#[test]
fn test_count() {
    let mut set = BitSet::from_bits(0b11111);
    let mut count = 5;
    for idx in 0..5 {
        assert_eq!(set.count(), count);
        set = set.unset(idx);
        count -= 1;
    }
    assert_eq!(set.count(), 0);
}

#[test]
fn test_singleton() {
    let mut set = BitSet::from_bits(0b11111);
    for idx in 0..4 {
        assert!(set.singleton().is_none());
        set = set.unset(idx);
    }
    // We should now be a singleton of 4.
    assert_eq!(set.singleton(), Some(4));
    set = set.unset(4);

    // We are now empty.
    assert!(set.singleton().is_none());
}

#[test]
fn test_intersect() {
    let lhs = BitSet::new(&[0, 1, 2]);
    let rhs = BitSet::new(&[1, 2, 5, 6]);
    let want = BitSet::new(&[1, 2]);

    // Check our expected result.
    assert_eq!(lhs.intersect(rhs), want);
    // Check that it is a fixed point.
    assert_eq!(want.intersect(rhs), want);
    // Check that a different orientation returns something different.
    assert_ne!(want.intersect(rhs), lhs);
}

#[test]
fn test_union() {
    let lhs = BitSet::new(&[0, 1, 2]);
    let rhs = BitSet::new(&[1, 2, 5, 6]);
    let want = BitSet::new(&[0, 1, 2, 5, 6]);

    // Check our expected result.
    assert_eq!(lhs.union(rhs), want);
    // Check that it is a fixed point.
    assert_eq!(want.union(rhs), want);
}

#[test]
fn test_has() {
    let set = BitSet::from_bits(0b110110101011);
    assert_eq!(set.has(0), true);
    assert_eq!(set.has(1), true);
    assert_eq!(set.has(2), false);
    assert_eq!(set.has(3), true);
    assert_eq!(set.has(4), false);
    assert_eq!(set.has(5), true);
    assert_eq!(set.has(6), false);
    assert_eq!(set.has(7), true);
    assert_eq!(set.has(8), true);
    assert_eq!(set.has(9), false);
    assert_eq!(set.has(10), true);
    assert_eq!(set.has(11), true);
}

#[test]
fn test_iterating_alternating() {
    let set = BitSet::from_bits(0b10101010101010);
    let mut idx = 1; // The first index is 1
    for x in members(set) {
        assert_eq!(x, idx);
        idx += 2; // Every other bit is set.
    }
    assert_eq!(idx, 15);
}

#[test]
fn test_formatting() {
    assert_eq!("{}", BitSet::from_bits(0b0).to_text());
    assert_eq!("{0,1}", BitSet::from_bits(0b11).to_text());
    assert_eq!("{0,3}", BitSet::from_bits(0b1001).to_text());
    assert_eq!("{1,2,3,4,5,6,7,8,9}", BitSet::from_bits(0b1111111110).to_text());
}

#[test]
fn formatting_two_digit_members() {
    assert_eq!("{9,10,15}", BitSet::new(&[15, 9, 10]).to_text());
}

#[test]
fn intersect_and_union_commute() {
    let a = BitSet::new(&[1, 3, 5, 7]);
    let b = BitSet::new(&[3, 4, 5]);
    assert_eq!(a.intersect(b), b.intersect(a));
    assert_eq!(a.union(b), b.union(a));
    assert_eq!(a.intersect(b), BitSet::new(&[3, 5]));
    assert_eq!(a.union(b), BitSet::new(&[1, 3, 4, 5, 7]));
}

#[test]
fn intersect_and_union_associate() {
    let a = BitSet::new(&[1, 2, 3]);
    let b = BitSet::new(&[2, 3, 4]);
    let c = BitSet::new(&[3, 4, 5]);
    assert_eq!(a.intersect(b).intersect(c), a.intersect(b.intersect(c)));
    assert_eq!(a.union(b).union(c), a.union(b.union(c)));
    assert_eq!(a.intersect(b).intersect(c), BitSet::new(&[3]));
}

#[test]
fn intersect_and_union_idempotent() {
    let a = BitSet::new(&[2, 4, 8]);
    let b = BitSet::new(&[4, 9]);
    assert_eq!(a.intersect(a), a);
    assert_eq!(a.union(a), a);
    assert_eq!(a.intersect(b).intersect(b), a.intersect(b));
    assert_eq!(a.union(b).union(b), a.union(b));
}

#[test]
fn singleton_exactly_when_count_is_one() {
    let sets = [
        BitSet::new(&[]),
        BitSet::new(&[7]),
        BitSet::new(&[0]),
        BitSet::new(&[15]),
        BitSet::new(&[3, 4]),
        BitSet::new(&[1, 2, 3, 4, 5, 6, 7, 8, 9]),
    ];
    for s in sets {
        assert_eq!(s.singleton().is_some(), s.count() == 1);
    }
    assert_eq!(BitSet::new(&[15]).singleton(), Some(15));
    assert_eq!(BitSet::new(&[0]).singleton(), Some(0));
}

#[test]
fn set_and_unset_change_one_member() {
    let s = BitSet::new(&[1, 2]);
    assert_eq!(s.set(9), BitSet::new(&[1, 2, 9]));
    assert_eq!(s.set(2), s);
    assert_eq!(s.unset(1), BitSet::new(&[2]));
    assert_eq!(s.unset(5), s);
    assert_eq!(BitSet::new(&[1, 2, 3, 4, 5, 6, 7, 8, 9]).count(), 9);
}

#[test]
fn iteration_restarts_from_the_set() {
    let s = BitSet::new(&[8, 2, 5]);
    assert_eq!(members(s), vec![2, 5, 8]);
    assert_eq!(members(s), vec![2, 5, 8]);
    assert_eq!(members(BitSet::new(&[])), Vec::<usize>::new());
}
