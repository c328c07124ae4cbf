use htmf::cellset::CellSet;
use htmf::NUM_CELLS;

#[test]
fn insert_then_contains() {
    let mut s = CellSet::new();
    assert!(!s.contains(0));
    s = s.insert(0);
    assert!(s.contains(0));
    assert_eq!(s.len(), 1);
}

#[test]
fn insert_then_remove() {
    let mut s = CellSet::new();
    assert!(!s.contains(0));
    s = s.insert(0);
    assert!(s.contains(0));
    s = s.remove(0);
    assert!(!s.contains(0));
}

#[test]
fn insert_then_is_empty() {
    let mut s = CellSet::new();
    assert!(s.is_empty());
    s = s.insert(0);
    assert!(!s.is_empty());
}

#[test]
fn insert_then_iter() {
    let mut s = CellSet::new();
    s = s.insert(0);
    assert_eq!(s.iter().next(), Some(0));
}

#[test]
fn insert_multiple_values() {
    let mut s = CellSet::new();

    let vals = [0, 30, 46];

    for v in vals.iter() {
        s = s.insert(*v as u8);
    }

    assert_eq!(s.len(), vals.len());

    let mut iter = s.iter();
    for (seen, v) in vals.iter().enumerate() {
        assert_eq!(iter.size_hint().0, vals.len() - seen);
        assert_eq!(iter.next(), Some(*v as u8));
    }
}

#[test]
fn full_holds_every_cell() {
    let s = CellSet::full();
    assert_eq!(s.len(), NUM_CELLS);
    for c in 0..NUM_CELLS as u8 {
        assert!(s.contains(c));
    }
    assert_eq!(s.data, (1u64 << 60) - 1);
}

#[test]
fn insert_and_remove_every_cell() {
    for c in 0..NUM_CELLS as u8 {
        let s = CellSet::new().insert(7).insert(59);
        let with = s.insert(c);
        assert!(with.contains(c));
        let without = with.remove(c);
        assert!(!without.contains(c));
        if c != 7 && c != 59 {
            assert_eq!(without, s);
        }
    }
}

#[test]
fn set_algebra() {
    let a = CellSet::new().insert(1).insert(2).insert(3);
    let b = CellSet::new().insert(3).insert(4);
    assert_eq!(a.union(b), CellSet::new().insert(1).insert(2).insert(3).insert(4));
    assert_eq!(a.intersect(b), CellSet::new().insert(3));
    assert_eq!(a.exclude(b), CellSet::new().insert(1).insert(2));
    assert_eq!(a.union(b).len(), 4);
    assert_eq!(CellSet::default(), CellSet::new());
}

#[test]
fn iter_is_ascending_and_restartable() {
    let s = CellSet::new().insert(59).insert(5).insert(17).insert(0);
    for _ in 0..2 {
        let mut it = s.iter();
        let mut seen = vec![];
        while let Some(c) = it.next() {
            seen.push(c);
        }
        assert_eq!(seen, vec![0, 5, 17, 59]);
        assert_eq!(it.next(), None);
        assert_eq!(it.size_hint(), (0, Some(0)));
    }
    let mut empty = CellSet::new().iter();
    assert_eq!(empty.next(), None);
}
