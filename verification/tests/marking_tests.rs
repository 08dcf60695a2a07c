use pnets::marking::DualMarkingIterator;
use pnets::Marking;

#[test]
fn test_get() {
    let mut marking: Marking<usize> = Default::default();
    marking.insert_or_add(2, 2);
    marking.insert_or_add(1, 3);
    marking.insert_or_add(3, 1);
    marking.insert_or_add(5, 5);

    assert_eq!(marking[1], 3);
    assert_eq!(marking[2], 2);
    assert_eq!(marking[3], 1);
    assert_eq!(marking[4], 0);
    assert_eq!(marking[5], 5);
    assert_eq!(marking[52], 0);
}

#[test]
fn test_insert_or_add() {
    let mut marking: Marking<usize> = Default::default();
    marking.insert_or_add(2, 2);
    marking.insert_or_add(1, 3);
    marking.insert_or_add(3, 1);
    marking.insert_or_add(2, 2);
    marking.insert_or_add(5, 5);
    marking.insert_or_add(4, 4);

    assert_eq!(marking[1], 3);
    assert_eq!(marking[2], 4);
    assert_eq!(marking[3], 1);
    assert_eq!(marking[4], 4);
    assert_eq!(marking[5], 5);
}

#[test]
fn test_insert_or_min() {
    let mut marking: Marking<usize> = Default::default();
    marking.insert_or_min(2, 2);
    marking.insert_or_min(1, 3);
    marking.insert_or_min(1, 1);
    marking.insert_or_min(2, 2);
    marking.insert_or_min(5, 5);
    marking.insert_or_min(4, 4);

    assert_eq!(marking[1], 1);
    assert_eq!(marking[2], 2);
    assert_eq!(marking[4], 4);
    assert_eq!(marking[5], 5);
}

#[test]
fn test_insert_or_max() {
    let mut marking: Marking<usize> = Default::default();
    marking.insert_or_max(2, 2);
    marking.insert_or_max(2, 3);
    marking.insert_or_max(2, 2);
    marking.insert_or_max(5, 5);
    marking.insert_or_max(4, 4);

    assert_eq!(marking[2], 3);
    assert_eq!(marking[4], 4);
    assert_eq!(marking[5], 5);
}

#[test]
fn test_dual_iterator_rand() {
    let mut marking_1: Marking<usize> = Default::default();
    let mut marking_2: Marking<usize> = Default::default();
    for _ in 0..fastrand::usize(0..1000) {
        marking_1.insert_or_max(
            fastrand::usize(0..usize::MAX),
            fastrand::usize(0..usize::MAX),
        );
    }
    for _ in 0..fastrand::usize(0..1000) {
        marking_2.insert_or_max(
            fastrand::usize(0..usize::MAX),
            fastrand::usize(0..usize::MAX),
        );
    }
    let mut it = marking_1.iter_with(&marking_2);
    while let Some((idx, v1, v2)) = it.next() {
        assert_eq!(v1, marking_1[idx]);
        assert_eq!(v2, marking_2[idx]);
    }
}

#[test]
fn test_dual_iterator_left() {
    let mut marking_1: Marking<usize> = Default::default();
    let marking_2: Marking<usize> = Default::default();
    marking_1.insert_or_max(0, 1);
    marking_1.insert_or_max(1, 1);
    marking_1.insert_or_max(2, 1);
    let mut it = marking_1.iter_with(&marking_2);
    while let Some((idx, v1, v2)) = it.next() {
        assert_eq!(v1, marking_1[idx]);
        assert_eq!(v2, marking_2[idx]);
    }
}

#[test]
fn test_dual_iterator_right() {
    let marking_1: Marking<usize> = Default::default();
    let mut marking_2: Marking<usize> = Default::default();
    marking_2.insert_or_max(0, 1);
    marking_2.insert_or_max(1, 1);
    marking_2.insert_or_max(2, 1);
    let mut it = marking_1.iter_with(&marking_2);
    while let Some((idx, v1, v2)) = it.next() {
        assert_eq!(v1, marking_1[idx]);
        assert_eq!(v2, marking_2[idx]);
    }
}

fn triples(it: &mut DualMarkingIterator<usize>) -> Vec<(usize, usize, usize)> {
    let mut all = vec![];
    while let Some(t) = it.next() {
        all.push(t);
    }
    all
}

#[test]
fn dual_iterator_merges_in_order_with_zero_for_the_missing_side() {
    let mut left: Marking<usize> = Marking::new();
    let mut right: Marking<usize> = Marking::new();
    left.insert_or_add(1, 10);
    left.insert_or_add(4, 40);
    left.insert_or_add(7, 70);
    right.insert_or_add(0, 5);
    right.insert_or_add(4, 44);
    right.insert_or_add(9, 99);
    let mut it = left.iter_with(&right);
    assert_eq!(
        triples(&mut it),
        vec![(0, 0, 5), (1, 10, 0), (4, 40, 44), (7, 70, 0), (9, 0, 99)]
    );
    assert_eq!(it.next(), None);
}

#[test]
fn dual_iterator_of_two_empty_markings_is_empty() {
    let left: Marking<usize> = Marking::new();
    let right: Marking<usize> = Marking::new();
    let mut it = left.iter_with(&right);
    assert_eq!(it.next(), None);
}

#[test]
fn entries_stay_sorted_and_gap_free() {
    let mut marking: Marking<usize> = Marking::new();
    marking.insert_or_add(9, 1);
    marking.insert_or_add(3, 2);
    marking.insert_or_add(6, 3);
    marking.insert_or_add(3, 4);
    assert_eq!(marking.len(), 3);
    assert_eq!(marking.to_vec(), vec![(3, 6), (6, 3), (9, 1)]);
    assert_eq!(marking.iter().copied().collect::<Vec<_>>(), vec![(3, 6), (6, 3), (9, 1)]);
    assert_eq!(marking.entry(1), (6, 3));
    assert!(!marking.is_empty());
}

#[test]
fn delete_and_clear() {
    let mut marking: Marking<usize> = Marking::new();
    marking.insert_or_add(1, 1);
    marking.insert_or_add(2, 2);
    marking.delete(1);
    assert_eq!(marking.to_vec(), vec![(2, 2)]);
    assert_eq!(marking[1], 0);
    assert!(!marking.contains(1));
    marking.delete(7);
    assert_eq!(marking.len(), 1);
    marking.clear();
    assert!(marking.is_empty());
    assert_eq!(marking.len(), 0);
}

#[test]
fn a_zero_entry_is_kept_and_counts_for_zero() {
    let mut marking: Marking<usize> = Marking::new();
    marking.insert_or_add(4, 0);
    assert_eq!(marking.len(), 1);
    assert!(marking.contains(4));
    assert_eq!(marking.get(4), 0);
    marking.insert_or_min(5, 3);
    marking.insert_or_min(5, 0);
    assert_eq!(marking.get(5), 0);
    assert_eq!(marking.len(), 2);
}

fn filled(pairs: &[(usize, usize)], how: u8) -> Vec<(usize, usize)> {
    let mut marking: Marking<usize> = Marking::new();
    for &(k, w) in pairs {
        match how {
            0 => marking.insert_or_add(k, w),
            1 => marking.insert_or_min(k, w),
            _ => marking.insert_or_max(k, w),
        }
    }
    marking.to_vec()
}

#[test]
fn merges_do_not_depend_on_the_order_of_insertion() {
    let pairs = [(3, 4), (1, 7), (3, 1), (2, 2), (1, 5), (3, 9)];
    let mut reversed = pairs;
    reversed.reverse();
    let rotated = [(2, 2), (1, 5), (3, 9), (3, 4), (1, 7), (3, 1)];
    assert_eq!(filled(&pairs, 0), vec![(1, 12), (2, 2), (3, 14)]);
    assert_eq!(filled(&reversed, 0), vec![(1, 12), (2, 2), (3, 14)]);
    assert_eq!(filled(&rotated, 0), vec![(1, 12), (2, 2), (3, 14)]);
    assert_eq!(filled(&pairs, 1), vec![(1, 5), (2, 2), (3, 1)]);
    assert_eq!(filled(&reversed, 1), vec![(1, 5), (2, 2), (3, 1)]);
    assert_eq!(filled(&rotated, 1), vec![(1, 5), (2, 2), (3, 1)]);
    assert_eq!(filled(&pairs, 2), vec![(1, 7), (2, 2), (3, 9)]);
    assert_eq!(filled(&reversed, 2), vec![(1, 7), (2, 2), (3, 9)]);
    assert_eq!(filled(&rotated, 2), vec![(1, 7), (2, 2), (3, 9)]);
}

#[test]
fn same_weights_compares_counts_not_entries() {
    let mut a: Marking<usize> = Marking::new();
    let mut b: Marking<usize> = Marking::new();
    a.insert_or_add(1, 2);
    a.insert_or_add(5, 0);
    b.insert_or_add(1, 2);
    assert!(a.same_weights(&b));
    b.insert_or_add(2, 1);
    assert!(!a.same_weights(&b));
}

#[test]
fn sum_adds_counts_and_refuses_overflow() {
    let mut a: Marking<usize> = Marking::new();
    let mut b: Marking<usize> = Marking::new();
    a.insert_or_add(1, 2);
    a.insert_or_add(3, 4);
    b.insert_or_add(3, 6);
    b.insert_or_add(8, 1);
    assert_eq!(a.sum(&b).unwrap().to_vec(), vec![(1, 2), (3, 10), (8, 1)]);
    b.insert_or_add(1, usize::MAX - 1);
    assert!(a.sum(&b).is_none());
}

#[test]
fn unit_entries_and_weight_checks() {
    let mut a: Marking<usize> = Marking::new();
    a.insert_or_add(1, 3);
    a.insert_or_add(2, 3);
    assert!(a.all_weights_are(3));
    assert!(!a.all_weights_are(1));
    assert_eq!(a.unit_entries(), vec![(1, 1), (2, 1)]);
    assert_eq!(a.as_slice(), &[(1, 3), (2, 3)]);
}
