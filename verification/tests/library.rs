use sorted_unique_vec::align::{align, Alignment};
use sorted_unique_vec::{is_sorted_unique, LeftOrRight, SortedUniqueVec, SuvError};

fn build(values: &[u64]) -> SortedUniqueVec<u64> {
    let mut s = SortedUniqueVec::new();
    for v in values {
        s.insert(*v).unwrap();
    }
    s
}

#[test]
fn test_insert() {
    let mut s = SortedUniqueVec::new();
    s.insert(5u64).unwrap();
    s.insert(1).unwrap();
    s.insert(8).unwrap();
    s.insert(0).unwrap();
    assert!(is_sorted_unique(s.as_slice()));
    assert_eq!(&[0, 1, 5, 8][..], s.as_slice());
    assert_eq!(4, s.len());
}

#[test]
fn test_merge() {
    let mut s1 = SortedUniqueVec::new();
    s1.insert(5u64).unwrap();
    s1.insert(1).unwrap();
    s1.insert(8).unwrap();
    s1.insert(0).unwrap();
    assert!(is_sorted_unique(s1.as_slice()));

    let mut s2 = SortedUniqueVec::new();
    s2.insert(55u64).unwrap();
    s2.insert(1).unwrap();
    s2.insert(5).unwrap();
    s2.insert(7).unwrap();
    s2.insert(9).unwrap();
    assert!(is_sorted_unique(s2.as_slice()));

    let r = s1.merge(&s2, |_, _| LeftOrRight::Left);
    assert!(is_sorted_unique(r.as_slice()));
    assert_eq!(&[0, 1, 5, 7, 8, 9, 55][..], r.as_slice());
}

#[test]
fn test_push_ok() {
    let mut s = SortedUniqueVec::new();
    s.push(0u64).unwrap();
    s.push(5).unwrap();
    s.push(6).unwrap();
    assert!(is_sorted_unique(s.as_slice()));
    assert_eq!(3, s.len());
    assert_eq!(&[0, 5, 6][..], s.as_slice());
}

#[test]
fn test_align() {
    let mut s1 = SortedUniqueVec::new();
    s1.insert(0u64).unwrap();
    s1.insert(1).unwrap();
    s1.insert(5).unwrap();
    s1.insert(8).unwrap();
    assert!(is_sorted_unique(s1.as_slice()));

    let mut s2 = SortedUniqueVec::new();
    s2.insert(1u64).unwrap();
    s2.insert(5).unwrap();
    s2.insert(7).unwrap();
    s2.insert(9).unwrap();
    s2.insert(55).unwrap();
    assert!(is_sorted_unique(s2.as_slice()));

    let r = align(&s1, &s2, |alignment| match alignment {
        Alignment::Match(a, _b) => Some(a),
        Alignment::ExcessLeftHead(a)
        | Alignment::ExcessRightHead(a)
        | Alignment::ExcessLeftTail(a)
        | Alignment::ExcessRightTail(a)
        | Alignment::DisjointLeft(a)
        | Alignment::DisjointRight(a) => Some(a),
    });

    assert!(is_sorted_unique(r.as_slice()));
    assert_eq!(&[0, 1, 5, 7, 8, 9, 55][..], r.as_slice());
}

#[test]
fn align_classifies_head_tail_and_disjoint() {
    let s1 = build(&[0, 1, 5, 8]);
    let s2 = build(&[1, 5, 7, 9, 55]);

    let r = align(&s1, &s2, |alignment| match alignment {
        Alignment::ExcessLeftHead(0) => Some(0),
        Alignment::Match(1, 1) => Some(1),
        Alignment::Match(5, 5) => Some(5),
        Alignment::DisjointRight(7) => Some(7),
        Alignment::DisjointLeft(8) => Some(8),
        Alignment::ExcessRightTail(9) => Some(9),
        Alignment::ExcessRightTail(55) => Some(55),
        other => panic!("unexpected classification: {:?}", other),
    });
    assert_eq!(&[0, 1, 5, 7, 8, 9, 55][..], r.as_slice());
}

#[test]
fn align_identity_matches_merge_and_veto_empties() {
    let s1 = build(&[0, 1, 5, 8]);
    let s2 = build(&[1, 5, 7, 9, 55]);

    let merged = s1.merge(&s2, |_, _| LeftOrRight::Left);
    let aligned = align(&s1, &s2, |alignment| match alignment {
        Alignment::Match(a, _b) => Some(a),
        Alignment::ExcessLeftHead(a)
        | Alignment::ExcessRightHead(a)
        | Alignment::ExcessLeftTail(a)
        | Alignment::ExcessRightTail(a)
        | Alignment::DisjointLeft(a)
        | Alignment::DisjointRight(a) => Some(a),
    });
    assert_eq!(merged.as_slice(), aligned.as_slice());

    let vetoed = align(&s1, &s2, |_| None);
    assert_eq!(0, vetoed.len());
    let nothing: [u64; 0] = [];
    assert_eq!(&nothing[..], vetoed.as_slice());
}

#[test]
fn merge_of_identical_inputs_is_identity() {
    let a = build(&[2, 3, 11, 40]);
    let left = a.merge(&a, |_, _| LeftOrRight::Left);
    assert_eq!(a.as_slice(), left.as_slice());
    let right = a.merge(&a, |_, _| LeftOrRight::Right);
    assert_eq!(a.as_slice(), right.as_slice());
}

#[test]
fn merge_takes_union_of_keys() {
    let a = build(&[1, 3, 5]);
    let b = build(&[2, 3, 4, 6]);
    let r = a.merge(&b, |_, _| LeftOrRight::Right);
    assert_eq!(&[1, 2, 3, 4, 5, 6][..], r.as_slice());
    let empty = SortedUniqueVec::new();
    let r2 = a.merge(&empty, |_, _| LeftOrRight::Left);
    assert_eq!(a.as_slice(), r2.as_slice());
    let r3 = empty.merge(&b, |_, _| LeftOrRight::Left);
    assert_eq!(b.as_slice(), r3.as_slice());
}

#[test]
fn insert_duplicate_fails_and_keeps_contents() {
    let mut s = build(&[0, 1, 5, 8]);
    let r = s.insert(5);
    assert!(matches!(r, Err(SuvError::DuplicateKey)));
    assert_eq!(&[0, 1, 5, 8][..], s.as_slice());
    assert_eq!(4, s.len());
}

#[test]
fn push_out_of_order_fails_and_keeps_contents() {
    let mut s = SortedUniqueVec::new();
    s.push(0u64).unwrap();
    s.push(5).unwrap();
    s.push(9).unwrap();
    let r = s.push(3);
    assert!(matches!(r, Err(SuvError::OrderViolation)));
    assert_eq!(&[0, 5, 9][..], s.as_slice());
    let dup = s.push(9);
    assert!(matches!(dup, Err(SuvError::OrderViolation)));
    assert_eq!(3, s.len());
}

#[test]
fn contains_finds_exactly_the_stored_keys() {
    let s = build(&[2, 4, 9, 100]);
    assert!(s.contains(&2));
    assert!(s.contains(&9));
    assert!(s.contains(&100));
    assert!(!s.contains(&3));
    assert!(!s.contains(&0));
    assert!(!s.contains(&101));
    let empty: SortedUniqueVec<u64> = SortedUniqueVec::new();
    assert!(!empty.contains(&2));
}

#[test]
fn get_reads_by_position() {
    let s = build(&[2, 4, 9]);
    assert_eq!(Some(&2), s.get(0));
    assert_eq!(Some(&4), s.get(1));
    assert_eq!(Some(&9), s.get(2));
    assert_eq!(None, s.get(3));
}

#[test]
fn get_mut_and_slice_mut_write_by_position() {
    let mut s = build(&[2, 4, 9]);
    if let Some(x) = s.get_mut(2) {
        *x = 10;
    }
    assert_eq!(&[2, 4, 10][..], s.as_slice());
    assert!(s.get_mut(3).is_none());
    let sl = s.slice_mut();
    sl[0] = 1;
    assert_eq!(&[1, 4, 10][..], s.as_slice());
    assert!(is_sorted_unique(s.as_slice()));
}

#[test]
fn retain_keeps_order_and_matching_elements() {
    let mut s = build(&[0, 1, 5, 8]);
    s.retain(|x| x % 2 == 0);
    assert_eq!(&[0, 8][..], s.as_slice());
    let mut t = build(&[3, 7]);
    t.retain(|_| false);
    assert_eq!(0, t.len());
}

#[test]
fn index_by_and_find_by_search_with_a_probe() {
    let s = build(&[0, 1, 5, 8]);
    assert_eq!(Some(2), s.index_by(|x| x.cmp(&5)));
    assert_eq!(Some(0), s.index_by(|x| x.cmp(&0)));
    assert_eq!(Some(3), s.index_by(|x| x.cmp(&8)));
    assert_eq!(None, s.index_by(|x| x.cmp(&4)));
    assert_eq!(Some(&5), s.find_by(|x| x.cmp(&5)));
    assert_eq!(None, s.find_by(|x| x.cmp(&55)));
}

#[test]
fn constructors_start_empty() {
    let a: SortedUniqueVec<u64> = SortedUniqueVec::new();
    assert_eq!(0, a.len());
    let b: SortedUniqueVec<u64> = SortedUniqueVec::with_capacity(16);
    assert_eq!(0, b.len());
    let nothing: [u64; 0] = [];
    assert_eq!(&nothing[..], b.as_slice());
}

#[test]
fn is_sorted_unique_checks_strict_ascent() {
    let empty: [u64; 0] = [];
    assert!(is_sorted_unique(&empty));
    assert!(is_sorted_unique(&[7u64]));
    assert!(is_sorted_unique(&[1u64, 2, 3]));
    assert!(!is_sorted_unique(&[2u64, 2]));
    assert!(!is_sorted_unique(&[3u64, 1]));
    assert!(!is_sorted_unique(&[1u64, 5, 4, 9]));
}

#[test]
fn signed_elements_follow_the_same_order() {
    let mut s = SortedUniqueVec::new();
    s.insert(-5i64).unwrap();
    s.insert(3).unwrap();
    s.insert(-40).unwrap();
    assert_eq!(&[-40, -5, 3][..], s.as_slice());
    assert!(matches!(s.insert(-5), Err(SuvError::DuplicateKey)));
}
