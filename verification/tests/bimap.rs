use cfn_clean::bimap::BiMap;

#[test]
fn smoketest() {
    let mut x = BiMap::new();
    x.insert(123, String::from("Hello"));
    assert_eq!(x.get_by_right("Hello"), Some(123_u64).as_ref());
}

#[test]
fn insert_reads_back_both_ways() {
    let mut m = BiMap::new();
    m.insert(1, String::from("one"));
    m.insert(2, String::from("two"));
    assert_eq!(m.get_by_left(&1), Some(&String::from("one")));
    assert_eq!(m.get_by_left(&2), Some(&String::from("two")));
    assert_eq!(m.get_by_right("one"), Some(&1));
    assert_eq!(m.get_by_right("two"), Some(&2));
    assert_eq!(m.get_by_left(&3), None);
    assert_eq!(m.get_by_right("three"), None);
    assert!(m.contains_left(&1));
    assert!(!m.contains_left(&3));
    assert!(m.contains_right("two"));
    assert!(!m.contains_right("three"));
}

#[test]
fn insert_displaces_the_pair_of_its_left() {
    let mut m = BiMap::new();
    m.insert(1, String::from("a"));
    m.insert(1, String::from("b"));
    assert_eq!(m.get_by_left(&1), Some(&String::from("b")));
    assert_eq!(m.get_by_right("b"), Some(&1));
    assert_eq!(m.get_by_right("a"), None);
    assert_eq!(m.iter().len(), 1);
}

#[test]
fn insert_displaces_the_pair_of_its_right() {
    let mut m = BiMap::new();
    m.insert(1, String::from("a"));
    m.insert(2, String::from("a"));
    assert_eq!(m.get_by_right("a"), Some(&2));
    assert_eq!(m.get_by_left(&1), None);
    let pairs: Vec<(u64, String)> = m.iter().into_iter().map(|(l, r)| (*l, r.clone())).collect();
    assert_eq!(pairs, vec![(2, String::from("a"))]);
    assert_eq!(m.remove_by_left(&1), None);
    assert_eq!(m.get_by_left(&2), Some(&String::from("a")));
    assert_eq!(m.get_by_right("a"), Some(&2));
}

#[test]
fn insert_displaces_two_pairs_and_goes_last() {
    let mut m = BiMap::from_iter(vec![
        (1, String::from("a")),
        (2, String::from("b")),
        (3, String::from("c")),
    ]);
    m.insert(1, String::from("b"));
    let pairs: Vec<(u64, String)> = m.iter().into_iter().map(|(l, r)| (*l, r.clone())).collect();
    assert_eq!(pairs, vec![(3, String::from("c")), (1, String::from("b"))]);
    assert!(!m.contains_left(&2));
    assert!(!m.contains_right("a"));
}

#[test]
fn remove_by_left_removes_both_directions() {
    let mut m = BiMap::new();
    m.insert(1, String::from("a"));
    m.insert(2, String::from("b"));
    m.insert(3, String::from("c"));
    assert_eq!(m.remove_by_left(&1), Some((1, String::from("a"))));
    assert!(!m.contains_left(&1));
    assert!(!m.contains_right("a"));
    let pairs: Vec<(u64, String)> = m.iter().into_iter().map(|(l, r)| (*l, r.clone())).collect();
    // The remaining pairs keep their insertion order.
    assert_eq!(pairs, vec![(2, String::from("b")), (3, String::from("c"))]);
    assert_eq!(m.remove_by_left(&7), None);
}

#[test]
fn insert_then_remove_gives_back_the_map() {
    let mut m = BiMap::new();
    m.insert(5, String::from("five"));
    let before = m.clone();
    m.insert(6, String::from("six"));
    assert_eq!(m.remove_by_left(&6), Some((6, String::from("six"))));
    assert!(m == before);
    assert_eq!(m.get_by_right("five"), Some(&5));
    assert!(!m.contains_right("six"));
}

#[test]
fn iter_and_values_follow_insertion_order() {
    let m = BiMap::from_iter(vec![
        (10, String::from("x")),
        (20, String::from("y")),
        (30, String::from("z")),
    ]);
    let lefts: Vec<u64> = m.iter().into_iter().map(|(l, _)| *l).collect();
    assert_eq!(lefts, vec![10, 20, 30]);
    let values: Vec<String> = m.values().into_iter().cloned().collect();
    assert_eq!(values, vec![String::from("x"), String::from("y"), String::from("z")]);
}

#[test]
fn extend_prefers_the_other_map() {
    let mut a = BiMap::from_iter(vec![(1, String::from("a")), (2, String::from("b"))]);
    let b = BiMap::from_iter(vec![(2, String::from("B")), (3, String::from("c"))]);
    a.extend(b);
    assert_eq!(a.get_by_left(&1), Some(&String::from("a")));
    assert_eq!(a.get_by_left(&2), Some(&String::from("B")));
    assert_eq!(a.get_by_left(&3), Some(&String::from("c")));
    assert_eq!(a.get_by_right("B"), Some(&2));
    assert_eq!(a.get_by_right("b"), None);
    let lefts: Vec<u64> = a.iter().into_iter().map(|(l, _)| *l).collect();
    assert_eq!(lefts, vec![1, 2, 3]);
}

#[test]
fn extend_with_fresh_pairs_appends() {
    let mut a = BiMap::from_iter(vec![(1, String::from("a")), (2, String::from("b"))]);
    let b = BiMap::from_iter(vec![(4, String::from("d")), (3, String::from("c"))]);
    a.extend(b);
    let pairs: Vec<(u64, String)> = a.iter().into_iter().map(|(l, r)| (*l, r.clone())).collect();
    assert_eq!(
        pairs,
        vec![
            (1, String::from("a")),
            (2, String::from("b")),
            (4, String::from("d")),
            (3, String::from("c")),
        ]
    );
    assert_eq!(a.get_by_right("c"), Some(&3));
    assert_eq!(a.get_by_left(&4), Some(&String::from("d")));
}

#[test]
fn from_iter_behaves_like_successive_inserts() {
    let pairs = vec![
        (1, String::from("a")),
        (2, String::from("b")),
        (1, String::from("c")),
        (3, String::from("b")),
    ];
    let a = BiMap::from_iter(pairs.clone());
    let mut b = BiMap::new();
    for (l, r) in pairs {
        b.insert(l, r);
    }
    let pa: Vec<(u64, String)> = a.iter().into_iter().map(|(l, r)| (*l, r.clone())).collect();
    let pb: Vec<(u64, String)> = b.iter().into_iter().map(|(l, r)| (*l, r.clone())).collect();
    assert_eq!(pa, pb);
    assert_eq!(pa, vec![(1, String::from("c")), (3, String::from("b"))]);
    assert_eq!(a.get_by_right("b"), Some(&3));
    assert_eq!(a.get_by_left(&2), None);
}

#[test]
fn directions_stay_inverse() {
    let mut m = BiMap::from_iter(vec![(1, String::from("a")), (2, String::from("b"))]);
    m.insert(2, String::from("a"));
    m.insert(5, String::from("e"));
    for (l, r) in m.iter() {
        assert_eq!(m.get_by_right(r.as_str()), Some(l));
        assert_eq!(m.get_by_left(l), Some(r));
    }
    assert_eq!(m.iter().len(), 2);
}

#[test]
fn equality_ignores_order() {
    let a = BiMap::from_iter(vec![(1, String::from("a")), (2, String::from("b"))]);
    let b = BiMap::from_iter(vec![(2, String::from("b")), (1, String::from("a"))]);
    let c = BiMap::from_iter(vec![(1, String::from("a")), (2, String::from("c"))]);
    assert!(a == b);
    assert!(a != c);
    assert!(a.clone() == a);
}

#[test]
fn empty_maps() {
    let a = BiMap::new();
    let b = BiMap::with_capacity(16);
    let c = BiMap::default();
    assert!(a == b);
    assert!(b == c);
    assert_eq!(a.iter().len(), 0);
    assert_eq!(c.values().len(), 0);
}
