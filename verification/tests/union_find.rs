use cfn_clean::union_find::{UnionError, UnionFind};

fn names(items: &[&str]) -> Vec<String> {
    items.iter().map(|s| s.to_string()).collect()
}

#[test]
fn union_find() -> Result<(), UnionError> {
    let mut uf = UnionFind::from_iter(names(&["A", "B", "C", "D", "E", "F", "G", "H"]));
    uf.union("A", "B")?;
    uf.union("C", "D")?;
    uf.union("A", "C")?;

    assert_eq!(uf.find("A"), Some("D".to_string()));
    assert_eq!(uf.find("E"), Some("E".to_string()));

    Ok(())
}

#[test]
fn element_not_found() -> Result<(), UnionError> {
    let mut uf = UnionFind::from_iter(names(&["A", "B", "C", "D", "E", "F", "G", "H"]));
    assert_eq!(uf.find("Z"), None);

    Ok(())
}

#[test]
fn union_with_unknown_name_is_an_error() {
    let mut uf = UnionFind::from_iter(names(&["A", "B"]));
    assert_eq!(uf.union("A", "Z"), Err(UnionError::ElementNotFound));
    assert_eq!(uf.union("Z", "A"), Err(UnionError::ElementNotFound));
    assert_eq!(uf.find("A"), Some("A".to_string()));
    assert_eq!(uf.find("B"), Some("B".to_string()));
}

#[test]
fn union_joins_and_second_name_represents() {
    let mut uf = UnionFind::from_iter(names(&["A", "B", "C"]));
    assert_eq!(uf.union("A", "B"), Ok(()));
    assert_eq!(uf.find("A"), uf.find("B"));
    assert_eq!(uf.find("A"), Some("B".to_string()));
    assert_eq!(uf.find("C"), Some("C".to_string()));
}

#[test]
fn union_within_one_set_changes_nothing() {
    let mut uf = UnionFind::from_iter(names(&["A", "B"]));
    uf.union("A", "B").unwrap();
    uf.union("B", "A").unwrap();
    assert_eq!(uf.find("A"), Some("B".to_string()));
    assert_eq!(uf.find("B"), Some("B".to_string()));
}

#[test]
fn representative_is_its_own_representative() {
    let mut uf = UnionFind::from_iter(names(&["A", "B", "C", "D"]));
    uf.union("A", "B").unwrap();
    uf.union("B", "C").unwrap();
    let rep = uf.find("A").unwrap();
    assert_eq!(uf.find(&rep), Some(rep.clone()));
}

#[test]
fn find_after_long_chain_is_stable() {
    let items: Vec<String> = (0..50).map(|i| format!("p{}", i)).collect();
    let mut uf = UnionFind::from_iter(items.clone());
    for i in 0..49 {
        uf.union(&items[i], &items[i + 1]).unwrap();
    }
    for _ in 0..3 {
        for item in &items {
            assert_eq!(uf.find(item), Some("p49".to_string()));
        }
    }
    assert_eq!(uf.find_index("p0"), uf.find_index("p25"));
}

#[test]
fn repeated_names_keep_one_set() {
    let mut uf = UnionFind::from_iter(names(&["A", "B", "A"]));
    assert_eq!(uf.find("A"), Some("A".to_string()));
    uf.union("A", "B").unwrap();
    assert_eq!(uf.find("A"), Some("B".to_string()));
    assert_eq!(uf.find_index("A"), uf.find_index("B"));
}

#[test]
fn other_sets_stay_apart() {
    let mut uf = UnionFind::from_iter(names(&["A", "B", "C", "D"]));
    uf.union("A", "B").unwrap();
    uf.union("C", "D").unwrap();
    assert_ne!(uf.find("A"), uf.find("C"));
    assert_ne!(uf.find_index("B"), uf.find_index("D"));
    assert_eq!(uf.find_index("Z"), None);
}

#[test]
fn union_order_gives_the_same_partition() {
    let all = ["A", "B", "C", "D"];
    let mut one = UnionFind::from_iter(names(&all));
    let mut two = UnionFind::from_iter(names(&all));
    one.union("C", "D").unwrap();
    two.union("C", "D").unwrap();
    one.union("A", "C").unwrap();
    two.union("C", "A").unwrap();
    for x in all {
        for y in all {
            assert_eq!(one.find(x) == one.find(y), two.find(x) == two.find(y));
        }
    }
    assert_eq!(one.find("A"), Some("D".to_string()));
    assert_eq!(two.find("A"), Some("A".to_string()));
}
