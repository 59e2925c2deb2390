use ledger_storage::table::Table;

#[test]
fn empty_table() {
    let t = Table::new();
    assert_eq!(t.len(), 0);
    assert_eq!(t.get("a"), None);
    assert_eq!(t.find("a"), None);
    assert_eq!(t.lower_bound("a"), 0);
}

#[test]
fn insert_keeps_keys_in_order() {
    let mut t = Table::new();
    assert_eq!(t.insert("m".to_owned(), vec![1]), None);
    assert_eq!(t.insert("a".to_owned(), vec![2]), None);
    assert_eq!(t.insert("z".to_owned(), vec![3]), None);
    assert_eq!(t.insert("b".to_owned(), vec![4]), None);
    assert_eq!(t.len(), 4);
    assert_eq!(t.key_at(0), "a");
    assert_eq!(t.key_at(1), "b");
    assert_eq!(t.key_at(2), "m");
    assert_eq!(t.key_at(3), "z");
    assert_eq!(t.value_at(1), &vec![4]);
    assert_eq!(t.get("m"), Some(&vec![1]));
    assert_eq!(t.get("n"), None);
}

#[test]
fn insert_replaces_and_returns_previous() {
    let mut t = Table::new();
    assert_eq!(t.insert("k".to_owned(), vec![1, 2]), None);
    assert_eq!(t.insert("k".to_owned(), vec![3]), Some(vec![1, 2]));
    assert_eq!(t.len(), 1);
    assert_eq!(t.get("k"), Some(&vec![3]));
}

#[test]
fn remove_returns_value() {
    let mut t = Table::new();
    t.insert("a".to_owned(), vec![1]);
    t.insert("b".to_owned(), vec![2]);
    t.insert("c".to_owned(), vec![3]);
    assert_eq!(t.remove("b"), Some(vec![2]));
    assert_eq!(t.remove("b"), None);
    assert_eq!(t.len(), 2);
    assert_eq!(t.key_at(0), "a");
    assert_eq!(t.key_at(1), "c");
}

#[test]
fn lower_bound_positions() {
    let mut t = Table::new();
    t.insert("b".to_owned(), vec![]);
    t.insert("d".to_owned(), vec![]);
    t.insert("f".to_owned(), vec![]);
    assert_eq!(t.lower_bound("a"), 0);
    assert_eq!(t.lower_bound("b"), 0);
    assert_eq!(t.lower_bound("c"), 1);
    assert_eq!(t.lower_bound("d"), 1);
    assert_eq!(t.lower_bound("e"), 2);
    assert_eq!(t.lower_bound("f"), 2);
    assert_eq!(t.lower_bound("g"), 3);
    assert_eq!(t.find("d"), Some(1));
    assert_eq!(t.find("e"), None);
}

#[test]
fn clone_holds_the_same_entries() {
    let mut t = Table::new();
    t.insert("b".to_owned(), vec![1]);
    t.insert("a".to_owned(), vec![2]);
    let c = t.clone();
    t.remove("a");
    assert_eq!(c.len(), 2);
    assert_eq!(c.get("a"), Some(&vec![2]));
    assert_eq!(c.get("b"), Some(&vec![1]));
}

#[test]
fn many_keys_stay_sorted() {
    let mut t = Table::new();
    let mut n: u64 = 7;
    for _ in 0..200 {
        n = n.wrapping_mul(6364136223846793005).wrapping_add(1442695040888963407);
        t.insert(format!("{}", n % 1000), vec![(n % 251) as u8]);
    }
    for i in 1..t.len() {
        assert!(t.key_at(i - 1) < t.key_at(i));
    }
}
