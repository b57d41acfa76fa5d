use cex_v1::table::Table;

#[test]
fn table_insert_get_take() {
    let mut t: Table<i64> = Table::new();
    assert_eq!(t.len(), 0);
    t.insert("a".to_string(), 1);
    t.insert("b".to_string(), 2);
    t.insert("a".to_string(), 3);
    assert_eq!(t.len(), 2);
    assert_eq!(t.get("a"), Some(&3));
    assert!(t.contains_key("b"));
    assert!(!t.contains_key("c"));
    assert_eq!(t.take("b"), Some(2));
    assert_eq!(t.take("b"), None);
    assert_eq!(t.get("b"), None);
    assert_eq!(t.len(), 1);
}

#[test]
fn table_get_mut_changes_in_place() {
    let mut t: Table<i64> = Table::new();
    t.insert("a".to_string(), 1);
    *t.get_mut("a").unwrap() = 5;
    assert_eq!(t.get("a"), Some(&5));
    assert!(t.get_mut("z").is_none());
    assert!(!t.contains_key("z"));
    assert_eq!(t.len(), 1);
}

#[test]
fn table_get_mut_or_insert_keeps_or_adds() {
    let mut t: Table<i64> = Table::new();
    t.insert("a".to_string(), 5);
    assert_eq!(*t.get_mut_or_insert("a", 9), 5);
    assert_eq!(t.get("a"), Some(&5));
    let v = t.get_mut_or_insert("b", 7);
    assert_eq!(*v, 7);
    *v += 1;
    assert_eq!(t.get("b"), Some(&8));
    assert_eq!(t.len(), 2);
}
