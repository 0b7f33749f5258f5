use kvs::index::Index;
use kvs::Extent;

fn extent(offset: u64, length: u64) -> Extent {
    Extent { offset, length }
}

#[test]
fn index_starts_empty() {
    let index = Index::new();
    assert_eq!(index.len(), 0);
    assert_eq!(index.get(&"a".to_string()), None);
    assert!(!index.contains_key(&"a".to_string()));
}

#[test]
fn index_insert_then_get() {
    let mut index = Index::new();
    index.insert("a".to_string(), extent(0, 30));
    index.insert("b".to_string(), extent(30, 31));
    assert_eq!(index.len(), 2);
    assert_eq!(index.get(&"a".to_string()), Some(extent(0, 30)));
    assert_eq!(index.get(&"b".to_string()), Some(extent(30, 31)));
    assert_eq!(index.get(&"c".to_string()), None);
}

#[test]
fn index_insert_overwrites() {
    let mut index = Index::new();
    index.insert("a".to_string(), extent(0, 30));
    index.insert("b".to_string(), extent(30, 31));
    index.insert("a".to_string(), extent(61, 40));
    assert_eq!(index.len(), 2);
    assert_eq!(index.get(&"a".to_string()), Some(extent(61, 40)));
    assert_eq!(index.get(&"b".to_string()), Some(extent(30, 31)));
}

#[test]
fn index_remove_erases_only_that_key() {
    let mut index = Index::new();
    index.insert("a".to_string(), extent(0, 30));
    index.insert("b".to_string(), extent(30, 31));
    assert!(index.remove(&"a".to_string()));
    assert!(!index.remove(&"a".to_string()));
    assert_eq!(index.len(), 1);
    assert_eq!(index.get(&"a".to_string()), None);
    assert_eq!(index.get(&"b".to_string()), Some(extent(30, 31)));
}

#[test]
fn index_repack_closes_the_gaps() {
    let mut index = Index::new();
    index.insert("a".to_string(), extent(0, 30));
    index.insert("b".to_string(), extent(30, 31));
    index.insert("c".to_string(), extent(100, 32));
    index.insert("a".to_string(), extent(200, 33));
    let (plan, total) = index.repack();
    assert_eq!(plan, vec![extent(30, 31), extent(100, 32), extent(200, 33)]);
    assert_eq!(total, 96);
    assert_eq!(index.get(&"b".to_string()), Some(extent(0, 31)));
    assert_eq!(index.get(&"c".to_string()), Some(extent(31, 32)));
    assert_eq!(index.get(&"a".to_string()), Some(extent(63, 33)));
    assert_eq!(index.len(), 3);
}

#[test]
fn index_repack_of_nothing_is_nothing() {
    let mut index = Index::new();
    let (plan, total) = index.repack();
    assert!(plan.is_empty());
    assert_eq!(total, 0);
}
