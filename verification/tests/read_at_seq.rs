use mvcc::GetAtSeq;
use mvcc::MapKey;
use mvcc::RangeAtSeq;
use mvcc::SeqMarked;
use mvcc::Table;
use std::ops::Bound;

#[derive(Debug, Clone, PartialEq, Eq, PartialOrd, Ord)]
struct TestKey(String);

impl MapKey for TestKey {
    type V = String;
}

fn key(value: &str) -> TestKey {
    TestKey(value.to_string())
}

fn value(value: &str) -> String {
    value.to_string()
}

fn table() -> Table<TestKey, String> {
    let mut table = Table::new();
    table.insert(key("a"), 1, value("a1")).unwrap();
    table.insert(key("b"), 2, value("b2")).unwrap();
    table.insert(key("a"), 3, value("a3")).unwrap();
    table.insert_tombstone(key("c"), 3).unwrap();
    table.insert(key("d"), 5, value("d5")).unwrap();
    table
}

#[test]
fn test_get_at_seq_and_get_many_at_seq() {
    let table = table();

    assert_eq!(
        table.get_at_seq(key("a"), 2).unwrap(),
        SeqMarked::new_normal(1, value("a1"))
    );
    assert_eq!(
        table.get_at_seq(key("c"), 3).unwrap(),
        SeqMarked::new_tombstone(3)
    );

    let values = table
        .get_many_at_seq(vec![key("a"), key("b"), key("c"), key("d")], 3)
        .unwrap();
    assert_eq!(values, vec![
        SeqMarked::new_normal(3, value("a3")),
        SeqMarked::new_normal(2, value("b2")),
        SeqMarked::new_tombstone(3),
        SeqMarked::new_not_found(),
    ]);
}

#[test]
fn test_range_at_seq() {
    let values = table()
        .range_at_seq((Bound::Included(key("a")), Bound::Included(key("d"))), 3)
        .unwrap()
        .into_iter()
        .collect::<Result<Vec<_>, _>>()
        .unwrap();

    assert_eq!(values, vec![
        (key("a"), SeqMarked::new_normal(3, value("a3"))),
        (key("b"), SeqMarked::new_normal(2, value("b2"))),
        (key("c"), SeqMarked::new_tombstone(3)),
    ]);
}
