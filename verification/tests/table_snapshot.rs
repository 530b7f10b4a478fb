use mvcc::InternalSeq;
use mvcc::MapKey;
use mvcc::SeqMarked;
use mvcc::Snapshot;
use mvcc::Table;
use std::ops::Bound;

type TablesSnapshot<K> = Snapshot<K, Table<K, <K as MapKey>::V>>;

#[derive(Debug, Clone, PartialEq, Eq, PartialOrd, Ord)]
struct TestKey(String);

#[derive(Debug, Clone, PartialEq, Eq)]
struct TestValue(String);

impl MapKey for TestKey {
    type V = TestValue;
}

fn key(s: &str) -> TestKey {
    TestKey(s.to_string())
}

fn value(s: &str) -> TestValue {
    TestValue(s.to_string())
}

fn create_test_table() -> Table<TestKey, TestValue> {
    let mut table = Table::new();
    table.insert(key("k1"), 1, value("v1")).unwrap();
    table.insert(key("k2"), 2, value("v2")).unwrap();
    table.insert(key("k3"), 3, value("v3")).unwrap();
    table.insert_tombstone(key("k4"), 4).unwrap();

    // Add a key with both normal value and tombstone
    table.insert(key("k5"), 5, value("v5")).unwrap();
    table.insert_tombstone(key("k5"), 6).unwrap();

    // Add a key whose tombstone is newer than its normal record
    table.insert(key("k6"), 7, value("v6")).unwrap();
    table.insert_tombstone(key("k6"), 8).unwrap();
    table
}

#[test]
fn test_view_seq() {
    let view = TablesSnapshot::new(InternalSeq::new(5), create_test_table());

    assert_eq!(view.snapshot_seq(), InternalSeq::new(5));
}

#[test]
fn test_mget_existing_space() {
    let view = TablesSnapshot::new(InternalSeq::new(10), create_test_table());

    let keys = vec![
        key("k1"),
        key("k2"),
        key("k3"),
        key("k4"),
        key("k5"),
        key("k6"),
    ];
    let result = view.get_many(keys).unwrap();

    assert_eq!(result.len(), 6);
    assert_eq!(result[0], SeqMarked::new_normal(1, value("v1")));
    assert_eq!(result[1], SeqMarked::new_normal(2, value("v2")));
    assert_eq!(result[2], SeqMarked::new_normal(3, value("v3")));
    assert_eq!(result[3], SeqMarked::new_tombstone(4));
    assert_eq!(result[4], SeqMarked::new_tombstone(6)); // Latest version is tombstone
    assert_eq!(result[5], SeqMarked::new_tombstone(8)); // Latest version is tombstone
}

#[test]
fn test_mget_with_tombstone_base_seq_after_tombstone() {
    let view = TablesSnapshot::new(InternalSeq::new(6), create_test_table());

    let keys = vec![
        key("k1"),
        key("k2"),
        key("k3"),
        key("k4"),
        key("k5"),
        key("k6"),
    ];
    let result = view.get_many(keys).unwrap();

    assert_eq!(result.len(), 6);
    assert_eq!(result[0], SeqMarked::new_normal(1, value("v1")));
    assert_eq!(result[1], SeqMarked::new_normal(2, value("v2")));
    assert_eq!(result[2], SeqMarked::new_normal(3, value("v3")));
    assert_eq!(result[3], SeqMarked::new_tombstone(4));
    assert_eq!(result[4], SeqMarked::new_tombstone(6)); // Can see the tombstone
    assert!(result[5].is_not_found()); // seq 7 > base_seq 6
}

#[test]
fn test_mget_with_tombstone_base_seq_after_all_tombstones() {
    let view = TablesSnapshot::new(InternalSeq::new(8), create_test_table());

    let keys = vec![
        key("k1"),
        key("k2"),
        key("k3"),
        key("k4"),
        key("k5"),
        key("k6"),
    ];
    let result = view.get_many(keys).unwrap();

    assert_eq!(result.len(), 6);
    assert_eq!(result[0], SeqMarked::new_normal(1, value("v1")));
    assert_eq!(result[1], SeqMarked::new_normal(2, value("v2")));
    assert_eq!(result[2], SeqMarked::new_normal(3, value("v3")));
    assert_eq!(result[3], SeqMarked::new_tombstone(4));
    assert_eq!(result[4], SeqMarked::new_tombstone(6)); // Can see the tombstone
    assert_eq!(result[5], SeqMarked::new_tombstone(8)); // Can see the tombstone
}

#[test]
fn test_range_existing_space() {
    let view = TablesSnapshot::new(InternalSeq::new(10), create_test_table());

    let range = (Bound::Included(key("k1")), Bound::Included(key("k6")));
    let stream = view.range(range).unwrap();

    let mut results = Vec::new();
    for result in stream {
        results.push(result.unwrap());
    }

    assert_eq!(results.len(), 6);
    assert_eq!(
        results[0],
        (key("k1"), SeqMarked::new_normal(1, value("v1")))
    );
    assert_eq!(
        results[1],
        (key("k2"), SeqMarked::new_normal(2, value("v2")))
    );
    assert_eq!(
        results[2],
        (key("k3"), SeqMarked::new_normal(3, value("v3")))
    );
    assert_eq!(results[3], (key("k4"), SeqMarked::new_tombstone(4)));
    assert_eq!(results[4], (key("k5"), SeqMarked::new_tombstone(6))); // Latest version is tombstone
    assert_eq!(results[5], (key("k6"), SeqMarked::new_tombstone(8))); // Latest version is tombstone
}
