use mvcc::table::errors::InsertError;
use mvcc::visibility::KeyRange;
use mvcc::SeqMarked;
use mvcc::Table;
use std::io;
use std::ops::Bound;
use std::ops::RangeBounds;

#[test]
fn test_get_empty_table() {
    let table: Table<String, String> = Table::new();
    let result = table.get(s("k"), 1);
    assert!(result.is_not_found());
}

#[test]
fn test_apply() {
    let mut table = Table::new();
    table.insert(s("k1"), 1, s("v1")).unwrap();
    table.insert(s("k1"), 2, s("v1-2")).unwrap();
    table.insert_tombstone(s("k1"), 3).unwrap();
    table.last_seq = SeqMarked::new_normal(1, ());

    assert_eq!(table.inner.get(&(s("k1"), rs_tomb(3))), Some(&None));

    let mut other = Table::new();
    other.insert(s("k1"), 4, s("v1-4")).unwrap();
    other.last_seq = SeqMarked::new_normal(2, ());

    table.apply(other);

    assert_eq!(table.last_seq, SeqMarked::new_normal(2, ()));
    assert_eq!(table.inner.get(&(s("k1"), rs(4))), Some(&Some(s("v1-4"))));
    assert_eq!(table.inner.get(&(s("k1"), rs_tomb(3))), Some(&None));
}

#[test]
fn test_get_single_value() {
    let mut table = Table::new();
    table.inner.insert(k("k", 1), Some(s("v")));

    let result = table.get(s("k"), 1);
    assert_eq!(result, SeqMarked::new_normal(1, &s("v")));
}

#[test]
fn test_get_with_different_sequence_numbers() {
    let mut table = Table::new();
    table.inner.insert(k("k", 5), Some(s("v")));

    // Should find value when upto >= sequence
    let result = table.get(s("k"), 5);
    assert_eq!(result, SeqMarked::new_normal(5, &s("v")));

    // Should find value when upto > sequence
    let result = table.get(s("k"), 10);
    assert_eq!(result, SeqMarked::new_normal(5, &s("v")));

    // Should not find value when upto < sequence
    let result = table.get(s("k"), 3);
    assert!(result.is_not_found());
}

#[test]
fn test_get_multiple_versions() {
    let mut table = Table::new();
    table.inner.insert(k("k", 1), Some(s("v1")));
    table.inner.insert(k("k", 3), Some(s("v3")));
    table.inner.insert(k("k", 5), Some(s("v5")));

    // Should get most recent version ≤ upto (seq 3 when asking for seq 4)
    let result = table.get(s("k"), 4);
    assert_eq!(result, SeqMarked::new_normal(3, &s("v3")));

    // Should get most recent version ≤ upto (seq 5 when asking for seq 5)
    let result = table.get(s("k"), 5);
    assert_eq!(result, SeqMarked::new_normal(5, &s("v5")));
}

#[test]
fn test_get_different_keys() {
    let mut table = Table::new();

    table.inner.insert(k("k1", 1), Some(s("v1")));
    table.inner.insert(k("k2", 3), Some(s("v2-3")));
    table.inner.insert(k("k2", 2), Some(s("v2")));
    table.inner.insert(k("k3", 3), Some(s("v3")));

    let res = table.get(s("k1"), 1);
    assert_eq!(res, SeqMarked::new_normal(1, &s("v1")));

    let res = table.get(s("k2"), 3);
    assert_eq!(res, SeqMarked::new_normal(3, &s("v2-3")));

    let res = table.get(s("k2"), 2);
    assert_eq!(res, SeqMarked::new_normal(2, &s("v2")));

    let res = table.get(s("k2"), 1);
    assert!(res.is_not_found());

    let res = table.get(s("k3"), 2);
    assert!(res.is_not_found());
}

#[test]
fn test_tombstone_records() {
    let mut table = Table::new();

    table.inner.insert(k("k1", 1), Some(s("v1")));
    table.inner.insert(k_tomb("k2", 4), None);
    table.inner.insert(k("k2", 3), Some(s("v2-3")));
    table.inner.insert(k("k2", 2), Some(s("v2")));
    table.inner.insert(k("k3", 3), Some(s("v3")));

    // 5

    let res = table.get(s("k2"), 5);
    assert_eq!(res, SeqMarked::new_tombstone(4));

    // 4

    let res = table.get(s("k2"), 4);
    assert_eq!(res, SeqMarked::new_tombstone(4));

    // 3

    let res = table.get(s("k2"), 3);
    assert_eq!(res, SeqMarked::new_normal(3, &s("v2-3")));

    // 2

    let res = table.get(s("k2"), 2);
    assert_eq!(res, SeqMarked::new_normal(2, &s("v2")));

    // 1

    let res = table.get(s("k2"), 1);
    assert_eq!(res, SeqMarked::new_not_found());
}

#[test]
fn test_get_with_tombstone_sequence() {
    let mut table = Table::new();
    table.inner.insert(k("k", 1), Some(s("v")));

    let result = table.get(s("k"), 2);
    assert_eq!(result, SeqMarked::new_normal(1, &s("v")));
}

#[test]
fn test_get_with_different_value_types() {
    // Test with String values
    let mut table_string: Table<String, String> = Table::new();
    table_string.inner.insert(k("k", 1), Some(s("v")));
    let result = table_string.get(s("k"), 1);
    assert_eq!(result, SeqMarked::new_normal(1, &s("v")));

    // Test with Vec<u8> values
    let mut table_vec: Table<String, Vec<u8>> = Table::new();
    table_vec.inner.insert(k("k", 1), Some(b"v".to_vec()));
    let result = table_vec.get(s("k"), 1);
    assert_eq!(result, SeqMarked::new_normal(1, &b"v".to_vec()));
}

#[test]
fn test_mget() {
    let mut table = Table::new();
    table.inner.insert(k("k1", 1), Some(s("v1")));

    table.inner.insert(k("k2", 3), Some(s("v2-3")));
    table.inner.insert(k_tomb("k2", 2), None);
    table.inner.insert(k("k2", 2), Some(s("v2")));

    table.inner.insert(k("k3", 3), Some(s("v3-3")));
    table.inner.insert(k("k3", 2), Some(s("v3-2")));

    table.inner.insert(k_tomb("k4", 5), None);
    table.inner.insert(k("k4", 4), Some(s("v4")));

    table.inner.insert(k("k5", 4), Some(s("v5")));

    let res = table.get_many(vec![s("k2"), s("k3")], 2);
    let res = res.into_iter().map(|x| x.cloned()).collect::<Vec<_>>();
    assert_eq!(res, vec![
        //
        sm_tomb(2),
        sm(2, "v3-2"),
    ]);
}

#[test]
fn test_range_full_upto() {
    let mut table = Table::new();
    table.inner.insert(k("k1", 1), Some(s("v1")));

    table.inner.insert(k("k2", 3), Some(s("v2-3")));
    table.inner.insert(k_tomb("k2", 2), None);
    table.inner.insert(k("k2", 2), Some(s("v2")));

    table.inner.insert(k("k3", 3), Some(s("v3-3")));
    table.inner.insert(k("k3", 2), Some(s("v3-2")));

    table.inner.insert(k_tomb("k4", 5), None);
    table.inner.insert(k("k4", 4), Some(s("v4")));

    table.inner.insert(k("k5", 4), Some(s("v5")));

    // 0

    let res = collect(table.range(bounds(..), 0));
    assert!(res.is_empty());

    // 1

    let res = collect(table.range(bounds(..), 1));
    assert_eq!(res, vec![(s("k1"), sm(1, "v1")),]);

    // 2

    let res = collect(table.range(bounds(..), 2));
    assert_eq!(res, vec![
        (s("k1"), sm(1, "v1")),
        (s("k2"), sm_tomb(2)),
        (s("k3"), sm(2, "v3-2")),
    ]);

    // 3

    let res = collect(table.range(bounds(..), 3));
    assert_eq!(res, vec![
        (s("k1"), sm(1, "v1")),
        (s("k2"), sm(3, "v2-3")),
        (s("k3"), sm(3, "v3-3")),
    ]);

    // 4

    let res = collect(table.range(bounds(..), 4));
    assert_eq!(res, vec![
        (s("k1"), sm(1, "v1")),
        (s("k2"), sm(3, "v2-3")),
        (s("k3"), sm(3, "v3-3")),
        (s("k4"), sm(4, "v4")),
        (s("k5"), sm(4, "v5")),
    ]);

    // 5

    let res = collect(table.range(bounds(..), 5));
    assert_eq!(res, vec![
        (s("k1"), sm(1, "v1")),
        (s("k2"), sm(3, "v2-3")),
        (s("k3"), sm(3, "v3-3")),
        (s("k4"), sm_tomb(5)),
        (s("k5"), sm(4, "v5")),
    ]);
}

#[test]
fn mod_test_range_empty_result() {
    let mut table = Table::new();
    table.inner.insert(k_tomb("k1", 1), None);
    table.inner.insert(k("k2", 3), Some(s("v2")));
    table.inner.insert(k("k3", 3), Some(s("v3")));

    // open left bound
    let res = collect(table.range(bounds(s("k2")..s("k2")), 10));
    assert_eq!(res, vec![]);
}

#[test]
fn test_range_left_bound_tombstone() {
    let mut table = Table::new();
    table.inner.insert(k_tomb("k1", 1), None);
    table.inner.insert(k("k2", 3), Some(s("v2")));
    table.inner.insert(k("k3", 3), Some(s("v3")));

    // open left bound
    let res = collect(table.range(bounds(s("k1")..), 10));
    assert_eq!(res, vec![
        //
        (s("k1"), sm_tomb(1)),
        (s("k2"), sm(3, "v2")),
        (s("k3"), sm(3, "v3"))
    ]);

    // close left bound
    let res = collect(table.range(bounds((Bound::Excluded(s("k1")), Bound::Unbounded)), 10));
    assert_eq!(res, vec![
        //
        (s("k2"), sm(3, "v2")),
        (s("k3"), sm(3, "v3"))
    ]);
}

#[test]
fn test_range_left_bound_normal() {
    let mut table = Table::new();
    table.inner.insert(k("k1", 1), Some(s("v1")));
    table.inner.insert(k("k2", 3), Some(s("v2")));
    table.inner.insert(k("k3", 3), Some(s("v3")));

    // open left bound
    let res = collect(table.range(bounds(s("k1")..), 10));
    assert_eq!(res, vec![
        //
        (s("k1"), sm(1, "v1")),
        (s("k2"), sm(3, "v2")),
        (s("k3"), sm(3, "v3"))
    ]);

    // close left bound
    let res = collect(table.range(bounds((Bound::Excluded(s("k1")), Bound::Unbounded)), 10));
    assert_eq!(res, vec![
        //
        (s("k2"), sm(3, "v2")),
        (s("k3"), sm(3, "v3"))
    ]);
}

#[test]
fn test_range_right_bound_tombstone() {
    let mut table = Table::new();
    table.inner.insert(k("k1", 1), Some(s("v1")));
    table.inner.insert(k("k2", 3), Some(s("v2-3")));
    table.inner.insert(k_tomb("k3", 3), None);

    // open right bound
    let res = collect(table.range(bounds(..s("k3")), 10));
    assert_eq!(res, vec![
        //
        (s("k1"), sm(1, "v1")),
        (s("k2"), sm(3, "v2-3")),
    ]);

    // close right bound
    let res = collect(table.range(bounds(..=s("k3")), 10));
    assert_eq!(res, vec![
        //
        (s("k1"), sm(1, "v1")),
        (s("k2"), sm(3, "v2-3")),
        (s("k3"), sm_tomb(3)),
    ]);
}

#[test]
fn test_range_right_bound_normal() {
    let mut table = Table::new();
    table.inner.insert(k("k1", 1), Some(s("v1")));
    table.inner.insert(k("k2", 3), Some(s("v2")));
    table.inner.insert(k("k3", 3), Some(s("v3")));

    // open right bound
    let res = collect(table.range(bounds(..s("k3")), 10));
    assert_eq!(res, vec![
        //
        (s("k1"), sm(1, "v1")),
        (s("k2"), sm(3, "v2")),
    ]);

    // close right bound
    let res = collect(table.range(bounds(..=s("k3")), 10));
    assert_eq!(res, vec![
        //
        (s("k1"), sm(1, "v1")),
        (s("k2"), sm(3, "v2")),
        (s("k3"), sm(3, "v3")),
    ]);
}

#[test]
fn test_ranges() {
    let mut table = Table::new();
    table.inner.insert(k("k1", 1), Some(s("v1")));

    table.inner.insert(k("k2", 3), Some(s("v2-3")));
    table.inner.insert(k_tomb("k2", 2), None);
    table.inner.insert(k("k2", 2), Some(s("v2")));

    table.inner.insert(k("k3", 3), Some(s("v3-3")));
    table.inner.insert(k("k3", 2), Some(s("v3-2")));

    table.inner.insert(k_tomb("k4", 5), None);
    table.inner.insert(k("k4", 4), Some(s("v4")));

    table.inner.insert(k("k5", 4), Some(s("v5")));

    let res = collect(table.range(bounds(s("k2")..s("k4")), 2));
    assert_eq!(res, vec![
        //
        (s("k2"), sm_tomb(2)),
        (s("k3"), sm(2, "v3-2")),
    ]);

    let res = collect(table.range(bounds(s("k2")..=s("k4")), 4));
    assert_eq!(res, vec![
        //
        (s("k2"), sm(3, "v2-3")),
        (s("k3"), sm(3, "v3-3")),
        (s("k4"), sm(4, "v4")),
    ]);

    let res = collect(table.range(bounds(s("k2")..=s("k4")), 5));
    assert_eq!(res, vec![
        //
        (s("k2"), sm(3, "v2-3")),
        (s("k3"), sm(3, "v3-3")),
        (s("k4"), sm_tomb(5)),
    ]);
}

#[test]
fn test_insert() {
    let mut table = Table::new();
    assert_eq!(table.last_seq, SeqMarked::zero());

    table.insert(s("k1"), 1, s("v1")).unwrap();
    assert_eq!(table.last_seq, ordkey(1));
    let result = table.get(s("k1"), 1);
    assert_eq!(result.cloned(), sm(1, "v1"));

    table.insert_tombstone(s("k1"), 1).unwrap();
    assert_eq!(table.last_seq, ordkey_tomb(1));
    let result = table.get(s("k1"), 1);
    assert_eq!(result.cloned(), sm_tomb(1));

    let res = table.insert(s("k2"), 0, s("v2"));
    assert_eq!(
        res,
        Err(InsertError::NonIncremental {
            last: ordkey_tomb(1),
            current: ordkey(0),
        })
    );

    let res = table.insert(s("k2"), 2, s("v2"));
    assert_eq!(res, Ok(()));
}

#[test]
fn test_insert_tombstone() {
    let mut table = Table::new();
    assert_eq!(table.last_seq, SeqMarked::zero());

    table.insert_tombstone(s("k1"), 2).unwrap();
    assert_eq!(table.last_seq, ordkey_tomb(2));

    let result = table.get(s("k1"), 2);
    assert_eq!(result.cloned(), sm_tomb(2));

    let result = table.get(s("k1"), 1);
    assert!(result.is_not_found());
}

#[test]
fn test_insert_and_tombstone_mixed() {
    let mut table = Table::new();

    table.insert(s("k"), 1, s("v1")).unwrap();
    table.insert_tombstone(s("k"), 3).unwrap();
    table.insert(s("k"), 5, s("v5")).unwrap();

    // At seq 2: should get v1
    let result = table.get(s("k"), 2);
    assert_eq!(result.cloned(), sm(1, "v1"));

    // At seq 4: should get tombstone at seq 3
    let result = table.get(s("k"), 4);
    assert_eq!(result.cloned(), sm_tomb(3));

    // At seq 5: should get v5
    let result = table.get(s("k"), 5);
    assert_eq!(result.cloned(), sm(5, "v5"));
}

#[test]
fn test_apply_changes_basic() {
    let mut table: Table<String, String> = Table::new();
    table.last_seq = SeqMarked::new_normal(5, ());

    let changes = vec![
        ((s("k1"), rs(7)), Some(s("v1"))),
        ((s("k2"), rs(8)), Some(s("v2"))),
    ];

    table.apply_changes(SeqMarked::new_normal(10, ()), changes);

    assert_eq!(table.last_seq, SeqMarked::new_normal(10, ()));
    assert_eq!(table.inner.get(&(s("k1"), rs(7))), Some(&Some(s("v1"))));
    assert_eq!(table.inner.get(&(s("k2"), rs(8))), Some(&Some(s("v2"))));
}

#[test]
fn test_apply_changes_with_tombstones() {
    let mut table: Table<String, String> = Table::new();
    table.last_seq = SeqMarked::new_normal(3, ());

    let changes = vec![
        ((s("k1"), rs(5)), Some(s("v1"))),
        ((s("k2"), rs_tomb(6)), None), // Tombstone
    ];

    table.apply_changes(SeqMarked::new_normal(7, ()), changes);

    assert_eq!(table.last_seq, SeqMarked::new_normal(7, ()));
    assert_eq!(table.inner.get(&(s("k1"), rs(5))), Some(&Some(s("v1"))));
    assert_eq!(table.inner.get(&(s("k2"), rs_tomb(6))), Some(&None));
}

#[test]
fn test_apply_changes_empty() {
    let mut table: Table<String, String> = Table::new();
    table.last_seq = SeqMarked::new_normal(2, ());

    table.apply_changes(SeqMarked::new_normal(5, ()), vec![]);

    assert_eq!(table.last_seq, SeqMarked::new_normal(5, ()));
    assert!(table.inner.is_empty());
}

#[test]
fn test_apply_changes_same_seq() {
    let mut table: Table<String, String> = Table::new();
    table.last_seq = SeqMarked::new_normal(4, ());

    let changes = vec![((s("k1"), rs(4)), Some(s("v1")))];

    table.apply_changes(SeqMarked::new_normal(4, ()), changes);

    assert_eq!(table.last_seq, SeqMarked::new_normal(4, ()));
    assert_eq!(table.inner.get(&(s("k1"), rs(4))), Some(&Some(s("v1"))));
}

#[test]
fn test_apply_changes_extends_existing() {
    let mut table: Table<String, String> = Table::new();
    table.insert(s("existing"), 1, s("old_value")).unwrap();
    table.last_seq = SeqMarked::new_normal(1, ());

    let changes = vec![
        ((s("new_key"), rs(2)), Some(s("new_value"))),
        ((s("another"), rs_tomb(3)), None), // Tombstone
    ];

    table.apply_changes(SeqMarked::new_normal(3, ()), changes);

    assert_eq!(table.last_seq, SeqMarked::new_normal(3, ()));
    // Existing key should still be there
    assert_eq!(
        table.inner.get(&(s("existing"), rs(1))),
        Some(&Some(s("old_value")))
    );
    // New keys should be added
    assert_eq!(
        table.inner.get(&(s("new_key"), rs(2))),
        Some(&Some(s("new_value")))
    );
    assert_eq!(table.inner.get(&(s("another"), rs_tomb(3))), Some(&None));
}

#[test]
fn test_from_stream_basic() {
    let items = vec![
        Ok((s("k1"), SeqMarked::new_normal(1, s("v1")))),
        Ok((s("k2"), SeqMarked::new_normal(3, s("v2")))),
        Ok((s("k3"), SeqMarked::new_normal(2, s("v3")))),
    ];
    let stream = items;

    let table = Table::<String, String>::from_stream(stream).unwrap();

    assert_eq!(table.last_seq, SeqMarked::new_normal(3, ()));
    assert_eq!(table.inner.get(&(s("k1"), rs(1))), Some(&Some(s("v1"))));
    assert_eq!(table.inner.get(&(s("k2"), rs(3))), Some(&Some(s("v2"))));
    assert_eq!(table.inner.get(&(s("k3"), rs(2))), Some(&Some(s("v3"))));
}

#[test]
fn test_from_stream_with_tombstones() {
    let items = vec![
        Ok((s("k1"), SeqMarked::new_normal(1, s("v1")))),
        Ok((s("k2"), SeqMarked::new_tombstone(2))),
        Ok((s("k3"), SeqMarked::new_normal(3, s("v3")))),
    ];
    let stream = items;

    let table = Table::<String, String>::from_stream(stream).unwrap();

    assert_eq!(table.last_seq, SeqMarked::new_normal(3, ()));
    assert_eq!(table.inner.get(&(s("k1"), rs(1))), Some(&Some(s("v1"))));
    assert_eq!(table.inner.get(&(s("k2"), rs_tomb(2))), Some(&None));
    assert_eq!(table.inner.get(&(s("k3"), rs(3))), Some(&Some(s("v3"))));
}

#[test]
fn test_from_stream_empty() {
    let items: Vec<Result<(String, SeqMarked<String>), std::io::Error>> = vec![];
    let stream = items;

    let table = Table::<String, String>::from_stream(stream).unwrap();

    assert_eq!(table.last_seq, SeqMarked::zero());
    assert!(table.inner.is_empty());
}

#[test]
fn test_from_stream_error() {
    let items = vec![
        Ok((s("k1"), SeqMarked::new_normal(1, s("v1")))),
        Err(io::Error::new(io::ErrorKind::Other, "test error")),
    ];
    let stream = items;

    let result = Table::<String, String>::from_stream(stream);
    assert!(result.is_err());
}

#[test]
fn test_from_stream_sequence_ordering() {
    let items = vec![
        Ok((s("k1"), SeqMarked::new_normal(5, s("v1")))),
        Ok((s("k2"), SeqMarked::new_normal(2, s("v2")))),
        Ok((s("k3"), SeqMarked::new_normal(8, s("v3")))),
        Ok((s("k4"), SeqMarked::new_normal(3, s("v4")))),
    ];
    let stream = items;

    let table = Table::<String, String>::from_stream(stream).unwrap();

    // Last seq should be the highest sequence seen (8)
    assert_eq!(table.last_seq, SeqMarked::new_normal(8, ()));
    assert_eq!(table.inner.len(), 4);
    assert_eq!(table.inner.get(&(s("k3"), rs(8))), Some(&Some(s("v3"))));
}

#[test]
fn test_from_stream_duplicate_keys() {
    let items = vec![
        Ok((s("k1"), SeqMarked::new_normal(1, s("v1_old")))),
        Ok((s("k1"), SeqMarked::new_normal(3, s("v1_new")))),
        Ok((s("k1"), SeqMarked::new_tombstone(2))),
    ];
    let stream = items;

    let table = Table::<String, String>::from_stream(stream).unwrap();

    assert_eq!(table.last_seq, SeqMarked::new_normal(3, ()));
    // All versions should be stored with different sequence keys
    assert_eq!(table.inner.get(&(s("k1"), rs(1))), Some(&Some(s("v1_old"))));
    assert_eq!(table.inner.get(&(s("k1"), rs(3))), Some(&Some(s("v1_new"))));
    assert_eq!(table.inner.get(&(s("k1"), rs_tomb(2))), Some(&None));
    assert_eq!(table.inner.len(), 3);
}

fn bounds(range: impl RangeBounds<String>) -> KeyRange<String> {
    (range.start_bound().cloned(), range.end_bound().cloned())
}

fn collect(items: Vec<(&String, SeqMarked<&String>)>) -> Vec<(String, SeqMarked<String>)> {
    items.into_iter().map(|(k, v)| (k.clone(), v.cloned())).collect::<Vec<_>>()
}

fn k(s: impl ToString, seq: u64) -> (String, SeqMarked<()>) {
    (s.to_string(), rs(seq))
}

fn k_tomb(s: impl ToString, seq: u64) -> (String, SeqMarked<()>) {
    (s.to_string(), rs_tomb(seq))
}

fn sm(seq: u64, v: impl ToString) -> SeqMarked<String> {
    SeqMarked::new_normal(seq, v.to_string())
}

fn sm_tomb(seq: u64) -> SeqMarked<String> {
    SeqMarked::new_tombstone(seq)
}

fn ordkey(seq: u64) -> SeqMarked<()> {
    SeqMarked::new_normal(seq, ())
}

fn ordkey_tomb(seq: u64) -> SeqMarked<()> {
    SeqMarked::new_tombstone(seq)
}

fn s(x: impl ToString) -> String {
    x.to_string()
}

fn rs(seq: u64) -> SeqMarked<()> {
    SeqMarked::new_normal(seq, ())
}

fn rs_tomb(seq: u64) -> SeqMarked<()> {
    SeqMarked::new_tombstone(seq)
}
