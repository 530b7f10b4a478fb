use mvcc::table::errors::InsertError;
use mvcc::versions::VersionMap;
use mvcc::InternalSeq;
use mvcc::SeqMarked;
use mvcc::Snapshot;
use mvcc::Table;
use std::io;
use std::ops::Bound;

fn normal(seq: u64) -> SeqMarked<()> {
    SeqMarked::new_normal(seq, ())
}

fn gone(seq: u64) -> SeqMarked<()> {
    SeqMarked::new_tombstone(seq)
}

#[test]
fn values_are_ordered_by_number_then_deletion() {
    let value: SeqMarked<u8> = SeqMarked::new_normal(3, 30);
    let deletion: SeqMarked<u8> = SeqMarked::new_tombstone(3);
    assert!(deletion.is_after(&value));
    assert!(!value.is_after(&deletion));
    assert!(!value.is_after(&value));
    assert!(SeqMarked::new_normal(4, 1).is_after(&deletion));
    assert_eq!(SeqMarked::max(value, deletion), deletion);
    assert_eq!(SeqMarked::max(deletion, value), deletion);
    assert_eq!(
        SeqMarked::max(value, SeqMarked::new_normal(3, 31)),
        SeqMarked::new_normal(3, 31)
    );
    assert!(gone(u64::MAX) == SeqMarked::max_value());
    assert!(!normal(0).is_after(&SeqMarked::zero()));
}

#[test]
fn parts_of_a_value() {
    let value: SeqMarked<u8> = SeqMarked::new_normal(3, 30);
    assert_eq!(value.internal_seq(), InternalSeq::new(3));
    assert_eq!(value.order_key(), normal(3));
    assert_eq!(value.into_data(), Some(30));
    assert!(!value.is_tombstone());
    let deletion: SeqMarked<u8> = SeqMarked::new_tombstone(3);
    assert_eq!(deletion.order_key(), gone(3));
    assert_eq!(deletion.into_data(), None);
    assert!(deletion.is_tombstone());
    assert!(!deletion.is_not_found());
    let absent: SeqMarked<u8> = SeqMarked::new_not_found();
    assert!(absent.is_not_found());
    assert_eq!(absent, SeqMarked::new_tombstone(0));
    assert_eq!(SeqMarked::new_normal(2, &7u8).cloned(), SeqMarked::new_normal(2, 7));
    assert_eq!(InternalSeq::default(), InternalSeq::new(0));
}

#[test]
fn version_map_keeps_versions_newest_first() {
    let mut map: VersionMap<u64, u8> = VersionMap::new();
    assert!(map.is_empty());
    assert_eq!(map.insert((2, normal(1)), Some(21)), None);
    assert_eq!(map.insert((1, normal(5)), Some(15)), None);
    assert_eq!(map.insert((1, normal(7)), Some(17)), None);
    assert_eq!(map.insert((1, gone(7)), None), None);
    assert_eq!(map.insert((1, normal(5)), Some(16)), Some(Some(15)));
    assert_eq!(map.len(), 4);
    assert_eq!(map.get(&(1, normal(5))), Some(&Some(16)));
    assert_eq!(map.get(&(1, gone(7))), Some(&None));
    assert_eq!(map.get(&(1, gone(5))), None);
    assert_eq!(map.position(&1, &normal(6)), 2);
    assert_eq!(map.at(3), &((2, normal(1)), Some(21)));
    map.extend(vec![((2, normal(1)), Some(22)), ((0, normal(9)), None)]);
    assert_eq!(
        map.into_records(),
        vec![
            ((0, normal(9)), None),
            ((1, gone(7)), None),
            ((1, normal(7)), Some(17)),
            ((1, normal(5)), Some(16)),
            ((2, normal(1)), Some(22)),
        ]
    );
}

#[test]
fn stream_is_loaded_in_any_order() {
    let table = Table::from_stream(vec![
        Ok((1u64, SeqMarked::new_normal(5, 15u8))),
        Ok((2, SeqMarked::new_tombstone(7))),
        Ok((1, SeqMarked::new_normal(3, 13))),
        Ok((2, SeqMarked::new_normal(7, 27))),
    ])
    .unwrap();
    assert_eq!(table.last_seq, gone(7));
    assert_eq!(table.get(1, 4), SeqMarked::new_normal(3, &13));
    assert_eq!(table.get(1, 5), SeqMarked::new_normal(5, &15));
    assert_eq!(table.get(2, 7), SeqMarked::new_tombstone(7));
    assert_eq!(table.inner.get(&(2, normal(7))), Some(&Some(27)));
}

#[test]
fn failing_stream_fails_with_its_first_failure() {
    let table: Result<Table<u64, u8>, io::Error> = Table::from_stream(vec![
        Ok((1, SeqMarked::new_normal(5, 15))),
        Err(io::Error::new(io::ErrorKind::Other, "first")),
        Err(io::Error::new(io::ErrorKind::Other, "second")),
    ]);
    assert_eq!(table.unwrap_err().to_string(), "first");
}

#[test]
fn smaller_numbers_are_refused() {
    let mut table: Table<u64, u8> = Table::default();
    table.insert_tombstone(1, 5).unwrap();
    assert_eq!(
        table.insert(1, 4, 14),
        Err(InsertError::NonIncremental {
            last: gone(5),
            current: normal(4),
        })
    );
    assert_eq!(
        table.insert_tombstone(2, 4),
        Err(InsertError::NonIncremental {
            last: gone(5),
            current: gone(4),
        })
    );
    assert_eq!(table.inner.len(), 1);
    assert_eq!(table.last_seq, gone(5));
    assert_eq!(table.insert(2, 5, 25), Ok(()));
    assert_eq!(table.last_seq, normal(5));
}

#[test]
fn many_reads_are_single_reads() {
    let mut table: Table<u64, u8> = Table::new();
    table.insert(1, 1, 11).unwrap();
    table.insert(2, 2, 22).unwrap();
    assert_eq!(
        table.get_many(vec![2, 1, 3, 2], 1),
        vec![
            SeqMarked::new_not_found(),
            SeqMarked::new_normal(1, &11),
            SeqMarked::new_not_found(),
            SeqMarked::new_not_found(),
        ]
    );
}

#[test]
fn snapshot_of_a_default_reader() {
    let snapshot: Snapshot<String, Vec<u8>> = Snapshot::default();
    assert_eq!(snapshot.snapshot_seq(), InternalSeq::new(0));
    assert_eq!(snapshot.data(), &Vec::<u8>::new());
    let snapshot: Snapshot<String, Vec<u8>> = Snapshot::new(InternalSeq::new(4), vec![1]);
    let twin = snapshot.clone();
    assert_eq!(twin.snapshot_seq(), InternalSeq::new(4));
    assert_eq!(twin.into_data(), vec![1]);
}

#[test]
fn records_without_a_value_are_not_readable() {
    let mut table: Table<u64, u8> = Table::new();
    table.insert(1, 1, 11).unwrap();
    table.inner.insert((1, normal(2)), None);
    table.insert(1, 3, 13).unwrap();
    table.insert_tombstone(2, 4).unwrap();
    assert!(table.is_readable(&1, 1));
    assert!(!table.is_readable(&1, 2));
    assert!(table.is_readable(&1, 3));
    assert!(table.is_readable(&2, 4));
    assert!(table.is_readable(&3, 4));

    let all = (Bound::Unbounded, Bound::Unbounded);
    assert!(table.is_range_readable(&all, 1));
    assert!(!table.is_range_readable(&all, 2));
    assert!(table.is_range_readable(&all, 3));
    assert!(table.is_range_readable(&(Bound::Excluded(1), Bound::Unbounded), 2));
    assert!(!table.is_range_readable(&(Bound::Included(1), Bound::Excluded(2)), 2));
    assert!(table.is_range_readable(&(Bound::Unbounded, Bound::Excluded(1)), 2));
}
