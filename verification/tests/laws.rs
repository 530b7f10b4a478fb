use mvcc::visibility::is_valid_range;
use mvcc::visibility::KeyRange;
use mvcc::InternalSeq;
use mvcc::MapKey;
use mvcc::SeqMarked;
use mvcc::Snapshot;
use mvcc::Table;
use mvcc::View;
use std::ops::Bound;

#[derive(Debug, Clone, Copy, PartialEq, Eq, PartialOrd, Ord)]
struct Id(u64);

impl MapKey for Id {
    type V = u64;
}

fn all() -> KeyRange<Id> {
    (Bound::Unbounded, Bound::Unbounded)
}

fn normal(seq: u64, data: u64) -> SeqMarked<u64> {
    SeqMarked::new_normal(seq, data)
}

fn deleted(seq: u64) -> SeqMarked<u64> {
    SeqMarked::new_tombstone(seq)
}

fn read(table: &Table<Id, u64>, key: u64, upto: u64) -> SeqMarked<u64> {
    table.get(Id(key), upto).cloned()
}

fn scan(table: &Table<Id, u64>, range: KeyRange<Id>, upto: u64) -> Vec<(u64, SeqMarked<u64>)> {
    table
        .range(range, upto)
        .into_iter()
        .map(|(key, value)| (key.0, value.cloned()))
        .collect()
}

fn sample() -> Table<Id, u64> {
    let mut table = Table::new();
    table.insert(Id(1), 0, 10).unwrap();
    table.insert(Id(2), 1, 20).unwrap();
    table.insert_tombstone(Id(2), 3).unwrap();
    table.insert(Id(3), 3, 30).unwrap();
    table.insert_tombstone(Id(3), 3).unwrap();
    table.insert(Id(4), 5, 40).unwrap();
    table.insert(Id(4), 7, 41).unwrap();
    table
}

#[test]
fn write_is_read_by_later_readers() {
    let mut table = sample();
    table.insert(Id(2), 8, 22).unwrap();
    assert_eq!(read(&table, 2, 8), normal(8, 22));
    assert_eq!(read(&table, 2, 100), normal(8, 22));
}

#[test]
fn write_is_not_read_before() {
    let before = sample();
    let mut after = sample();
    after.insert(Id(2), 8, 22).unwrap();
    after.insert(Id(9), 9, 90).unwrap();
    for upto in 0..8 {
        for key in 0..10 {
            assert_eq!(read(&after, key, upto), read(&before, key, upto));
        }
        assert_eq!(scan(&after, all(), upto), scan(&before, all(), upto));
    }
}

#[test]
fn write_keeps_other_keys() {
    let before = sample();
    let mut after = sample();
    after.insert(Id(2), 8, 22).unwrap();
    for key in [0, 1, 3, 4, 5] {
        assert_eq!(read(&after, key, 20), read(&before, key, 20));
    }
}

#[test]
fn insert_under_the_number_of_a_deletion_stays_hidden() {
    let mut table = Table::new();
    table.insert_tombstone(Id(1), 4).unwrap();
    table.insert(Id(1), 4, 10).unwrap();
    assert_eq!(read(&table, 1, 4), deleted(4));
    assert_eq!(table.last_seq, SeqMarked::new_normal(4, ()));
    table.insert(Id(1), 5, 11).unwrap();
    assert_eq!(read(&table, 1, 5), normal(5, 11));
}

#[test]
fn delete_is_read() {
    let mut table = sample();
    table.insert_tombstone(Id(4), 7).unwrap();
    assert_eq!(read(&table, 4, 7), deleted(7));
    assert_eq!(read(&table, 4, 6), normal(5, 40));
}

#[test]
fn versions_remain() {
    let mut table = sample();
    table.insert(Id(4), 9, 42).unwrap();
    assert_eq!(
        table.inner.get(&(Id(4), SeqMarked::new_normal(5, ()))),
        Some(&Some(40))
    );
    assert_eq!(
        table.inner.get(&(Id(4), SeqMarked::new_normal(7, ()))),
        Some(&Some(41))
    );
    assert_eq!(table.inner.get(&(Id(4), SeqMarked::new_tombstone(7))), None);
}

#[test]
fn reads_are_not_too_new_and_advance() {
    let table = sample();
    for key in 0..6 {
        for upto in 0..9 {
            let seen = read(&table, key, upto);
            let later = read(&table, key, upto + 1);
            assert!(seen.seq <= upto);
            assert!(seen.is_not_found() || !seen.is_after(&later));
        }
    }
}

#[test]
fn range_agrees_with_get() {
    let table = sample();
    for upto in 0..9 {
        let items = scan(&table, all(), upto);
        for pair in items.windows(2) {
            assert!(pair[0].0 < pair[1].0);
        }
        for key in 0..6 {
            let found = items.iter().find(|item| item.0 == key);
            let seen = read(&table, key, upto);
            match found {
                Some(item) => assert_eq!(item.1, seen),
                None => assert!(seen.is_not_found()),
            }
        }
    }
}

#[test]
fn ranges_end_where_they_say() {
    let table = sample();
    let keys = |range: KeyRange<Id>| -> Vec<u64> {
        scan(&table, range, 9).into_iter().map(|item| item.0).collect()
    };
    assert_eq!(keys(all()), vec![1, 2, 3, 4]);
    assert_eq!(keys((Bound::Included(Id(2)), Bound::Included(Id(3)))), vec![2, 3]);
    assert_eq!(keys((Bound::Included(Id(2)), Bound::Excluded(Id(3)))), vec![2]);
    assert_eq!(keys((Bound::Excluded(Id(2)), Bound::Included(Id(3)))), vec![3]);
    assert_eq!(keys((Bound::Excluded(Id(1)), Bound::Excluded(Id(4)))), vec![2, 3]);
    assert_eq!(keys((Bound::Excluded(Id(1)), Bound::Unbounded)), vec![2, 3, 4]);
    assert_eq!(keys((Bound::Unbounded, Bound::Excluded(Id(2)))), vec![1]);
    assert_eq!(keys((Bound::Excluded(Id(2)), Bound::Included(Id(2)))), Vec::<u64>::new());
    assert_eq!(keys((Bound::Included(Id(2)), Bound::Excluded(Id(2)))), Vec::<u64>::new());
    assert_eq!(keys((Bound::Included(Id(5)), Bound::Unbounded)), Vec::<u64>::new());
}

#[test]
fn commit_is_read_and_not_before() {
    let before = sample();
    let mut table = sample();
    let mut changes = Table::new();
    changes.insert(Id(2), 8, 28).unwrap();
    changes.insert_tombstone(Id(4), 8).unwrap();
    changes.insert(Id(5), 9, 59).unwrap();
    table.apply(changes);

    assert_eq!(table.last_seq, SeqMarked::new_normal(9, ()));
    assert_eq!(read(&table, 1, 9), normal(0, 10));
    assert_eq!(read(&table, 2, 9), normal(8, 28));
    assert_eq!(read(&table, 3, 9), deleted(3));
    assert_eq!(read(&table, 4, 9), deleted(8));
    assert_eq!(read(&table, 5, 9), normal(9, 59));
    for upto in 0..8 {
        assert_eq!(scan(&table, all(), upto), scan(&before, all(), upto));
    }
}

#[test]
fn commit_does_not_override_later_versions() {
    let mut table = sample();
    let mut changes = Table::new();
    changes.insert(Id(4), 6, 46).unwrap();
    changes.insert(Id(4), 7, 47).unwrap();
    changes.insert(Id(3), 7, 37).unwrap();
    changes.insert(Id(2), 7, 27).unwrap();
    table.apply(changes);
    assert_eq!(read(&table, 4, 6), normal(6, 46));
    assert_eq!(read(&table, 4, 7), normal(7, 47));
    assert_eq!(read(&table, 3, 7), normal(7, 37));

    let mut older = Table::new();
    older.insert(Id(2), 2, 22).unwrap();
    older.last_seq = SeqMarked::new_normal(7, ());
    table.apply(older);
    assert_eq!(read(&table, 2, 2), normal(2, 22));
    assert_eq!(read(&table, 2, 7), normal(7, 27));
}

fn view() -> View<Id, Table<Id, u64>> {
    View::new(Snapshot::new(InternalSeq::new(7), sample()))
}

#[test]
fn staged_change_is_read() {
    let mut view = view();
    assert_eq!(view.set(Id(1), Some(11)), SeqMarked::new_normal(8, ()));
    assert_eq!(view.get(Id(1)).unwrap(), normal(8, 11));
    assert_eq!(view.set(Id(1), None), SeqMarked::new_tombstone(8));
    assert_eq!(view.get(Id(1)).unwrap(), deleted(8));
    // hidden by the deletion under the same number
    assert_eq!(
        view.set_without_seq_increment(Id(1), Some(12)),
        SeqMarked::new_normal(8, ())
    );
    assert_eq!(view.get(Id(1)).unwrap(), deleted(8));
    assert_eq!(view.set(Id(1), Some(13)), SeqMarked::new_normal(9, ()));
    assert_eq!(view.get(Id(1)).unwrap(), normal(9, 13));
}

#[test]
fn staging_keeps_other_keys() {
    let mut view = view();
    view.set(Id(1), Some(11));
    let before: Vec<_> = (0..6).map(|key| view.get(Id(key)).unwrap()).collect();
    view.set(Id(9), Some(90));
    view.set(Id(9), None);
    for key in 0..6 {
        assert_eq!(view.get(Id(key)).unwrap(), before[key as usize]);
    }
}

#[test]
fn sequence_numbers_advance() {
    let mut view = view().with_tombstone_seq_increment(true);
    assert_eq!(view.set(Id(1), Some(1)).seq, 8);
    assert_eq!(view.set(Id(1), None).seq, 9);
    assert_eq!(view.set_without_seq_increment(Id(1), Some(2)).seq, 9);
    assert_eq!(view.set_without_seq_increment(Id(1), None).seq, 9);
    assert_eq!(view.last_seq, InternalSeq::new(9));
    assert_eq!(view.set(Id(1), None).seq, 10);
    assert_eq!(view.last_seq, InternalSeq::new(10));
}

#[test]
fn deletion_without_increment_takes_the_current_number() {
    let base: Table<Id, u64> = Table::new();
    let mut view = View::new(Snapshot::new(InternalSeq::new(1), base))
        .with_tombstone_seq_increment(true);
    assert_eq!(
        view.set_without_seq_increment(Id(1), None),
        SeqMarked::new_tombstone(1)
    );
    assert_eq!(view.last_seq, InternalSeq::new(1));
    assert_eq!(view.get(Id(1)).unwrap(), deleted(1));

}

#[test]
fn fetched_deletion_takes_a_number_as_set_does() {
    let mut base: Table<Id, u64> = Table::new();
    base.insert(Id(1), 1, 10).unwrap();
    let mut view = View::new(Snapshot::new(InternalSeq::new(1), base))
        .with_tombstone_seq_increment(true);
    let (old, new) = view
        .fetch_and_set_without_seq_increment(Id(1), None)
        .unwrap();
    assert_eq!((old, new), (normal(1, 10), deleted(2)));
    assert_eq!(view.last_seq, InternalSeq::new(2));
    let (old, new) = view
        .fetch_and_set_without_seq_increment(Id(2), Some(20))
        .unwrap();
    assert_eq!((old, new), (SeqMarked::new_not_found(), normal(2, 20)));
    assert_eq!(view.last_seq, InternalSeq::new(2));

    let mut view = view.with_tombstone_seq_increment(false);
    let (old, new) = view
        .fetch_and_set_without_seq_increment(Id(2), None)
        .unwrap();
    assert_eq!((old, new), (normal(2, 20), deleted(2)));
    assert_eq!(view.last_seq, InternalSeq::new(2));

    let full = view
        .with_tombstone_seq_increment(true)
        .with_initial_seq(InternalSeq::new(u64::MAX));
    assert!(full.accepts_after(&Some(1), &deleted(2), false));
    assert!(!full.accepts_after(&Some(1), &deleted(2), true));
    assert!(!full.accepts_after(&None, &deleted(2), false));
    assert!(full.accepts_after(&None, &SeqMarked::new_not_found(), false));
}

#[test]
fn deletion_without_a_number_counts_as_nothing_staged() {
    let mut table = Table::new();
    table.insert(Id(1), 0, 10).unwrap();
    let mut view = View::new(Snapshot::new(InternalSeq::new(0), table));
    assert_eq!(view.set(Id(1), None), SeqMarked::new_tombstone(0));
    assert_eq!(view.get(Id(1)).unwrap(), normal(0, 10));
}

#[test]
fn commit_keeps_what_was_read() {
    let mut view = view();
    view.set(Id(2), Some(22));
    view.set(Id(4), None);
    view.set(Id(6), Some(66));
    view.set(Id(6), Some(67));
    view.set(Id(7), None);
    let got: Vec<_> = (0..9).map(|key| view.get(Id(key)).unwrap()).collect();

    let (mut table, last_seq, changes) = view.into_parts();
    table.apply(changes);
    for key in 0..9 {
        assert_eq!(read(&table, key, last_seq.seq), got[key as usize]);
    }
}

#[test]
fn view_range_agrees_with_get() {
    let mut view = view();
    view.set(Id(0), Some(1));
    view.set(Id(2), Some(22));
    view.set(Id(4), None);
    view.set(Id(6), Some(66));
    view.set(Id(6), Some(67));
    let items: Vec<_> = view
        .range((Bound::Included(Id(1)), Bound::Excluded(Id(9))))
        .unwrap()
        .into_iter()
        .map(|item| item.unwrap())
        .collect();
    assert_eq!(
        items,
        vec![
            (Id(1), normal(0, 10)),
            (Id(2), normal(9, 22)),
            (Id(3), deleted(3)),
            (Id(4), deleted(9)),
            (Id(6), normal(11, 67)),
        ]
    );
    for (key, value) in items {
        assert_eq!(view.get(key).unwrap(), value);
    }
}

#[test]
fn ranges_that_cannot_be_read() {
    assert!(is_valid_range(&all()));
    assert!(is_valid_range(&(Bound::Included(Id(2)), Bound::Included(Id(2)))));
    assert!(is_valid_range(&(Bound::Excluded(Id(2)), Bound::Included(Id(2)))));
    assert!(is_valid_range(&(Bound::Included(Id(2)), Bound::Excluded(Id(2)))));
    assert!(is_valid_range(&(Bound::Excluded(Id(2)), Bound::Excluded(Id(3)))));
    assert!(!is_valid_range(&(Bound::Excluded(Id(2)), Bound::Excluded(Id(2)))));
    assert!(!is_valid_range(&(Bound::Included(Id(3)), Bound::Included(Id(2)))));
    assert!(!is_valid_range(&(Bound::Excluded(Id(3)), Bound::Excluded(Id(2)))));
}

#[test]
fn changes_that_cannot_be_staged() {
    let mut view = view();
    view.set(Id(1), Some(1));
    assert!(view.accepts(&Some(2), true));
    assert!(view.accepts(&Some(2), false));
    assert!(view.accepts(&None, true));

    let full = view.with_initial_seq(InternalSeq::new(u64::MAX));
    assert!(!full.accepts(&Some(2), true));
    assert!(full.accepts(&Some(2), false));
    assert!(full.accepts(&None, true));
    let full = full.with_tombstone_seq_increment(true);
    assert!(!full.accepts(&None, true));
    assert!(full.accepts(&None, false));

    let back = full.with_initial_seq(InternalSeq::new(7));
    assert!(back.accepts(&Some(2), true));
    assert!(!back.accepts(&Some(2), false));
    let back = back.with_initial_seq(InternalSeq::new(6));
    assert!(!back.accepts(&Some(2), true));
}
