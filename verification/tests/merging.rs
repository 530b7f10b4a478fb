use mvcc::compact::compact_seq_marked_pair;
use mvcc::io_result::into_stream;
use mvcc::util::by_key_seq;
use mvcc::util::merge_kv_results;
use mvcc::util::merge_reads;
use mvcc::util::ReadItem;
use mvcc::visibility::KeyRange;
use mvcc::GetAtSeq;
use mvcc::IOResultStream;
use mvcc::InternalSeq;
use mvcc::RangeAtSeq;
use mvcc::SeqMarked;
use mvcc::Snapshot;
use mvcc::Table;
use mvcc::View;
use std::io;
use std::ops::Bound;

fn s(text: &str) -> String {
    text.to_string()
}

fn item(key: &str, seq: u64, data: u8) -> (String, SeqMarked<Vec<u8>>) {
    (s(key), SeqMarked::new_normal(seq, vec![data]))
}

fn gone(key: &str, seq: u64) -> (String, SeqMarked<Vec<u8>>) {
    (s(key), SeqMarked::new_tombstone(seq))
}

fn failure(text: &str) -> io::Error {
    io::Error::new(io::ErrorKind::Other, s(text))
}

#[test]
fn items_are_ordered_by_key_then_age() {
    let a: ReadItem<String, Vec<u8>> = Ok(item("a", 5, 1));
    let b: ReadItem<String, Vec<u8>> = Ok(item("b", 3, 1));
    let b_new: ReadItem<String, Vec<u8>> = Ok(gone("b", 3));
    let failed: ReadItem<String, Vec<u8>> = Err(failure("broken"));
    assert!(by_key_seq(&a, &b));
    assert!(!by_key_seq(&b, &a));
    assert!(by_key_seq(&b, &b_new));
    assert!(!by_key_seq(&b_new, &b));
    assert!(by_key_seq(&b, &b));
    assert!(by_key_seq(&failed, &a));
    assert!(by_key_seq(&a, &failed));
}

#[test]
fn items_of_one_key_are_joined() {
    let joined = merge_kv_results(Ok(item("a", 5, 1)), Ok(item("a", 3, 2)));
    assert_eq!(joined.unwrap().unwrap(), item("a", 5, 1));
    let joined = merge_kv_results(Ok(item("a", 3, 1)), Ok(gone("a", 3)));
    assert_eq!(joined.unwrap().unwrap(), gone("a", 3));

    let (a, b) = merge_kv_results(Ok(item("a", 5, 1)), Ok(item("b", 3, 2))).unwrap_err();
    assert_eq!(a.unwrap(), item("a", 5, 1));
    assert_eq!(b.unwrap(), item("b", 3, 2));

    let (a, b) = merge_kv_results(Err(failure("broken")), Ok(item("b", 3, 2))).unwrap_err();
    assert_eq!(a.unwrap_err().to_string(), "broken");
    assert_eq!(b.unwrap(), item("b", 3, 2));
}

#[test]
fn merged_reads_say_the_later_of_both() {
    let base = vec![item("a", 1, 1), item("b", 2, 2), item("c", 9, 3), item("e", 4, 4)];
    let updates = vec![item("b", 5, 12), gone("c", 6), gone("d", 7), item("f", 8, 16)];
    let merged: Vec<_> = merge_reads(into_stream(base), updates)
        .into_iter()
        .map(|item| item.unwrap())
        .collect();
    assert_eq!(
        merged,
        vec![
            item("a", 1, 1),
            item("b", 5, 12),
            item("c", 9, 3),
            gone("d", 7),
            item("e", 4, 4),
            item("f", 8, 16),
        ]
    );
}

#[test]
fn merging_nothing_changes_nothing() {
    let base = vec![item("a", 1, 1), item("b", 2, 2)];
    let merged: Vec<_> = merge_reads(into_stream(base.clone()), Vec::new())
        .into_iter()
        .map(|item| item.unwrap())
        .collect();
    assert_eq!(merged, base);
    let merged: Vec<_> = merge_reads(Vec::new(), base.clone())
        .into_iter()
        .map(|item| item.unwrap())
        .collect();
    assert_eq!(merged, base);
}

#[test]
fn the_newer_level_wins_where_it_knows_the_key() {
    let newer: SeqMarked<u8> = SeqMarked::new_normal(2, 20);
    let older: SeqMarked<u8> = SeqMarked::new_normal(9, 90);
    assert_eq!(compact_seq_marked_pair(newer, older), newer);
    assert_eq!(
        compact_seq_marked_pair(SeqMarked::new_tombstone(1), older),
        SeqMarked::new_tombstone(1)
    );
    assert_eq!(compact_seq_marked_pair(SeqMarked::new_not_found(), older), older);
}

/// A reader that fails for some keys, and whose range reads fail in the middle.
#[derive(Debug)]
struct Flaky {
    range_fails: bool,
}

impl GetAtSeq<String> for Flaky {
    fn get_at_seq(&self, key: String, seq: u64) -> Result<SeqMarked<Vec<u8>>, io::Error> {
        if key.starts_with('x') {
            Err(failure("no such disk"))
        } else {
            Ok(SeqMarked::new_normal(seq, key.into_bytes()))
        }
    }
}

impl RangeAtSeq<String> for Flaky {
    fn range_at_seq(
        &self,
        _range: KeyRange<String>,
        _seq: u64,
    ) -> Result<IOResultStream<(String, SeqMarked<Vec<u8>>)>, io::Error> {
        if self.range_fails {
            return Err(failure("no range"));
        }
        Ok(vec![
            Ok(item("a", 1, 1)),
            Err(failure("first")),
            Ok(item("c", 2, 3)),
            Err(failure("second")),
        ])
    }
}

fn flaky(range_fails: bool) -> View<String, Flaky> {
    View::new(Snapshot::new(InternalSeq::new(5), Flaky { range_fails }))
}

fn all() -> KeyRange<String> {
    (Bound::Unbounded, Bound::Unbounded)
}

#[test]
fn failures_of_the_snapshot_are_handed_on() {
    let mut view = flaky(false);
    view.set(s("b"), Some(vec![2]));
    let items = view.range(all()).unwrap();
    let shown: Vec<String> = items
        .into_iter()
        .map(|item| match item {
            Ok(item) => item.0,
            Err(e) => e.to_string(),
        })
        .collect();
    assert_eq!(shown, vec!["a", "first", "b", "c", "second"]);
}

#[test]
fn failed_range_read_fails() {
    let view = flaky(true);
    assert_eq!(view.range(all()).unwrap_err().to_string(), "no range");
}

#[test]
fn failed_read_fails_unless_the_key_is_staged() {
    let mut view = flaky(false);
    assert_eq!(view.get(s("x1")).unwrap_err().to_string(), "no such disk");
    assert_eq!(
        view.get(s("k")).unwrap(),
        SeqMarked::new_normal(5, b"k".to_vec())
    );
    assert!(view.get_many(vec![s("k"), s("x1"), s("l")]).is_err());
    view.set(s("x1"), Some(vec![7]));
    assert_eq!(
        view.get_many(vec![s("k"), s("x1")]).unwrap(),
        vec![
            SeqMarked::new_normal(5, b"k".to_vec()),
            SeqMarked::new_normal(6, vec![7]),
        ]
    );
}

#[test]
fn failed_fetch_stages_nothing() {
    let mut view = flaky(false);
    assert!(view.fetch_and_set(s("x1"), Some(vec![7])).is_err());
    assert!(view
        .fetch_and_set_without_seq_increment(s("x1"), None)
        .is_err());
    assert!(view.changes.inner.is_empty());
    assert_eq!(view.last_seq, InternalSeq::new(5));
}

#[test]
fn fetch_hands_back_what_was_and_what_is() {
    let mut view = flaky(false);
    let (old, new) = view.fetch_and_set(s("k"), Some(vec![7])).unwrap();
    assert_eq!(old, SeqMarked::new_normal(5, b"k".to_vec()));
    assert_eq!(new, SeqMarked::new_normal(6, vec![7]));
    assert_eq!(view.get(s("k")).unwrap(), new);
    let (old, new) = view.fetch_and_set(s("k"), None).unwrap();
    assert_eq!(old, SeqMarked::new_normal(6, vec![7]));
    assert_eq!(new, SeqMarked::new_tombstone(6));
    assert_eq!(view.get(s("k")).unwrap(), new);
    let (old, new) = view
        .fetch_and_set_without_seq_increment(s("l"), Some(vec![8]))
        .unwrap();
    assert_eq!(old, SeqMarked::new_normal(5, b"l".to_vec()));
    assert_eq!(new, SeqMarked::new_normal(6, vec![8]));
}

#[test]
fn default_of_many_reads_stops_at_the_first_failure() {
    let reader = Flaky { range_fails: false };
    let got = reader.get_many_at_seq(vec![s("a"), s("b")], 3).unwrap();
    assert_eq!(
        got,
        vec![
            SeqMarked::new_normal(3, b"a".to_vec()),
            SeqMarked::new_normal(3, b"b".to_vec()),
        ]
    );
    let failed = reader.get_many_at_seq(vec![s("a"), s("x"), s("b")], 3);
    assert_eq!(failed.unwrap_err().to_string(), "no such disk");
}

/// A reader whose range reads agree with its reads of single keys.
#[derive(Debug)]
struct Letters;

impl GetAtSeq<String> for Letters {
    fn get_at_seq(&self, key: String, seq: u64) -> Result<SeqMarked<Vec<u8>>, io::Error> {
        let items = self.range_at_seq(all(), seq)?;
        for item in items {
            let item = item?;
            if item.0 == key {
                return Ok(item.1);
            }
        }
        Ok(SeqMarked::new_not_found())
    }
}

impl RangeAtSeq<String> for Letters {
    fn range_at_seq(
        &self,
        _range: KeyRange<String>,
        seq: u64,
    ) -> Result<IOResultStream<(String, SeqMarked<Vec<u8>>)>, io::Error> {
        Ok(into_stream(vec![item("b", 1, 1), item("d", seq, 2), gone("f", seq)]))
    }
}

#[test]
fn range_agrees_with_get_over_any_coherent_reader() {
    let mut view = View::new(Snapshot::new(InternalSeq::new(3), Letters));
    view.set(s("f"), None);
    view.set(s("a"), Some(vec![9]));
    view.set(s("d"), None);
    view.set(s("e"), Some(vec![8]));
    let items: Vec<_> = view
        .range(all())
        .unwrap()
        .into_iter()
        .map(|item| item.unwrap())
        .collect();
    assert_eq!(
        items,
        vec![
            item("a", 4, 9),
            item("b", 1, 1),
            gone("d", 4),
            item("e", 5, 8),
            gone("f", 3),
        ]
    );
    for (key, value) in items {
        assert_eq!(view.get(key).unwrap(), value);
    }
    assert!(view.get(s("c")).unwrap().is_not_found());
}

#[test]
fn items_at_one_place_come_in_the_order_of_polling() {
    let merged = |base, updates| -> Vec<_> {
        merge_reads(into_stream(base), updates)
            .into_iter()
            .map(|item| item.unwrap())
            .collect()
    };
    // the changes are polled last, come first, and what follows them is left
    assert_eq!(
        merged(vec![item("k", 5, 1)], vec![item("k", 5, 2)]),
        vec![item("k", 5, 1)]
    );
    // the read is polled last after its first item came out
    assert_eq!(
        merged(vec![item("a", 1, 0), item("k", 5, 1)], vec![item("k", 5, 2)]),
        vec![item("a", 1, 0), item("k", 5, 2)]
    );
    assert_eq!(
        merged(vec![item("k", 5, 1)], vec![item("a", 1, 0), item("k", 5, 2)]),
        vec![item("a", 1, 0), item("k", 5, 1)]
    );
}

#[test]
fn integer_keys() {
    let mut table: Table<u64, Vec<u8>> = Table::new();
    table.insert(7, 1, vec![1]).unwrap();
    let mut view = View::new(Snapshot::new(InternalSeq::new(1), table));
    view.set(8, Some(vec![2]));
    assert_eq!(view.get(7).unwrap(), SeqMarked::new_normal(1, vec![1]));
    assert_eq!(view.get(8).unwrap(), SeqMarked::new_normal(2, vec![2]));
}
