use mvcc::visibility::KeyRange;
use mvcc::InternalSeq;
use mvcc::MapKey;
use mvcc::SeqMarked;
use mvcc::Snapshot;
use mvcc::Table;
use mvcc::View;
use mvcc::ViewApi;
use std::ops::RangeBounds;

#[derive(Debug, Clone, PartialEq, Eq, PartialOrd, Ord)]
struct TestKey(String);

impl MapKey for TestKey {
    type V = String;
}

fn key(value: &str) -> TestKey {
    TestKey(value.to_string())
}

fn value(value: &str) -> String {
    value.to_string()
}

fn view() -> View<TestKey, Table<TestKey, String>> {
    let mut table = Table::new();
    table.insert(key("base"), 1, value("base-value")).unwrap();
    View::new(Snapshot::new(InternalSeq::new(1), table))
}

fn bounds(range: impl RangeBounds<TestKey>) -> KeyRange<TestKey> {
    (range.start_bound().cloned(), range.end_bound().cloned())
}

fn assert_view_api<T: ViewApi<TestKey>>(_: &T) {}

#[test]
fn test_view_implements_view_api() {
    assert_view_api(&view());
}

#[test]
fn test_staged_value_overrides_snapshot() {
    let mut view = view();
    assert_eq!(
        view.get(key("base")).unwrap(),
        SeqMarked::new_normal(1, value("base-value"))
    );

    view.set(key("base"), Some(value("updated")));
    assert_eq!(
        view.get(key("base")).unwrap(),
        SeqMarked::new_normal(2, value("updated"))
    );
}

#[test]
fn test_snapshot_hides_future_values() {
    let mut table = Table::new();
    table.insert(key("base"), 1, value("base-value")).unwrap();
    table
        .insert(key("future"), 2, value("future-value"))
        .unwrap();
    let view = View::new(Snapshot::new(InternalSeq::new(1), table));

    assert_eq!(
        view.get_many(vec![key("base"), key("future")])
            .unwrap(),
        vec![
            SeqMarked::new_normal(1, value("base-value")),
            SeqMarked::new_not_found(),
        ]
    );
}

#[test]
fn test_secondary_change_reuses_sequence() {
    let mut view = view();
    assert_eq!(
        view.set(key("primary"), Some(value("p"))),
        SeqMarked::new_normal(2, ())
    );
    assert_eq!(
        view.set_without_seq_increment(key("secondary"), Some(value("s"))),
        SeqMarked::new_normal(2, ())
    );
    assert_eq!(view.last_seq, InternalSeq::new(2));
    assert_eq!(
        view.get(key("primary")).unwrap(),
        SeqMarked::new_normal(2, value("p"))
    );
    assert_eq!(
        view.get(key("secondary")).unwrap(),
        SeqMarked::new_normal(2, value("s"))
    );
    assert_eq!(
        view.fetch_and_set_without_seq_increment(key("tertiary"), Some(value("t")))
            .unwrap(),
        (
            SeqMarked::new_not_found(),
            SeqMarked::new_normal(2, value("t")),
        )
    );
    assert_eq!(view.last_seq, InternalSeq::new(2));
}

#[test]
fn test_delete_missing_key_does_not_stage_tombstone() {
    let mut view = view();
    let (old_value, new_value) = view.fetch_and_set(key("missing"), None).unwrap();

    assert_eq!(old_value, SeqMarked::new_not_found());
    assert_eq!(new_value, SeqMarked::new_tombstone(0));
    assert!(view.changes.inner.is_empty());
}

#[test]
fn test_range_merges_snapshot_and_changes() {
    let mut view = view();
    view.set(key("base"), None);
    view.set(key("new"), Some(value("new-value")));

    let values = view
        .range(bounds(..))
        .unwrap()
        .into_iter()
        .collect::<Result<Vec<_>, _>>()
        .unwrap();
    assert_eq!(values, vec![
        (key("base"), SeqMarked::new_tombstone(1)),
        (key("new"), SeqMarked::new_normal(2, value("new-value"))),
    ]);
}

#[test]
fn test_tombstone_sequence_configuration() {
    let mut stable_view = view();
    assert_eq!(
        stable_view.set(key("base"), None),
        SeqMarked::new_tombstone(1)
    );
    assert_eq!(stable_view.last_seq, InternalSeq::new(1));

    let mut incrementing_view = view().with_tombstone_seq_increment(true);
    assert_eq!(
        incrementing_view.set(key("base"), None),
        SeqMarked::new_tombstone(2)
    );
    assert_eq!(incrementing_view.last_seq, InternalSeq::new(2));
    assert_eq!(
        incrementing_view.get(key("base")).unwrap(),
        SeqMarked::new_tombstone(2)
    );
}

#[test]
fn test_get_many_merges_snapshot_and_changes() {
    let mut view = view();
    view.set(key("base"), Some(value("updated")));
    view.set(key("new"), Some(value("new-value")));

    let values = view
        .get_many(vec![key("base"), key("new"), key("missing")])
        .unwrap();
    assert_eq!(values, vec![
        SeqMarked::new_normal(2, value("updated")),
        SeqMarked::new_normal(3, value("new-value")),
        SeqMarked::new_not_found(),
    ]);
}

#[test]
fn test_tombstone_resurrection_preserves_versions() {
    let mut view = view();
    view.set(key("base"), None);
    view.set(key("base"), Some(value("resurrected")));

    assert_eq!(
        view.changes.get(key("base"), 1),
        SeqMarked::new_tombstone(1)
    );
    assert_eq!(
        view.changes.get(key("base"), 2),
        SeqMarked::new_normal(2, &value("resurrected"))
    );
    assert_eq!(
        view.get(key("base")).unwrap(),
        SeqMarked::new_normal(2, value("resurrected"))
    );
}

#[test]
fn test_range_respects_bounds_and_tombstones() {
    let mut table = Table::new();
    table.insert(key("a"), 1, value("a-value")).unwrap();
    table.insert(key("b"), 2, value("b-value")).unwrap();
    table.insert(key("c"), 3, value("c-value")).unwrap();
    let mut view = View::new(Snapshot::new(InternalSeq::new(3), table));
    view.set(key("b"), None);
    view.set(key("d"), Some(value("d-value")));

    let values = view
        .range(bounds(key("b")..=key("d")))
        .unwrap()
        .into_iter()
        .collect::<Result<Vec<_>, _>>()
        .unwrap();
    assert_eq!(values, vec![
        (key("b"), SeqMarked::new_tombstone(3)),
        (key("c"), SeqMarked::new_normal(3, value("c-value"))),
        (key("d"), SeqMarked::new_normal(4, value("d-value"))),
    ]);
}

#[test]
fn test_fetch_and_set_transitions() {
    let mut view = view();
    assert_eq!(
        view.fetch_and_set(key("base"), Some(value("updated")))
            .unwrap(),
        (
            SeqMarked::new_normal(1, value("base-value")),
            SeqMarked::new_normal(2, value("updated")),
        )
    );
    assert_eq!(
        view.fetch_and_set(key("base"), None).unwrap(),
        (
            SeqMarked::new_normal(2, value("updated")),
            SeqMarked::new_tombstone(2),
        )
    );
    assert_eq!(
        view.fetch_and_set(key("base"), Some(value("resurrected")))
            .unwrap(),
        (
            SeqMarked::new_tombstone(2),
            SeqMarked::new_normal(3, value("resurrected")),
        )
    );
}

#[test]
fn test_initial_sequence_is_respected() {
    let mut view = view().with_initial_seq(InternalSeq::new(10));
    assert_eq!(
        view.set(key("primary"), Some(value("p"))),
        SeqMarked::new_normal(11, ())
    );
    assert_eq!(
        view.set_without_seq_increment(key("secondary"), Some(value("s"))),
        SeqMarked::new_normal(11, ())
    );
    assert_eq!(view.last_seq, InternalSeq::new(11));
}

#[test]
fn test_sequence_ordering() {
    let mut view = view();
    view.set(key("k1"), Some(value("v1")));
    view.set(key("k2"), Some(value("v2")));
    view.set(key("k3"), Some(value("v3")));

    assert_eq!(view.last_seq, InternalSeq::new(4));
    assert_eq!(
        view.changes.get(key("k1"), 4),
        SeqMarked::new_normal(2, &value("v1"))
    );
    assert_eq!(
        view.changes.get(key("k2"), 4),
        SeqMarked::new_normal(3, &value("v2"))
    );
    assert_eq!(
        view.changes.get(key("k3"), 4),
        SeqMarked::new_normal(4, &value("v3"))
    );
}

#[test]
fn test_empty_base_view() {
    let mut view = View::new(Snapshot::new(InternalSeq::new(1), Table::new()));
    view.set(key("k1"), Some(value("v1")));
    view.set(key("k2"), None);

    assert_eq!(
        view.get_many(vec![key("k1"), key("k2")]).unwrap(),
        vec![
            SeqMarked::new_normal(2, value("v1")),
            SeqMarked::new_tombstone(2),
        ]
    );

    let values = view
        .range(bounds(..))
        .unwrap()
        .into_iter()
        .collect::<Result<Vec<_>, _>>()
        .unwrap();
    assert_eq!(values, vec![
        (key("k1"), SeqMarked::new_normal(2, value("v1"))),
        (key("k2"), SeqMarked::new_tombstone(2)),
    ]);
}

#[test]
fn test_zero_initial_sequence() {
    let mut view = view().with_initial_seq(InternalSeq::new(0));
    view.set(key("k1"), Some(value("v1")));
    view.set(key("k2"), None);

    assert_eq!(view.last_seq, InternalSeq::new(1));
    assert_eq!(
        view.get_many(vec![key("k1"), key("k2")]).unwrap(),
        vec![
            SeqMarked::new_normal(1, value("v1")),
            SeqMarked::new_tombstone(1),
        ]
    );
}

#[test]
fn test_max_sequence_boundary() {
    let mut view = view().with_initial_seq(InternalSeq::new(u64::MAX - 2));

    view.set(key("k1"), Some(value("v1")));
    assert_eq!(view.last_seq, InternalSeq::new(u64::MAX - 1));

    view.set(key("k2"), Some(value("v2")));
    assert_eq!(view.last_seq, InternalSeq::new(u64::MAX));
}

#[test]
fn test_multiple_updates_same_key() {
    let mut view = view();
    view.set(key("key"), Some(value("v1")));
    view.set(key("key"), Some(value("v2")));
    view.set(key("key"), Some(value("v3")));
    view.set(key("key"), None);
    view.set(key("key"), Some(value("v4")));

    assert_eq!(view.last_seq, InternalSeq::new(5));
    assert_eq!(
        view.changes.get(key("key"), 2),
        SeqMarked::new_normal(2, &value("v1"))
    );
    assert_eq!(
        view.changes.get(key("key"), 3),
        SeqMarked::new_normal(3, &value("v2"))
    );
    assert_eq!(view.changes.get(key("key"), 4), SeqMarked::new_tombstone(4));
    assert_eq!(
        view.get(key("key")).unwrap(),
        SeqMarked::new_normal(5, value("v4"))
    );
}

#[test]
fn test_empty_key_lists() {
    assert_eq!(
        view().get_many(vec![]).unwrap(),
        Vec::<SeqMarked<String>>::new()
    );
}

#[test]
fn test_range_from_base_only() {
    let values = view()
        .range(bounds(..))
        .unwrap()
        .into_iter()
        .collect::<Result<Vec<_>, _>>()
        .unwrap();

    assert_eq!(values, vec![(
        key("base"),
        SeqMarked::new_normal(1, value("base-value"))
    )]);
}

#[test]
fn test_range_with_all_tombstones() {
    let mut view = view();
    view.set(key("base"), None);
    view.set(key("k1"), None);
    view.set(key("k2"), None);

    let values = view
        .range(bounds(..))
        .unwrap()
        .into_iter()
        .collect::<Result<Vec<_>, _>>()
        .unwrap();
    assert_eq!(values, vec![
        (key("base"), SeqMarked::new_tombstone(1)),
        (key("k1"), SeqMarked::new_tombstone(1)),
        (key("k2"), SeqMarked::new_tombstone(1)),
    ]);
}

#[test]
fn test_range_single_key() {
    let values = view()
        .range(bounds(key("base")..=key("base")))
        .unwrap()
        .into_iter()
        .collect::<Result<Vec<_>, _>>()
        .unwrap();

    assert_eq!(values, vec![(
        key("base"),
        SeqMarked::new_normal(1, value("base-value"))
    )]);
}

#[test]
fn view_test_range_empty_result() {
    let values = view()
        .range(bounds(key("x")..=key("x")))
        .unwrap()
        .into_iter()
        .collect::<Result<Vec<_>, _>>()
        .unwrap();

    assert_eq!(values, Vec::<(TestKey, SeqMarked<String>)>::new());
}

#[test]
fn test_into_parts_preserves_staged_changes() {
    let mut view = view();
    view.set(key("new"), Some(value("new-value")));

    let (_data, last_seq, changes) = view.into_parts();
    assert_eq!(last_seq, InternalSeq::new(2));
    assert_eq!(
        changes.get(key("new"), 2),
        SeqMarked::new_normal(2, &value("new-value"))
    );
}
