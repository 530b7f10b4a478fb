use mvcc::visibility::KeyRange;
use mvcc::GetAtSeq;
use mvcc::IOResultStream;
use mvcc::InternalSeq;
use mvcc::RangeAtSeq;
use mvcc::SeqMarked;
use mvcc::Snapshot;
use std::io;
use std::ops::Bound;
use std::sync::Arc;
use std::sync::Mutex;

#[derive(Debug, Clone)]
struct MockData {
    calls: Arc<Mutex<Vec<String>>>,
}

impl MockData {
    fn new() -> Self {
        Self {
            calls: Arc::new(Mutex::new(Vec::new())),
        }
    }
}

impl GetAtSeq<String> for MockData {
    fn get_at_seq(&self, _key: String, seq: u64) -> Result<SeqMarked<Vec<u8>>, io::Error> {
        self.calls.lock().unwrap().push(format!("get:{seq}"));
        Ok(SeqMarked::new_not_found())
    }
}

impl RangeAtSeq<String> for MockData {
    fn range_at_seq(
        &self,
        _range: KeyRange<String>,
        seq: u64,
    ) -> Result<IOResultStream<(String, SeqMarked<Vec<u8>>)>, io::Error> {
        self.calls.lock().unwrap().push(format!("range:{seq}"));
        Ok(Vec::new())
    }
}

#[test]
fn test_snapshot_binds_sequence() {
    let data = MockData::new();
    let snapshot = Snapshot::new(InternalSeq::new(42), data.clone());

    snapshot.get("k".to_string()).unwrap();
    snapshot
        .get_many(vec!["k1".to_string(), "k2".to_string()])
        .unwrap();
    let _stream = snapshot
        .range((Bound::Unbounded, Bound::Unbounded))
        .unwrap();

    assert_eq!(*data.calls.lock().unwrap(), vec![
        "get:42", "get:42", "get:42", "range:42"
    ]);
}
