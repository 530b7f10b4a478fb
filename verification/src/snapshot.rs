//! Point-in-time reads over a single key-value space.

use crate::io_result::{may_read_in_turn, IOResultStream};
use crate::map_key::MapKey;
use crate::read_at_seq::{GetAtSeq, RangeAtSeq};
use crate::seq_marked::{InternalSeq, SeqMarked};
use crate::visibility::KeyRange;
use std::io;
use std::marker::PhantomData;
use vstd::prelude::*;

verus! {

/// A fixed sequence boundary over a low-level reader.
#[derive(Debug)]
pub struct Snapshot<K, D> {
    pub snapshot_seq: InternalSeq,
    pub data: D,
    pub _phantom: PhantomData<K>,
}

impl<K, D: Clone> Clone for Snapshot<K, D> {
    fn clone(&self) -> (r: Self)
        ensures
            r.snapshot_seq == self.snapshot_seq,
            cloned(self.data, r.data),
    {
        Snapshot {
            snapshot_seq: self.snapshot_seq,
            data: self.data.clone(),
            _phantom: PhantomData,
        }
    }
}

impl<K, D: Default> Default for Snapshot<K, D> {
    fn default() -> (r: Self)
        ensures
            r.snapshot_seq.seq == 0,
            call_ensures(D::default, (), r.data),
    {
        Snapshot { snapshot_seq: InternalSeq::new(0), data: D::default(), _phantom: PhantomData }
    }
}

impl<K, D> Snapshot<K, D> {
    /// The reader `data`, seen at `snapshot_seq`.
    pub fn new(snapshot_seq: InternalSeq, data: D) -> (r: Self)
        ensures
            r.snapshot_seq == snapshot_seq,
            r.data == data,
    {
        Snapshot { snapshot_seq, data, _phantom: PhantomData }
    }

    /// The sequence number that every read uses.
    pub fn snapshot_seq(&self) -> (r: InternalSeq)
        ensures
            r == self.snapshot_seq,
    {
        self.snapshot_seq
    }

    /// The reader.
    pub fn data(&self) -> (r: &D)
        ensures
            *r == self.data,
    {
        &self.data
    }

    /// The reader, without its boundary.
    pub fn into_data(self) -> (r: D)
        ensures
            r == self.data,
    {
        self.data
    }
}

impl<K: MapKey, D: GetAtSeq<K> + RangeAtSeq<K>> Snapshot<K, D> {
    /// Reads one key at the snapshot's sequence number.
    pub fn get(&self, key: K) -> (r: Result<SeqMarked<K::V>, io::Error>)
        requires
            self.data.can_get_at(key, self.snapshot_seq.seq),
        ensures
            self.data.may_get_at(key, self.snapshot_seq.seq, r),
    {
        self.data.get_at_seq(key, self.snapshot_seq.seq)
    }

    /// Reads each of the keys at the snapshot's sequence number, up to the first read that
    /// fails.
    pub fn get_many(&self, keys: Vec<K>) -> (r: Result<Vec<SeqMarked<K::V>>, io::Error>)
        requires
            forall|i: int|
                0 <= i < keys@.len() ==> self.data.can_get_at(
                    #[trigger] keys@[i],
                    self.snapshot_seq.seq,
                ),
        ensures
            may_read_in_turn(
                |key: K, got: Result<SeqMarked<K::V>, io::Error>|
                    self.data.may_get_at(key, self.snapshot_seq.seq, got),
                keys@,
                r,
            ),
    {
        self.data.get_many_at_seq(keys, self.snapshot_seq.seq)
    }

    /// Reads the keys of a range at the snapshot's sequence number.
    pub fn range(&self, range: KeyRange<K>) -> (r: Result<
        IOResultStream<(K, SeqMarked<K::V>)>,
        io::Error,
    >)
        requires
            self.data.can_range_at(range, self.snapshot_seq.seq),
        ensures
            self.data.may_range_at(range, self.snapshot_seq.seq, r),
    {
        self.data.range_at_seq(range, self.snapshot_seq.seq)
    }
}

} // verus!
