//! Values that carry the sequence number of the change that wrote them.

use vstd::prelude::*;

verus! {

/// Data, or the mark of its deletion.
#[derive(Debug, Clone, Copy, PartialEq, Eq)]
pub enum Marked<D> {
    /// Normal data.
    Normal(D),
    /// Deletion marker.
    TombStone,
}

/// A marked value with the sequence number of the change that wrote it.
///
/// Values are ordered by sequence number first. Of two values with one sequence number a
/// tombstone comes after normal data; the data itself plays no part in the order.
/// `SeqMarked<()>` is the order of a value without the value.
#[derive(Debug, Clone, Copy, PartialEq, Eq)]
pub struct SeqMarked<D> {
    pub seq: u64,
    pub marked: Marked<D>,
}

/// A sequence number as the storage counts it, where a tombstone has one too.
#[derive(Debug, Clone, Copy, PartialEq, Eq, Structural)]
pub struct InternalSeq {
    pub seq: u64,
}

impl InternalSeq {
    /// The sequence number `seq`.
    pub fn new(seq: u64) -> (r: Self)
        ensures
            r.seq == seq,
    {
        InternalSeq { seq }
    }
}

impl Default for InternalSeq {
    fn default() -> (r: Self)
        ensures
            r.seq == 0,
    {
        InternalSeq { seq: 0 }
    }
}

/// The order of a tombstone with sequence number `seq`.
pub open spec fn tombstone_mark(seq: u64) -> SeqMarked<()> {
    SeqMarked { seq, marked: Marked::TombStone }
}

/// The order of normal data with sequence number `seq`.
pub open spec fn normal_mark(seq: u64) -> SeqMarked<()> {
    SeqMarked { seq, marked: Marked::Normal(()) }
}

impl<D> SeqMarked<D> {
    /// The place of this value in the order of values.
    pub open spec fn rank(self) -> int {
        2 * self.seq + (if self.marked is TombStone {
            1int
        } else {
            0int
        })
    }

    /// This value stands for a record that was written, be it normal data or a deletion.
    pub open spec fn found(self) -> bool {
        !(self.seq == 0 && self.marked is TombStone)
    }

    /// The order of this value, without the value.
    pub open spec fn mark(self) -> SeqMarked<()> {
        if self.marked is TombStone {
            tombstone_mark(self.seq)
        } else {
            normal_mark(self.seq)
        }
    }

    /// The data, which a deletion does not have.
    pub open spec fn data(self) -> Option<D> {
        match self.marked {
            Marked::Normal(data) => Some(data),
            Marked::TombStone => None,
        }
    }

    /// Normal data with its sequence number.
    pub fn new_normal(seq: u64, data: D) -> (r: Self)
        ensures
            r == (SeqMarked { seq, marked: Marked::Normal(data) }),
    {
        SeqMarked { seq, marked: Marked::Normal(data) }
    }

    /// A deletion with its sequence number.
    pub fn new_tombstone(seq: u64) -> (r: Self)
        ensures
            r == (SeqMarked { seq, marked: Marked::<D>::TombStone }),
    {
        SeqMarked { seq, marked: Marked::TombStone }
    }

    /// An absent record, not even marked as deleted.
    pub fn new_not_found() -> (r: Self)
        ensures
            r == (SeqMarked { seq: 0, marked: Marked::<D>::TombStone }),
            !r.found(),
    {
        SeqMarked { seq: 0, marked: Marked::TombStone }
    }

    /// Whether this is a deletion.
    pub fn is_tombstone(&self) -> (r: bool)
        ensures
            r == (self.marked is TombStone),
    {
        match &self.marked {
            Marked::Normal(_) => false,
            Marked::TombStone => true,
        }
    }

    /// Whether this is an absent record.
    pub fn is_not_found(&self) -> (r: bool)
        ensures
            r == !self.found(),
    {
        self.seq == 0 && self.is_tombstone()
    }

    /// The sequence number, which a deletion has too.
    pub fn internal_seq(&self) -> (r: InternalSeq)
        ensures
            r.seq == self.seq,
    {
        InternalSeq::new(self.seq)
    }

    /// The order of this value, without the value.
    pub fn order_key(&self) -> (r: SeqMarked<()>)
        ensures
            r == self.mark(),
            r.rank() == self.rank(),
    {
        match &self.marked {
            Marked::Normal(_) => SeqMarked { seq: self.seq, marked: Marked::Normal(()) },
            Marked::TombStone => SeqMarked { seq: self.seq, marked: Marked::TombStone },
        }
    }

    /// The data, or `None` for a deletion.
    pub fn into_data(self) -> (r: Option<D>)
        ensures
            r == self.data(),
    {
        match self.marked {
            Marked::Normal(data) => Some(data),
            Marked::TombStone => None,
        }
    }

    /// Whether this value comes after `other` in the order of values.
    pub fn is_after<E>(&self, other: &SeqMarked<E>) -> (r: bool)
        ensures
            r == (self.rank() > other.rank()),
    {
        self.seq > other.seq || (self.seq == other.seq && self.is_tombstone()
            && !other.is_tombstone())
    }

    /// The later of two values, `b` where neither comes after the other.
    pub fn max(a: Self, b: Self) -> (r: Self)
        ensures
            r == max_marked(a, b),
    {
        if a.is_after(&b) {
            a
        } else {
            b
        }
    }
}

/// The later of two values, `b` where neither comes after the other.
pub open spec fn max_marked<D>(a: SeqMarked<D>, b: SeqMarked<D>) -> SeqMarked<D> {
    if a.rank() > b.rank() {
        a
    } else {
        b
    }
}

impl SeqMarked<()> {
    /// The first of all orders: normal data with sequence number zero.
    pub fn zero() -> (r: Self)
        ensures
            r == normal_mark(0),
            r.rank() == 0,
    {
        SeqMarked { seq: 0, marked: Marked::Normal(()) }
    }

    /// The last of all orders: a deletion with the greatest sequence number.
    pub fn max_value() -> (r: Self)
        ensures
            r == tombstone_mark(u64::MAX),
    {
        SeqMarked { seq: u64::MAX, marked: Marked::TombStone }
    }
}

impl<'a, D> SeqMarked<&'a D> {
    /// This value with the data itself in place of the reference to it.
    pub open spec fn unref(self) -> SeqMarked<D> {
        SeqMarked {
            seq: self.seq,
            marked: match self.marked {
                Marked::Normal(data) => Marked::Normal(*data),
                Marked::TombStone => Marked::TombStone,
            },
        }
    }
}

/// `b` is what cloning `a` may give: its data is a clone of the data of `a`.
pub open spec fn marked_cloned<D: Clone>(a: SeqMarked<D>, b: SeqMarked<D>) -> bool {
    &&& a.seq == b.seq
    &&& match (a.marked, b.marked) {
        (Marked::Normal(x), Marked::Normal(y)) => cloned(x, y),
        (Marked::TombStone, Marked::TombStone) => true,
        _ => false,
    }
}

impl<'a, D: Clone> SeqMarked<&'a D> {
    /// This value with a clone of the data in place of the reference to it.
    pub fn cloned(self) -> (r: SeqMarked<D>)
        ensures
            marked_cloned(self.unref(), r),
            r.rank() == self.rank(),
            r.mark() == self.mark(),
    {
        match self.marked {
            Marked::Normal(data) => SeqMarked {
                seq: self.seq,
                marked: Marked::Normal(data.clone()),
            },
            Marked::TombStone => SeqMarked { seq: self.seq, marked: Marked::TombStone },
        }
    }
}

} // verus!
