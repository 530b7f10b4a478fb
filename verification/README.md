# mvcc

Multi-version storage for one key-value space, verified with Verus.

- `Table` holds every version of every key in memory. A version has a sequence number; a deletion
  is a version of its own.
- `Snapshot` reads a store at a fixed sequence number.
- `View` is a transaction: it stages changes over a snapshot, reads its own changes before what is
  below them, and hands the changes over for a commit.

`src/` is the library. Every function in it has a contract, stated over sequences of versions
(`versions.rs`) and over what a reader at a sequence number sees of them (`visibility.rs`).
`laws/` states what holds of several calls together: that a reader does not see later writes, that
a range read agrees with single reads, that a transaction reads what it staged, and that a commit
shows to later readers what the transaction read.

Merging two sorted reads is done by the `stream-more` crate, on streams of the `futures` and
`futures-util` crates. Two wrappers in `util.rs` say what is believed of them; besides these the
library rests on the standard library alone.

`app/` puts asynchronous readers and streams around the library. `tests/` runs it.
