# keystory

A crash-resilient key/value store engine, with its logic verified by Verus.

- `src/` is the library. It touches no file, socket, clock or thread: what needs the disk takes a
  directory as a value and returns the steps to perform on it, and what a crash leaves behind in
  the middle of those steps is part of the model. The crate documentation in `src/lib.rs` lists
  the modules.
- `tests/` runs the library on directories in memory.
- `app/` is the program around it: files and `fsync`, locks and condition variables, the `mio`
  poller, wakers, and the crash runner's `main`.

What is proved, besides the contract of each function, stands in the public proof functions whose
names begin with `law_`. The main ones:

- A commit is durable once its steps are performed, also after an earlier flush has failed part of
  the way, and a crash in the middle of a flush recovers a prefix of its commits, each one whole
  (`recovery`, `engine`).
- A checkpoint, its rotation of the log and the deletion of old segments keep the recovered state,
  and so does a crash between any two of the steps, whether or not the checkpoint that is being
  replaced is damaged (`recovery`).
- A torn tail is cut off, and damage anywhere else is reported (`wal_record`, `wal`).
- A blob is found by its handle until it is compacted away, and its id is not used again
  (`valuestore`).
- What readers of snapshots observe is consistent with the order of commits (`consistency`).
- Every majority of a cluster is led by a node that holds everything committed, a minority commits
  nothing, and the live nodes converge (`raft`).
- A B+ tree grown from an empty one is an ordered map that stays balanced under insertion; it loads
  back from its document as it was, and the replacement of the document on disk is atomic
  (`btree_store`, `btree_page`).

Two standard-library calls are trusted: `Arc::clone`, which shares a value, and
`Arc::strong_count`.
