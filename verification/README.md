# fals3

An S3 simulator over a local directory, for tests: buckets are directories, objects
are files, and the metadata of an object lies in a `.fals3-meta.json` sidecar beside
it. The library is written in Rust and verified with Verus.

## How it works

The library decides, and does no input or output of its own. An operation of the
store, such as `Store::put_object`, is a `Step`: it asks the disk a `Query`, ends
with the `Effect`s that the disk is to carry out, or fails. Whoever drives it
answers each query and calls `resume` with the answer. Queries change nothing on
disk; all changes stand in the list of effects at the end, in the order in which they
are to be made.

What an operation may do is given by its `Script`, for all answers of the disk. The
contract of each operation is that it follows its script.

Paths are POSIX paths, held as text.

## Layout

- `src/text.rs`, `digits.rs`, `order.rs`: texts, numbers, the order of keys.
- `src/paths.rs`, `places.rs`: names of buckets and objects, and where they lead.
- `src/error.rs`, `meta.rs`, `upload.rs`, `conditions.rs`: errors, ETags and metadata,
  the record of an upload, preconditions.
- `src/exchange.rs`: queries, answers, effects, steps and scripts.
- `src/store/`: the operations.
- `src/disk.rs`: a model of a disk, and what a script comes to on it.
- `src/laws/`: what holds of the store as a whole, proved over that model: that a read
  gives back what was written, that pages show every key once, and so on.
  `worlds.rs` shows that there are disks of which the model speaks.
- `tests/`: tests of the operations over a disk in memory.
- `app/`: the store over the file system with its locks, and the Node.js addon.

## What is trusted

MD5 comes from the `md5` crate and is only named in the contracts. Of the system clock
nothing is claimed. `String::push`, which appends one character, and
`String::from_utf8`, which gives the text that bytes encode, are specified here.
The laws hold of a disk that behaves as `src/disk.rs` says: a tree without symlinks,
on which metadata that is written as JSON reads back as it was.
