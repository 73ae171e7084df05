//! Incremental disk-usage scanning engine.
//!
//! The library turns a directory tree into a sequence of `(path, size)`
//! records, one per regular file, in no defined order.  The `entry` module
//! classifies directory children; the `model` module describes a directory
//! tree as a snapshot value; the `walk` module walks such a snapshot —
//! recursively, and through the incremental engine — and is proved to
//! deliver every reachable file exactly once, with the right total of
//! sizes, failing fast on the first denied directory; the `scanner` module
//! is the state machine that a host program drives against a real
//! filesystem; the `tree` module folds delivered records into the
//! path-prefix forest a display sums over; and the `shared` module holds
//! the lock wrapper such a display shares its forest through.

pub mod entry;
pub mod model;
pub mod scanner;
pub mod shared;
pub mod tree;
pub mod walk;
