//! Crash-atomic multi-file transactions.
//!
//! A [`ChangeSet`] stages writes, moves, removals, copies, execute bits and links as one ordered
//! unit, together with what it expects to find. Applying it lands all of it or none of it: a
//! failure reverses every operation that was applied, and a journal is written before the first
//! one, so that a set which was interrupted can be completed later. An [`OrderedBatch`] gives less
//! for less: tiers of writes with barriers between them, no journal, and whole tiers before an
//! interruption.
//!
//! Nothing here touches a storage. Applying hands out one [`Request`] at a time and is carried on
//! with the [`Reply`]; whoever holds the storage performs the requests. What follows from that for
//! a storage that does as it is asked is proved: in [`atomicity`] and [`tiers`] for what the tree
//! holds, in [`durability`] and [`tiers`] for what survives a power cut, and in [`progress`] that
//! every application comes to an end. Whatever is answered, [`outcomes`] and [`batches`] say which
//! answers lead to which end, and [`conduct`] what is seen to on the way.

pub mod apply;
pub mod atomicity;
pub mod batches;
pub mod change;
pub mod conduct;
pub mod debts;
pub mod durability;
pub mod error;
pub mod exec;
pub mod flush;
pub mod journal;
pub mod ordered;
pub mod outcomes;
pub mod path;
pub mod path_set;
pub mod port;
pub mod progress;
pub mod script;
pub mod staging;
pub mod tiers;
pub mod tree;
pub mod undo;
pub mod unwind;

pub use apply::Apply;
pub use change::{ChangeSet, Expected, FileOp};
pub use error::{Error, Outcome};
pub use journal::Journal;
pub use ordered::{BatchApply, BatchOp, OrderedBatch};
pub use path::{Component, TreePath};
pub use port::{Durability, Fault, FaultKind, Reply, Request};
pub use staging::{IntoContents, IntoPath};
