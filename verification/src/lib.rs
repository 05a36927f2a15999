//! Which commits changed a file?
//!
//! A commit store holds immutable commits, each naming its parents and a
//! snapshot; a snapshot maps paths to content ids. Starting from a root commit,
//! a walk goes back through the ancestry and reports the commits whose content
//! at a tracked path differs from that of a parent. It does not go behind a
//! commit that lacks the path.
//!
//! - [`model`] is the mathematical picture of a store, [`walk`] defines the
//!   walk over it step by step, and [`course`] says what holds at every step.
//! - [`store`] is the store in memory, [`tracker`] the walk as a value that is
//!   stepped or pulled, and [`collect`] the two ways of collecting what it
//!   hands out: newest first ([`order`]), or as a set of ids ([`id_set`]).
//! - [`repository`] walks a repository on disk and reads from it what the walk
//!   asks for; [`growth`] shows that a store may grow under a walk.
//! - [`laws`] states what holds of every walk.

pub mod collect;
pub mod course;
pub mod growth;
pub mod id_set;
pub mod laws;
pub mod model;
pub mod object;
pub mod order;
pub mod repository;
pub mod store;
pub mod tracker;
pub mod walk;

pub use id_set::IdSet;
pub use model::{CommitData, History, StoreError};
pub use object::{ObjectId, Timestamp};
pub use repository::TrackError;
pub use store::{Commit, CommitStore, Entry, Snapshot};
pub use tracker::{FileChangeTracker, Step, Walk};
pub use walk::{Outcome, TrackerState};
