//! An in-memory mirror of a directory subtree.
//!
//! A [`Node`] stands for one filesystem entry and a [`Tree`] owns the root
//! node. The library never touches the disk itself: what the filesystem
//! answered is handed to it as an [`FsSnapshot`], and every operation is a
//! function of the tree and such a snapshot.

pub mod error;
pub mod invariants;
pub mod loader;
pub mod node;
pub mod path;
pub mod scan;
pub mod snapshot;
pub mod text;
pub mod tree;
pub mod walk;
pub mod watcher;

pub use error::FsError;
pub use loader::SnapshotLoader;
pub use node::{ExtendedMetadata, Node, NodeType, NodeView};
pub use snapshot::{FileStat, FsSnapshot, Probe, ProbeView};
pub use tree::{Tree, TreeIterator};
pub use watcher::{FsWatcher, WatchAction, WatchError, WatchEvent, WatchState};
