//! Sync agent capabilities (skills, commands, agents) from a source tree
//! into the output directories of agent harnesses.
//!
//! The library holds the pure part of the pipeline: recognising artifacts in
//! a walked source tree, reading their frontmatter, ordering and checking the
//! discovered set, and planning the copies for each target. Walking the disk
//! and copying files is left to the caller, which hands the library the walked
//! paths and file contents as plain values.
pub mod adapter;
pub mod config;
pub mod discover;
pub mod frontmatter;
pub mod laws;
pub mod model;
pub mod path;
pub mod text;

pub use adapter::{plan, Adapter, CopyAdapter};
pub use discover::{discover, DiscoverError, WalkedFile};
pub use model::{
    Artifact, ArtifactMeta, Catalog, Distribution, FileOp, Kind, SyncPlan, Target, Tool,
};
pub use path::FsPath;
