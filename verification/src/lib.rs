//! seekfs: the decisions of a read-through cache over object storage.
//!
//! Files are kept in an object store and described by immutable, versioned manifests.
//! Reads go through a cache of fixed-size pages. Requests, streams, files and clocks are
//! outside; here stand the types, the texts and formats, and, for everything that
//! alternates with outside work, machines that say what to do next.
pub mod blob;
pub mod cache;
pub mod codec;
pub mod config;
pub mod digest;
pub mod fetch;
pub mod gate;
pub mod l2;
pub mod layout;
pub mod manifest;
pub mod mem;
pub mod plan;
pub mod probe;
pub mod proto;
pub mod publish;
pub mod read;
pub mod readv;
pub mod segment;
pub mod store;
pub mod text;
pub mod types;

pub use crate::l2::{L2Backend, L2Error, L2Put, PutOutcome, StatsSnapshot};
pub use crate::layout::{file_key, manifest_head_key, manifest_version_key};
pub use crate::manifest::{FileEntry, Manifest, ObjectLoc, PageInfo};
pub use crate::store::{HeadInfo, S3Config, StoreError};
pub use crate::types::{CacheKey, Namespace, PathAndVersion};
