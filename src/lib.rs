//! An extensible virtual filesystem for the application layer.
//!
//! Paths are sequences of components; a store answers `open` and `entries`
//! requests for such paths. Stores are kept in memory, read from tar or zip
//! archives, layered into overlays, made case-insensitive, or mounted under
//! prefixes of a single namespace.
use vstd::prelude::*;

pub mod archive;
pub mod entry;
pub mod error;
pub mod file;
pub mod index;
pub mod order;
pub mod path;
pub mod ram;
pub mod store;

pub use archive::{TarFs, ZipFs};
pub use entry::{Entry, EntryKind};
pub use error::Error;
pub use file::{File, RamFile, TarFsFile, ZipFsFile};
pub use path::{normalize_path, Path};
pub use ram::RamFs;
pub use store::{CaselessFs, MiniFs, Store};
