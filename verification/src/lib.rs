//! Proxmox backup archive format handling.
//!
//! This implements a reader and writer for the proxmox archive format (.pxar).

pub mod accessor;
pub mod binary_tree_array;
pub mod decoder;
pub mod encoder;
pub mod entry;
pub mod errors;
pub mod format;
pub mod goodbye_table;
pub mod laws;
pub mod metadata;
pub mod path;
pub mod util;
pub mod variant;

pub use crate::entry::{Entry, EntryKind};
pub use crate::format::mode;
pub use crate::metadata::{Acl, Metadata, MetadataBuilder};
pub use crate::variant::PxarVariant;

/// Reexport of `format::Entry`. Since this conveys mostly information found via the `stat` syscall
/// we mostly use this name for public interfaces.
pub use crate::format::Entry as Stat;
