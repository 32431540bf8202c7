//! An archive container library for the DAT and PKG binary package formats.
//!
//! A [`Package`] is an ordered collection of entries, each pairing a unique
//! virtual path with a source of byte content. The `dat` and `pkg` modules
//! serialize a package to, and parse it from, the two on-disk layouts.

pub mod bytes;
pub mod dat;
pub mod entry;
pub mod error;
pub mod mmap;
pub mod package;
pub mod pkg;
pub mod text;

pub use crate::dat::DatWriter;
pub use crate::entry::Entry;
pub use crate::entry::PackageEntry;
pub use crate::error::EntryReadError;
pub use crate::error::EntryWriteError;
pub use crate::error::ErrorKind;
pub use crate::error::InnerPathAlreadyExistsError;
pub use crate::error::PackageReadError;
pub use crate::error::PackageWriteError;
pub use crate::mmap::SharedMmap;
pub use crate::package::Package;
pub use crate::pkg::PkgWriter;
pub use crate::pkg::calculate_path_hash;
pub use crate::pkg::read_null_terminated_string;
