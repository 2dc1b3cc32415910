//! Reading and writing of asar archives: a header tree serialised as JSON inside
//! a small binary frame, followed by the concatenated contents of the files.

pub mod error;
pub mod frame;
pub mod header;
pub mod integrity;
pub mod reader;
pub mod tree;
pub mod writer;

pub use crate::error::Error;
pub use crate::header::{File, FileIntegrity, FileLocation, HashAlgorithm, Header};
pub use crate::reader::{AsarFile, AsarReader};
pub use crate::writer::AsarWriter;
