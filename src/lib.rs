//! Parser and checker for the code-signing data embedded in Mach-O images.
//!
//! The library reads the embedded signature envelope (a SuperBlob), decodes each
//! CodeDirectory it indexes, and recomputes the digests that a signature covers:
//! the per-page code hashes and the CDHash of the CodeDirectory itself.
#![allow(non_snake_case)]
#![allow(non_upper_case_globals)]

pub mod bytes;
pub mod codedir;
pub mod consts;
pub mod errors;
pub mod primitives;
pub mod signature;

pub use errors::CDMachError;
pub use codedir::{BlobIndex, CodeDirectory, SuperBlob};
pub use bytes::read_string_to_nul;
pub use signature::{Blob, CodeSignature, SignatureOutcome};
