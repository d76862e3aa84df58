//! The textual formats of the package manager: hashes, signatures and
//! artifact metadata.

pub mod base32;
pub mod hash;
pub mod laws;
pub mod narinfo;
pub mod refs;
pub mod sigmap;
pub mod signature;

pub use hash::{HashType, NixHash};
pub use narinfo::{Compression, NarInfo, ParseWarning, SignatureVerified};
pub use refs::ReferenceSet;
pub use sigmap::SignatureMap;
pub use signature::{PubKey, Signature};
