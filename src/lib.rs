//! Packaging core: selects the artifacts of a `(Platform, PackType)` pair,
//! assembles them into a canonical byte stream and hashes it.

pub mod bundle;
pub mod digest;
pub mod laws;
pub mod order;
pub mod pipeline;
pub mod select;
pub mod types;

pub use bundle::assemble;
pub use digest::{hash_bundle, hash_from_digest};
pub use pipeline::{bundle_name, package, verify, Bundle, VerifyOutcome};
pub use select::{select, Artifact, EntryKind, Requirement, SourceEntry};
pub use types::{HashSum, PackError, PackType, Platform};
