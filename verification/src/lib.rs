//! Reading, querying and writing the resource archives ("rpkg" files) of the
//! Glacier engine, with the partition layering and the mount graph built on
//! top of them.
//!
//! Every function in this crate is verified with Verus. Calls into other
//! crates are confined to small wrappers whose contracts are assumed; each
//! of them says so in its documentation.

use vstd::prelude::*;

pub mod encryption;
pub mod lz4_block;
pub mod misc;
pub mod ordered;
pub mod pattern;
pub mod resource;
pub mod text;
pub mod utils;
pub mod wire;

verus! {

/// The game a set of files belongs to.
#[derive(Debug, PartialEq, Eq, Structural, Clone, Copy)]
pub enum WoaVersion {
    HM2016,
    HM2,
    HM3,
}

/// Why a resource could not be read from, or written to, its bytes.
#[derive(Debug)]
pub enum GlacierResourceError {
    /// The underlying reader or writer failed.
    IoError(String),
    /// The bytes are no such resource.
    ReadError(String),
    /// The resource cannot be written.
    WriteError(String),
}

/// A kind of resource that knows its own format. Implemented by the users of
/// this crate for the resources they work with; the crate states nothing of
/// what an implementation returns.
pub trait GlacierResource: Sized {
    type Output;

    /// Reads a resource of this kind from its bytes.
    fn process_data(woa_version: WoaVersion, data: &[u8]) -> Result<
        Self::Output,
        GlacierResourceError,
    >;

    /// Writes the resource to bytes.
    fn serialize(&self, woa_version: WoaVersion) -> Result<Vec<u8>, GlacierResourceError>;

    /// The four characters of the type, last first.
    fn resource_type() -> [u8; 4];

    fn video_memory_requirement(&self) -> u64;

    fn system_memory_requirement(&self) -> u64;

    fn should_scramble(&self) -> bool;

    fn should_compress(&self) -> bool;
}

} // verus!
