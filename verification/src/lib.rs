use vstd::prelude::*;

pub mod envelope;
pub mod filter;
pub mod generator;
pub mod handshake;
pub mod file_list;
pub mod recv;
pub mod sums;
pub mod token;
pub mod uid_list;
pub mod wire;

verus! {

/// The failure taxonomy of the client.
#[derive(Debug)]
pub enum RsyncError {
    Network,
    ProtocolError,
    VersionTooOld(i32),
    AuthRequired,
    ServerError(Vec<u8>),
    PathTooLong,
    MissingBasis,
    ChecksumMismatch,
    FilesystemError,
    InternalInvariant,
}

/// Compares two modification times at whole-second resolution; both sides
/// are given as seconds since the Unix epoch.
pub fn mod_time_eq(x: u64, y: u64) -> (r: bool)
    ensures
        r == (x == y),
{
    x == y
}

} // verus!
