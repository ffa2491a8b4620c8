use vstd::prelude::*;

pub mod attrs;
pub mod block;
pub mod bytes;
pub mod checksum;
pub mod dict;
pub mod header;
pub mod cipher;
pub mod inflate;
pub mod keyload;
pub mod keys;
pub mod records;
pub mod text;

verus! {

/// The checksummed region in which an Adler-32 mismatch was found.
#[derive(Debug, Clone, Copy, PartialEq, Eq, Structural)]
pub enum Section {
    Header,
    KeyBlockHeader,
    KeyBlockInfo,
    Block,
}

/// Container format version; decides the width of the integers that
/// the file stores (V1: 32-bit, V2: 64-bit).
#[derive(Debug, Clone, Copy, PartialEq, Eq, Structural)]
pub enum Version {
    V1,
    V2,
}

/// The compressed and decompressed byte size of one key or record block.
#[derive(Debug, Clone, Copy, PartialEq, Eq, Structural)]
pub struct BlockEntryInfo {
    pub compressed_size: usize,
    pub decompressed_size: usize,
}

/// Failures surfaced by the loader and the lookup engine.
#[derive(Debug)]
pub enum Error {
    NoVersion,
    InvalidVersion(String),
    UnsupportedVersion(u8),
    NoTitle,
    InvalidEncoding(String),
    InvalidCheckSum(Section),
    InvalidEncryptMethod(u32),
    InvalidCompressMethod(u32),
    InvalidData,
}

} // verus!
