use vstd::prelude::*;

use crate::version::{GameVersion, PatchVersion};

verus! {

/// How a CLUT or LUT payload is compressed.
#[derive(Debug, Clone, Copy, PartialEq, Eq, Structural)]
pub enum CompressType {
    Uncompressed,
    Zlib,
    Brotli,
    Zstd,
}

/// The CLUT format revision.
#[derive(Debug, Clone, Copy, PartialEq, Eq, Structural)]
pub enum Version {
    Initial,
    SeparateVersioning,
    Indexed,
}

/// The platform an install targets.
#[derive(Debug, Clone, Copy, PartialEq, Eq, Structural)]
pub enum PlatformId {
    Win32,
    Ps3,
    Ps4,
    Ps5,
    Lys,
    Placeholder,
    Unknown,
}

/// A CLUT's header: what the file describes and how its payload is packed.
#[derive(Debug)]
pub struct Header {
    pub magic: u16,
    pub file_version: Version,
    pub compression: CompressType,
    pub platform: PlatformId,
    pub repository: String,
    pub version: GameVersion,
    pub patch_version: PatchVersion,
    pub base_patch_url: String,
    pub decompressed_size: i32,
    pub compressed_size: i32,
}


/// The byte a file stores for a compression.
pub open spec fn compress_code(c: CompressType) -> u8 {
    match c {
        CompressType::Uncompressed => 0,
        CompressType::Zlib => 1,
        CompressType::Brotli => 2,
        CompressType::Zstd => 3,
    }
}

/// The compression a stored byte names, if any.
pub open spec fn compress_of(b: u8) -> Option<CompressType> {
    if b == 0 {
        Some(CompressType::Uncompressed)
    } else if b == 1 {
        Some(CompressType::Zlib)
    } else if b == 2 {
        Some(CompressType::Brotli)
    } else if b == 3 {
        Some(CompressType::Zstd)
    } else {
        None
    }
}

impl CompressType {
    pub fn code(self) -> (b: u8)
        ensures
            b == compress_code(self),
            compress_of(b) == Some(self),
    {
        match self {
            CompressType::Uncompressed => 0,
            CompressType::Zlib => 1,
            CompressType::Brotli => 2,
            CompressType::Zstd => 3,
        }
    }

    pub fn from_code(b: u8) -> (c: Option<CompressType>)
        ensures
            c == compress_of(b),
    {
        if b == 0 {
            Some(CompressType::Uncompressed)
        } else if b == 1 {
            Some(CompressType::Zlib)
        } else if b == 2 {
            Some(CompressType::Brotli)
        } else if b == 3 {
            Some(CompressType::Zstd)
        } else {
            None
        }
    }
}

} // verus!
