use vstd::prelude::*;

use crate::clut_index::{read_index_spec, ChunkSpan, Index};
use crate::bytes::{
    holds_at, le, le_i32, le_u16, lemma_holds_split, lemma_read_i32, lemma_read_string, lemma_read_u16,
    lemma_read_u8, net_string, push_bytes, push_i32, push_net_string, push_u16, push_u8, read_i32,
    read_i32_spec, read_string, read_string_spec, read_u16, read_u16_spec, read_u8, read_u8_spec,
    string_fits, DecodeError,
};
use crate::clut::{compress_code, compress_of, CompressType, Header, PlatformId, Version};
use crate::data_ref::DataRefModel;
use crate::codec::{compressed, inflate, inflated};
use crate::data_ref::DataRef;
use crate::file_data::{
    dec_file_data, file_data_bytes, lemma_file_data_round_trip, patch_storable, ref_models, refs_storable,
    table_models, FileData,
};
use crate::lut::{dec_strings, lemma_dec_strings, read_names, strings_bytes};
use crate::names::{str_views, FileEntry};
use crate::order::older;
use crate::text::{chars_of, trim_white, trim_white_bounds};
use crate::version::{
    lemma_version_text_parses, parse_version, section_wf, version_error, version_text,
    GameVersion, PatchVersion, VersionError, VersionModel,
};

verus! {

/// The first two bytes of every CLUT.
pub const CLUT_MAGIC: u16 = 0xDF23;

/// A CLUT header as plain values.
pub ghost struct HeaderModel {
    pub magic: u16,
    pub file_version: Version,
    pub compression: CompressType,
    pub platform: PlatformId,
    pub repository: Seq<char>,
    pub version: VersionModel,
    pub patch_version: VersionModel,
    pub base_patch_url: Seq<char>,
    pub decompressed_size: i32,
    pub compressed_size: i32,
}

impl View for Header {
    type V = HeaderModel;

    open spec fn view(&self) -> HeaderModel {
        HeaderModel {
            magic: self.magic,
            file_version: self.file_version,
            compression: self.compression,
            platform: self.platform,
            repository: self.repository@,
            version: self.version@,
            patch_version: self.patch_version@,
            base_patch_url: self.base_patch_url@,
            decompressed_size: self.decompressed_size,
            compressed_size: self.compressed_size,
        }
    }
}

/// The number a file stores for a format revision.
pub open spec fn version_code(v: Version) -> u16 {
    match v {
        Version::Initial => 1,
        Version::SeparateVersioning => 2,
        Version::Indexed => 3,
    }
}

/// The format revision a stored number names, if any.
pub open spec fn version_of(code: u16) -> Option<Version> {
    if code == 1 {
        Some(Version::Initial)
    } else if code == 2 {
        Some(Version::SeparateVersioning)
    } else if code == 3 {
        Some(Version::Indexed)
    } else {
        None
    }
}

/// The byte a file stores for a platform.
pub open spec fn platform_code(p: PlatformId) -> u8 {
    match p {
        PlatformId::Win32 => 0,
        PlatformId::Ps3 => 1,
        PlatformId::Ps4 => 2,
        PlatformId::Ps5 => 3,
        PlatformId::Lys => 4,
        PlatformId::Placeholder => 254,
        PlatformId::Unknown => 255,
    }
}

/// The platform a stored byte names, if any.
pub open spec fn platform_of(b: u8) -> Option<PlatformId> {
    if b == 0 {
        Some(PlatformId::Win32)
    } else if b == 1 {
        Some(PlatformId::Ps3)
    } else if b == 2 {
        Some(PlatformId::Ps4)
    } else if b == 3 {
        Some(PlatformId::Ps5)
    } else if b == 4 {
        Some(PlatformId::Lys)
    } else if b == 254 {
        Some(PlatformId::Placeholder)
    } else if b == 255 {
        Some(PlatformId::Unknown)
    } else {
        None
    }
}

impl Version {
    pub fn code(self) -> (c: u16)
        ensures
            c == version_code(self),
            version_of(c) == Some(self),
    {
        match self {
            Version::Initial => 1,
            Version::SeparateVersioning => 2,
            Version::Indexed => 3,
        }
    }

    pub fn from_code(c: u16) -> (v: Option<Version>)
        ensures
            v == version_of(c),
    {
        if c == 1 {
            Some(Version::Initial)
        } else if c == 2 {
            Some(Version::SeparateVersioning)
        } else if c == 3 {
            Some(Version::Indexed)
        } else {
            None
        }
    }
}

impl PlatformId {
    pub fn code(self) -> (b: u8)
        ensures
            b == platform_code(self),
            platform_of(b) == Some(self),
    {
        match self {
            PlatformId::Win32 => 0,
            PlatformId::Ps3 => 1,
            PlatformId::Ps4 => 2,
            PlatformId::Ps5 => 3,
            PlatformId::Lys => 4,
            PlatformId::Placeholder => 254,
            PlatformId::Unknown => 255,
        }
    }

    pub fn from_code(b: u8) -> (p: Option<PlatformId>)
        ensures
            p == platform_of(b),
    {
        if b == 0 {
            Some(PlatformId::Win32)
        } else if b == 1 {
            Some(PlatformId::Ps3)
        } else if b == 2 {
            Some(PlatformId::Ps4)
        } else if b == 3 {
            Some(PlatformId::Ps5)
        } else if b == 4 {
            Some(PlatformId::Lys)
        } else if b == 254 {
            Some(PlatformId::Placeholder)
        } else if b == 255 {
            Some(PlatformId::Unknown)
        } else {
            None
        }
    }
}

/// Why a CLUT could not be read or written.
#[derive(Debug, Clone, Copy, PartialEq, Eq, Structural)]
pub enum ClutError {
    Decode(DecodeError),
    /// The file does not start with the CLUT magic.
    BadMagic(u16),
    /// The format revision is not one this library knows.
    BadFileVersion(u16),
    /// A revision it knows but does not read.
    UnsupportedVersion(Version),
    BadCompression(u8),
    BadPlatform(u8),
    BadGameVersion(VersionError),
    BadPatchVersion(VersionError),
    /// The codec refused the payload.
    Codec,
    /// The payload inflates to another size than the header gives.
    SizeMismatch,
    /// A reference's type byte is none of the known ones.
    BadRefType(u8),
    /// A reference names a patch version the table does not hold.
    BadVersionIndex(i32),
    /// A reference's offset lies outside the 64-bit range.
    OffsetOverflow,
    /// A count or size does not fit the format.
    TooLarge,
    /// The index section gives a checkpoint stride of zero.
    ZeroStride,
    /// The chunk table runs past 4 GiB of payload.
    ChunkTableOverflow,
    /// A file's block names a chunk the table does not have.
    ChunkOutOfRange,
    /// A file's block has another number of checkpoints than its references need.
    CheckpointCount,
    /// A chunked payload has no chunk table entry.
    NoChunks,
    /// A chunk lies past the end of the payload.
    ChunkPastPayload,
    /// The index covers another number of files than the payload names.
    BlockCount,
    /// No file of the CLUT has that path.
    FileNotFound,
}

/// The strings of a header: repository, game version, patch version and base URL.
pub open spec fn header_strings(h: HeaderModel) -> Seq<u8> {
    net_string(h.repository) + net_string(version_text(h.version, false)) + net_string(
        version_text(h.patch_version, true),
    ) + net_string(h.base_patch_url)
}

/// A header after its magic and revision: compression, platform, the strings, the
/// inflated size, and the compressed size unless the payload is stored as it is.
pub open spec fn header_tail(h: HeaderModel) -> Seq<u8> {
    le(compress_code(h.compression) as nat, 1) + le(platform_code(h.platform) as nat, 1)
        + header_strings(h) + le_i32(h.decompressed_size) + if h.compression
        != CompressType::Uncompressed {
        le_i32(h.compressed_size)
    } else {
        Seq::empty()
    }
}

/// How a header is stored: magic, revision, then the rest.
pub open spec fn header_bytes(h: HeaderModel) -> Seq<u8> {
    le_u16(h.magic) + le_u16(version_code(h.file_version)) + header_tail(h)
}

/// Whether a header's strings fit the format.
pub open spec fn header_fits(h: HeaderModel) -> bool {
    &&& string_fits(h.repository)
    &&& string_fits(version_text(h.version, false))
    &&& string_fits(version_text(h.patch_version, true))
    &&& string_fits(h.base_patch_url)
}

/// The header at the start of `d` and where it ends: the magic must be right and the
/// revision the one this library reads; without compression the compressed size is the
/// inflated size.
pub open spec fn read_header_spec(d: Seq<u8>) -> Result<(HeaderModel, int), ClutError> {
    match read_u16_spec(d, 0) {
        Err(e) => Err(ClutError::Decode(e)),
        Ok((magic, p1)) => if magic != CLUT_MAGIC {
            Err(ClutError::BadMagic(magic))
        } else {
            match read_u16_spec(d, p1) {
                Err(e) => Err(ClutError::Decode(e)),
                Ok((vc, p2)) => match version_of(vc) {
                    None => Err(ClutError::BadFileVersion(vc)),
                    Some(file_version) => if file_version == Version::Initial {
                        Err(ClutError::UnsupportedVersion(file_version))
                    } else {
                        read_header_rest(d, p2, magic, file_version)
                    },
                },
            }
        },
    }
}

/// The header after its magic and revision.
pub open spec fn read_header_rest(d: Seq<u8>, p2: int, magic: u16, file_version: Version) -> Result<(HeaderModel, int), ClutError> {
    match read_u8_spec(d, p2) {
        Err(e) => Err(ClutError::Decode(e)),
        Ok((cb, p3)) => match compress_of(cb) {
            None => Err(ClutError::BadCompression(cb)),
            Some(compression) => match read_u8_spec(d, p3) {
                Err(e) => Err(ClutError::Decode(e)),
                Ok((pb, p4)) => match platform_of(pb) {
                    None => Err(ClutError::BadPlatform(pb)),
                    Some(platform) => match read_header_strings(d, p4) {
                        Err(e) => Err(e),
                        Ok((repository, version, patch_version, base_patch_url, p8)) => match read_i32_spec(d, p8) {
                            Err(e) => Err(ClutError::Decode(e)),
                            Ok((decompressed_size, p9)) => {
                                let head = HeaderModel {
                                    magic,
                                    file_version,
                                    compression,
                                    platform,
                                    repository,
                                    version,
                                    patch_version,
                                    base_patch_url,
                                    decompressed_size,
                                    compressed_size: decompressed_size,
                                };
                                if compression != CompressType::Uncompressed {
                                    match read_i32_spec(d, p9) {
                                        Err(e) => Err(ClutError::Decode(e)),
                                        Ok((compressed_size, p10)) => Ok(
                                            (HeaderModel { compressed_size, ..head }, p10),
                                        ),
                                    }
                                } else {
                                    Ok((head, p9))
                                }
                            },
                        },
                    },
                },
            },
        },
    }
}

/// The repository, the two versions and the base URL.
pub open spec fn read_header_strings(d: Seq<u8>, p4: int) -> Result<(Seq<char>, VersionModel, VersionModel, Seq<char>, int), ClutError> {
    match read_string_spec(d, p4) {
        Err(e) => Err(ClutError::Decode(e)),
        Ok((repository, p5)) => match read_string_spec(d, p5) {
            Err(e) => Err(ClutError::Decode(e)),
            Ok((vt, p6)) => match parse_version(vt) {
                None => Err(ClutError::BadGameVersion(version_error(vt))),
                Some(version) => match read_string_spec(d, p6) {
                    Err(e) => Err(ClutError::Decode(e)),
                    Ok((pt, p7)) => match parse_version(pt) {
                        None => Err(ClutError::BadPatchVersion(version_error(pt))),
                        Some(patch_version) => match read_string_spec(d, p7) {
                            Err(e) => Err(ClutError::Decode(e)),
                            Ok((base_patch_url, p8)) => Ok(
                                (repository, version, patch_version, base_patch_url, p8),
                            ),
                        },
                    },
                },
            },
        },
    }
}

impl Header {
    /// The header of an empty CLUT: nothing known of the repository or its versions.
    pub open spec fn default_model() -> HeaderModel {
        HeaderModel {
            magic: CLUT_MAGIC,
            file_version: Version::SeparateVersioning,
            compression: CompressType::Uncompressed,
            platform: PlatformId::Win32,
            repository: seq!['U', 'N', 'K', 'N', 'O', 'W', 'N'],
            version: crate::version::Version::epoch_model(),
            patch_version: crate::version::Version::epoch_model(),
            base_patch_url: Seq::empty(),
            decompressed_size: 0,
            compressed_size: 0,
        }
    }
}

impl Default for Header {
    fn default() -> (h: Header)
        ensures
            h@ == Header::default_model(),
    {
        let repository = "UNKNOWN".to_owned();
        proof {
            reveal_strlit("UNKNOWN");
        }
        assert(repository@ =~= seq!['U', 'N', 'K', 'N', 'O', 'W', 'N']);
        Header {
            magic: CLUT_MAGIC,
            file_version: Version::SeparateVersioning,
            compression: CompressType::Uncompressed,
            platform: PlatformId::Win32,
            repository,
            version: GameVersion::epoch(),
            patch_version: PatchVersion::epoch(),
            base_patch_url: String::new(),
            decompressed_size: 0,
            compressed_size: 0,
        }
    }
}

impl Header {
    /// A copy of this header.
    pub fn duplicate(&self) -> (h: Header)
        ensures
            h@ == self@,
    {
        Header {
            magic: self.magic,
            file_version: self.file_version,
            compression: self.compression,
            platform: self.platform,
            repository: self.repository.clone(),
            version: self.version.duplicate(),
            patch_version: self.patch_version.duplicate(),
            base_patch_url: self.base_patch_url.clone(),
            decompressed_size: self.decompressed_size,
            compressed_size: self.compressed_size,
        }
    }

    /// The size of the stored payload.
    pub fn get_compressed_size(&self) -> (n: i32)
        ensures
            n == self.compressed_size,
    {
        self.compressed_size
    }

    /// Whether the base patch URL says anything: it is not empty or only whitespace.
    pub fn has_base_patch_url(&self) -> (b: bool)
        ensures
            b == (trim_white(self.base_patch_url@).len() > 0),
    {
        let cs = chars_of(self.base_patch_url.as_str());
        let n = cs.len();
        let (a, b) = trim_white_bounds(cs.as_slice(), 0, n);
        assert(cs@.subrange(0, n as int) =~= cs@);
        a < b
    }

    fn write_strings(&self, out: &mut Vec<u8>)
        requires
            header_fits(self@),
        ensures
            final(out)@ == old(out)@ + header_strings(self@),
    {
        push_net_string(out, self.repository.as_str());
        let version = self.version.to_string();
        push_net_string(out, version.as_str());
        let patch_version = self.patch_version.to_string();
        push_net_string(out, patch_version.as_str());
        push_net_string(out, self.base_patch_url.as_str());
        assert(out@ =~= old(out)@ + header_strings(self@));
    }

    fn write_tail(&self, out: &mut Vec<u8>)
        requires
            header_fits(self@),
        ensures
            final(out)@ == old(out)@ + header_tail(self@),
    {
        push_u8(out, self.compression.code());
        push_u8(out, self.platform.code());
        let ghost a = out@;
        self.write_strings(out);
        let ghost b = out@;
        push_i32(out, self.decompressed_size);
        let ghost c = out@;
        if self.compression != CompressType::Uncompressed {
            push_i32(out, self.compressed_size);
        }
        assert(out@ =~= old(out)@ + header_tail(self@));
    }

    /// Append the header as a CLUT stores it.
    pub fn write_to(&self, out: &mut Vec<u8>)
        requires
            header_fits(self@),
        ensures
            final(out)@ == old(out)@ + header_bytes(self@),
    {
        push_u16(out, self.magic);
        push_u16(out, self.file_version.code());
        self.write_tail(out);
        assert(out@ =~= old(out)@ + header_bytes(self@));
    }
}

fn read_header_strings_exec(d: &[u8], p4: usize) -> (r: Result<(String, GameVersion, PatchVersion, String, usize), ClutError>)
    ensures
        match r {
            Ok((a, v, pv, b, q)) => read_header_strings(d@, p4 as int) == Ok::<
                (Seq<char>, VersionModel, VersionModel, Seq<char>, int),
                ClutError,
            >((a@, v@, pv@, b@, q as int)),
            Err(e) => read_header_strings(d@, p4 as int) == Err::<
                (Seq<char>, VersionModel, VersionModel, Seq<char>, int),
                ClutError,
            >(e),
        },
{
    let (repository, p5) = match read_string(d, p4) {
        Ok(x) => x,
        Err(e) => {
            return Err(ClutError::Decode(e));
        },
    };
    let (vt, p6) = match read_string(d, p5) {
        Ok(x) => x,
        Err(e) => {
            return Err(ClutError::Decode(e));
        },
    };
    let version = match GameVersion::new(vt.as_str()) {
        Ok(v) => v,
        Err(e) => {
            return Err(ClutError::BadGameVersion(e));
        },
    };
    let (pt, p7) = match read_string(d, p6) {
        Ok(x) => x,
        Err(e) => {
            return Err(ClutError::Decode(e));
        },
    };
    let patch_version = match PatchVersion::new(pt.as_str()) {
        Ok(v) => v,
        Err(e) => {
            return Err(ClutError::BadPatchVersion(e));
        },
    };
    let (base_patch_url, p8) = match read_string(d, p7) {
        Ok(x) => x,
        Err(e) => {
            return Err(ClutError::Decode(e));
        },
    };
    Ok((repository, version, patch_version, base_patch_url, p8))
}

/// The header at the start of a CLUT, and where it ends.
pub fn read_header(d: &[u8]) -> (r: Result<(Header, usize), ClutError>)
    ensures
        match r {
            Ok((h, q)) => read_header_spec(d@) == Ok::<(HeaderModel, int), ClutError>((h@, q as int)),
            Err(e) => read_header_spec(d@) == Err::<(HeaderModel, int), ClutError>(e),
        },
{
    let (magic, p1) = match read_u16(d, 0) {
        Ok(x) => x,
        Err(e) => {
            return Err(ClutError::Decode(e));
        },
    };
    if magic != CLUT_MAGIC {
        return Err(ClutError::BadMagic(magic));
    }
    let (vc, p2) = match read_u16(d, p1) {
        Ok(x) => x,
        Err(e) => {
            return Err(ClutError::Decode(e));
        },
    };
    let file_version = match Version::from_code(vc) {
        Some(v) => v,
        None => {
            return Err(ClutError::BadFileVersion(vc));
        },
    };
    if file_version == Version::Initial {
        return Err(ClutError::UnsupportedVersion(file_version));
    }
    let (cb, p3) = match read_u8(d, p2) {
        Ok(x) => x,
        Err(e) => {
            return Err(ClutError::Decode(e));
        },
    };
    let compression = match CompressType::from_code(cb) {
        Some(c) => c,
        None => {
            return Err(ClutError::BadCompression(cb));
        },
    };
    let (pb, p4) = match read_u8(d, p3) {
        Ok(x) => x,
        Err(e) => {
            return Err(ClutError::Decode(e));
        },
    };
    let platform = match PlatformId::from_code(pb) {
        Some(p) => p,
        None => {
            return Err(ClutError::BadPlatform(pb));
        },
    };
    let (repository, version, patch_version, base_patch_url, p8) = match read_header_strings_exec(d, p4) {
        Ok(x) => x,
        Err(e) => {
            return Err(e);
        },
    };
    let (decompressed_size, p9) = match read_i32(d, p8) {
        Ok(x) => x,
        Err(e) => {
            return Err(ClutError::Decode(e));
        },
    };
    let mut compressed_size = decompressed_size;
    let mut end = p9;
    if compression != CompressType::Uncompressed {
        let (c, p10) = match read_i32(d, p9) {
            Ok(x) => x,
            Err(e) => {
                return Err(ClutError::Decode(e));
            },
        };
        compressed_size = c;
        end = p10;
    }
    let h = Header {
        magic,
        file_version,
        compression,
        platform,
        repository,
        version,
        patch_version,
        base_patch_url,
        decompressed_size,
        compressed_size,
    };
    Ok((h, end))
}

proof fn lemma_header_strings(d: Seq<u8>, p: int, h: HeaderModel)
    requires
        header_fits(h),
        section_wf(h.version),
        section_wf(h.patch_version),
        holds_at(d, p, header_strings(h)),
    ensures
        read_header_strings(d, p) == Ok::<(Seq<char>, VersionModel, VersionModel, Seq<char>, int), ClutError>(
            (h.repository, h.version, h.patch_version, h.base_patch_url, p + header_strings(h).len()),
        ),
{
    let b5 = net_string(h.repository);
    let b6 = net_string(version_text(h.version, false));
    let b7 = net_string(version_text(h.patch_version, true));
    let b8 = net_string(h.base_patch_url);
    lemma_holds_split(d, p, b5 + b6 + b7, b8);
    lemma_holds_split(d, p, b5 + b6, b7);
    lemma_holds_split(d, p, b5, b6);
    lemma_read_string(d, p, h.repository);
    lemma_read_string(d, p + b5.len(), version_text(h.version, false));
    lemma_version_text_parses(h.version, false);
    lemma_read_string(d, p + b5.len() + b6.len(), version_text(h.patch_version, true));
    lemma_version_text_parses(h.patch_version, true);
    lemma_read_string(d, p + b5.len() + b6.len() + b7.len(), h.base_patch_url);
}

proof fn lemma_header_rest(d: Seq<u8>, h: HeaderModel)
    requires
        header_fits(h),
        section_wf(h.version),
        section_wf(h.patch_version),
        h.compression == CompressType::Uncompressed ==> h.compressed_size == h.decompressed_size,
        holds_at(d, 4, header_tail(h)),
    ensures
        read_header_rest(d, 4, h.magic, h.file_version) == Ok::<(HeaderModel, int), ClutError>(
            (h, 4int + header_tail(h).len()),
        ),
{
    let b3 = le(compress_code(h.compression) as nat, 1);
    let b4 = le(platform_code(h.platform) as nat, 1);
    let strs = header_strings(h);
    let b9 = le_i32(h.decompressed_size);
    let b10 = if h.compression != CompressType::Uncompressed {
        le_i32(h.compressed_size)
    } else {
        Seq::empty()
    };
    assert(header_tail(h) == b3 + b4 + strs + b9 + b10);
    lemma_holds_split(d, 4, b3 + b4 + strs + b9, b10);
    lemma_holds_split(d, 4, b3 + b4 + strs, b9);
    lemma_holds_split(d, 4, b3 + b4, strs);
    lemma_holds_split(d, 4, b3, b4);
    lemma_read_u8(d, 4, compress_code(h.compression));
    lemma_read_u8(d, 5, platform_code(h.platform));
    lemma_header_strings(d, 6, h);
    lemma_read_i32(d, 6int + strs.len(), h.decompressed_size);
    if h.compression != CompressType::Uncompressed {
        lemma_read_i32(d, 6int + strs.len() + 4, h.compressed_size);
    }
}

/// A header written and read back is the header, for the revision this library reads.
pub proof fn lemma_header_round_trip(h: HeaderModel, rest: Seq<u8>)
    requires
        header_fits(h),
        h.magic == CLUT_MAGIC,
        h.file_version != Version::Initial,
        section_wf(h.version),
        section_wf(h.patch_version),
        h.compression == CompressType::Uncompressed ==> h.compressed_size == h.decompressed_size,
    ensures
        read_header_spec(header_bytes(h) + rest) == Ok::<(HeaderModel, int), ClutError>(
            (h, header_bytes(h).len() as int),
        ),
{
    let b1 = le_u16(h.magic);
    let b2 = le_u16(version_code(h.file_version));
    let t = header_tail(h);
    let d = header_bytes(h) + rest;
    assert(d =~= b1 + b2 + t + rest);
    assert(d.subrange(0, d.len() as int) =~= b1 + b2 + t + rest);
    crate::bytes::lemma_pow_values();
    crate::bytes::lemma_le(h.magic as nat, 2);
    crate::bytes::lemma_le(version_code(h.file_version) as nat, 2);
    lemma_holds_split(d, 0, b1 + b2 + t, rest);
    lemma_holds_split(d, 0, b1 + b2, t);
    lemma_holds_split(d, 0, b1, b2);
    lemma_read_u16(d, 0, h.magic);
    lemma_read_u16(d, 2, version_code(h.file_version));
    lemma_header_rest(d, h);
}

/// Where `v` goes in an ascending table: before the first entry it does not come after.
pub open spec fn insert_pos(t: Seq<VersionModel>, v: VersionModel) -> int
    decreases t.len(),
{
    if t.len() == 0 {
        0
    } else if insert_pos(t.drop_last(), v) < t.len() - 1 {
        insert_pos(t.drop_last(), v)
    } else if !older(t.last(), v) {
        t.len() - 1
    } else {
        t.len() as int
    }
}

proof fn lemma_insert_pos(t: Seq<VersionModel>, v: VersionModel)
    ensures
        0 <= insert_pos(t, v) <= t.len(),
        forall|j: int| 0 <= j < insert_pos(t, v) ==> older(#[trigger] t[j], v),
        insert_pos(t, v) < t.len() ==> !older(t[insert_pos(t, v)], v),
    decreases t.len(),
{
    if t.len() > 0 {
        lemma_insert_pos(t.drop_last(), v);
        assert forall|j: int| 0 <= j < insert_pos(t, v) implies older(#[trigger] t[j], v) by {
            if j < t.len() - 1 {
                assert(t[j] == t.drop_last()[j]);
            }
        }
    }
}

/// `t` with `v` in its place, unless it is already there.
pub open spec fn add_version(t: Seq<VersionModel>, v: VersionModel) -> Seq<VersionModel> {
    let k = insert_pos(t, v);
    if k < t.len() && t[k] == v {
        t
    } else {
        t.insert(k, v)
    }
}

/// `t` with the version of each of `refs` added, in order.
pub open spec fn add_versions(t: Seq<VersionModel>, refs: Seq<DataRefModel>) -> Seq<VersionModel>
    decreases refs.len(),
{
    if refs.len() == 0 {
        t
    } else {
        add_versions(add_version(t, refs[0].version), refs.drop_first())
    }
}

/// `t` with the versions of every file's references added, file after file.
pub open spec fn table_from(t: Seq<VersionModel>, files: Seq<Seq<DataRefModel>>) -> Seq<VersionModel>
    decreases files.len(),
{
    if files.len() == 0 {
        t
    } else {
        table_from(add_versions(t, files[0]), files.drop_first())
    }
}

/// The patch versions a CLUT's references were written by, ascending, each once.
pub open spec fn version_table(files: Seq<Seq<DataRefModel>>) -> Seq<VersionModel> {
    table_from(Seq::empty(), files)
}

proof fn lemma_add_version(t: Seq<VersionModel>, v: VersionModel)
    ensures
        add_version(t, v).contains(v),
        forall|x: VersionModel| t.contains(x) ==> add_version(t, v).contains(x),
{
    lemma_insert_pos(t, v);
    let k = insert_pos(t, v);
    if k < t.len() && t[k] == v {
        assert(t.contains(v));
    } else {
        let u = t.insert(k, v);
        assert(u[k] == v);
        assert forall|x: VersionModel| t.contains(x) implies u.contains(x) by {
            let j = choose|j: int| 0 <= j < t.len() && t[j] == x;
            if j < k {
                assert(u[j] == x);
            } else {
                assert(u[j + 1] == x);
            }
        }
    }
}

proof fn lemma_add_versions(t: Seq<VersionModel>, refs: Seq<DataRefModel>)
    ensures
        forall|x: VersionModel| t.contains(x) ==> add_versions(t, refs).contains(x),
        forall|i: int| 0 <= i < refs.len() ==> add_versions(t, refs).contains(#[trigger] refs[i].version),
    decreases refs.len(),
{
    if refs.len() > 0 {
        let t2 = add_version(t, refs[0].version);
        lemma_add_version(t, refs[0].version);
        lemma_add_versions(t2, refs.drop_first());
        assert forall|i: int| 0 <= i < refs.len() implies add_versions(t, refs).contains(
            #[trigger] refs[i].version,
        ) by {
            if i > 0 {
                assert(refs[i] == refs.drop_first()[i - 1]);
            }
        }
    }
}

/// Every version of every file's references is in the table.
pub proof fn lemma_table_from(t: Seq<VersionModel>, files: Seq<Seq<DataRefModel>>)
    ensures
        forall|x: VersionModel| t.contains(x) ==> table_from(t, files).contains(x),
        forall|f: int, i: int|
            0 <= f < files.len() && 0 <= i < files[f].len() ==> table_from(t, files).contains(
                #[trigger] files[f][i].version,
            ),
    decreases files.len(),
{
    if files.len() > 0 {
        let t2 = add_versions(t, files[0]);
        lemma_add_versions(t, files[0]);
        lemma_table_from(t2, files.drop_first());
        assert forall|f: int, i: int|
            0 <= f < files.len() && 0 <= i < files[f].len() implies table_from(t, files).contains(
                #[trigger] files[f][i].version,
            ) by {
            if f > 0 {
                assert(files[f] == files.drop_first()[f - 1]);
            }
        }
    }
}

/// The stored text of each version of a table.
pub open spec fn version_texts(t: Seq<VersionModel>) -> Seq<Seq<char>> {
    t.map_values(|v: VersionModel| version_text(v, true))
}

/// Every file's references, file after file.
pub open spec fn files_bytes(files: Seq<Seq<DataRefModel>>, table: Seq<VersionModel>) -> Seq<u8>
    decreases files.len(),
{
    if files.len() == 0 {
        Seq::empty()
    } else {
        file_data_bytes(files[0], table) + files_bytes(files.drop_first(), table)
    }
}

/// A CLUT's payload: the version table, the folder names, the file names, then each file's
/// references.
pub open spec fn payload_of(folders: Seq<Seq<char>>, paths: Seq<Seq<char>>, files: Seq<Seq<DataRefModel>>) -> Seq<u8> {
    let table = version_table(files);
    le_i32(table.len() as i32) + strings_bytes(version_texts(table)) + le_i32(folders.len() as i32)
        + strings_bytes(folders) + le_i32(paths.len() as i32) + strings_bytes(paths) + files_bytes(
        files,
        table,
    )
}

/// Put `v` in its place in an ascending table, unless it is already there.
pub(crate) fn add_version_exec(table: &mut Vec<PatchVersion>, v: &PatchVersion)
    ensures
        table_models(final(table)@) == add_version(table_models(old(table)@), v@),
{
    let ghost t = table_models(table@);
    proof {
        lemma_insert_pos(t, v@);
    }
    let mut k: usize = 0;
    while k < table.len() && table[k].0.compare(&v.0) < 0
        invariant
            t == table_models(table@),
            k <= table@.len(),
            forall|j: int| 0 <= j < k ==> older(#[trigger] t[j], v@),
            0 <= insert_pos(t, v@) <= t.len(),
            forall|j: int| 0 <= j < insert_pos(t, v@) ==> older(#[trigger] t[j], v@),
            insert_pos(t, v@) < t.len() ==> !older(t[insert_pos(t, v@)], v@),
        decreases table@.len() - k,
    {
        k = k + 1;
    }
    assert(k == insert_pos(t, v@)) by {
        let f = insert_pos(t, v@);
        if f < k {
            assert(older(t[f], v@));
        }
        if k < f {
            assert(older(t[k as int], v@));
        }
    }
    if k < table.len() && table[k] == *v {
        return;
    }
    table.insert(k, v.duplicate());
    assert(table_models(table@) =~= t.insert(k as int, v@));
}

/// The header a payload of `payload_len` bytes, packed with `kind` into `packed_len`
/// bytes, is written under: the builder's header with those sizes and this revision.
pub open spec fn wrapped_header(h: HeaderModel, kind: CompressType, payload_len: int, packed_len: int) -> HeaderModel {
    HeaderModel {
        file_version: Version::SeparateVersioning,
        compression: kind,
        decompressed_size: payload_len as i32,
        compressed_size: packed_len as i32,
        ..h
    }
}

/// A CLUT as read from a file: its header, its folders and its files, in the order the
/// file holds them.
#[derive(Debug)]
pub struct Clut {
    pub header: Header,
    pub folders: Vec<String>,
    pub files: Vec<FileEntry>,
}

/// A CLUT as plain values.
pub ghost struct ClutModel {
    pub header: HeaderModel,
    pub folders: Seq<Seq<char>>,
    pub files: Seq<(Seq<char>, Seq<DataRefModel>)>,
}

/// Each file's path and references.
pub open spec fn entry_models(files: Seq<FileEntry>) -> Seq<(Seq<char>, Seq<DataRefModel>)> {
    files.map_values(|f: FileEntry| (f.path@, ref_models(f.refs@)))
}

impl View for Clut {
    type V = ClutModel;

    open spec fn view(&self) -> ClutModel {
        ClutModel {
            header: self.header@,
            folders: str_views(self.folders@),
            files: entry_models(self.files@),
        }
    }
}

/// `n` patch versions from `p`, each parsed as it is read.
pub open spec fn dec_versions(d: Seq<u8>, p: int, n: nat) -> Result<(Seq<VersionModel>, int), ClutError>
    decreases n,
{
    if n == 0 {
        Ok((Seq::empty(), p))
    } else {
        match read_string_spec(d, p) {
            Err(e) => Err(ClutError::Decode(e)),
            Ok((text, q)) => match parse_version(text) {
                None => Err(ClutError::BadPatchVersion(version_error(text))),
                Some(v) => match dec_versions(d, q, (n - 1) as nat) {
                    Err(e) => Err(e),
                    Ok((rest, end)) => Ok((seq![v] + rest, end)),
                },
            },
        }
    }
}

/// The references of each of `paths` in turn, from `p`.
pub open spec fn dec_files(d: Seq<u8>, p: int, paths: Seq<Seq<char>>, table: Seq<VersionModel>) -> Result<(Seq<(Seq<char>, Seq<DataRefModel>)>, int), ClutError>
    decreases paths.len(),
{
    if paths.len() == 0 {
        Ok((Seq::empty(), p))
    } else {
        match dec_file_data(d, p, table) {
            Err(e) => Err(e),
            Ok((refs, q)) => match dec_files(d, q, paths.drop_first(), table) {
                Err(e) => Err(e),
                Ok((rest, end)) => Ok((seq![(paths[0], refs)] + rest, end)),
            },
        }
    }
}

/// A count at `p`, refused when negative.
pub open spec fn read_count_spec(d: Seq<u8>, p: int) -> Result<(i32, int), ClutError> {
    match read_i32_spec(d, p) {
        Err(e) => Err(ClutError::Decode(e)),
        Ok((n, q)) => if n < 0 {
            Err(ClutError::Decode(DecodeError::Negative))
        } else {
            Ok((n, q))
        },
    }
}

/// What a payload holds: the version table, the folders, then each named file's
/// references.
pub open spec fn read_payload_spec(d: Seq<u8>) -> Result<(Seq<Seq<char>>, Seq<(Seq<char>, Seq<DataRefModel>)>), ClutError> {
    match read_count_spec(d, 0) {
        Err(e) => Err(e),
        Ok((nv, p1)) => match dec_versions(d, p1, nv as nat) {
            Err(e) => Err(e),
            Ok((table, p2)) => match read_count_spec(d, p2) {
                Err(e) => Err(e),
                Ok((nf, p3)) => match dec_strings(d, p3, nf as nat) {
                    Err(e) => Err(ClutError::Decode(e)),
                    Ok((folders, p4)) => match read_count_spec(d, p4) {
                        Err(e) => Err(e),
                        Ok((np, p5)) => match dec_strings(d, p5, np as nat) {
                            Err(e) => Err(ClutError::Decode(e)),
                            Ok((paths, p6)) => match dec_files(d, p6, paths, table) {
                                Err(e) => Err(e),
                                Ok((files, _)) => Ok((folders, files)),
                            },
                        },
                    },
                },
            },
        },
    }
}

/// One chunk of a chunked payload inflated: it must lie inside the packed bytes and inflate
/// to the length the table gives.
pub open spec fn inflate_chunk(kind: CompressType, packed: Seq<u8>, c: ChunkSpan) -> Result<Seq<u8>, ClutError> {
    if c.compressed_offset + c.compressed_len > packed.len() {
        Err(ClutError::ChunkPastPayload)
    } else {
        match inflated(kind, packed.subrange(c.compressed_offset as int, c.compressed_offset + c.compressed_len)) {
            None => Err(ClutError::Codec),
            Some(b) => if b.len() != c.decompressed_len {
                Err(ClutError::SizeMismatch)
            } else {
                Ok(b)
            },
        }
    }
}

/// The chunks inflated one after the other and joined into one payload.
pub open spec fn inflate_chunks(kind: CompressType, packed: Seq<u8>, cs: Seq<ChunkSpan>) -> Result<Seq<u8>, ClutError>
    decreases cs.len(),
{
    if cs.len() == 0 {
        Ok(Seq::empty())
    } else {
        match inflate_chunks(kind, packed, cs.drop_last()) {
            Err(e) => Err(e),
            Ok(prev) => match inflate_chunk(kind, packed, cs.last()) {
                Err(e) => Err(e),
                Ok(b) => Ok(prev + b),
            },
        }
    }
}

/// The payload behind a header that ends at `p`: for a chunked CLUT, the index section and
/// then each chunk inflated in turn; otherwise the one packed stream inflated. Either way
/// `compressed_size` bytes are packed and the payload must be `decompressed_size` long.
pub open spec fn payload_spec(d: Seq<u8>, h: HeaderModel, p: int) -> Result<Seq<u8>, ClutError> {
    let start: Result<(Option<Seq<ChunkSpan>>, int), ClutError> = if h.file_version == Version::Indexed {
        match read_index_spec(d, p) {
            Err(e) => Err(e),
            Ok((idx, q)) => Ok((Some(idx.chunks), q)),
        }
    } else {
        Ok((None, p))
    };
    match start {
        Err(e) => Err(e),
        Ok((chunks, q)) => if h.compressed_size < 0 {
            Err(ClutError::Decode(DecodeError::Negative))
        } else if q + h.compressed_size > d.len() {
            Err(ClutError::Decode(DecodeError::Truncated))
        } else {
            let packed = d.subrange(q, q + h.compressed_size);
            match chunks {
                None => match inflated(h.compression, packed) {
                    None => Err(ClutError::Codec),
                    Some(payload) => if payload.len() != h.decompressed_size {
                        Err(ClutError::SizeMismatch)
                    } else {
                        Ok(payload)
                    },
                },
                Some(cs) => match inflate_chunks(h.compression, packed, cs) {
                    Err(e) => Err(e),
                    Ok(payload) => if payload.len() != h.decompressed_size {
                        Err(ClutError::SizeMismatch)
                    } else {
                        Ok(payload)
                    },
                },
            }
        },
    }
}

/// The CLUT a file holds: its header, then its payload, which holds the folders and files.
pub open spec fn read_clut_spec(d: Seq<u8>) -> Result<ClutModel, ClutError> {
    match read_header_spec(d) {
        Err(e) => Err(e),
        Ok((h, p)) => match payload_spec(d, h, p) {
            Err(e) => Err(e),
            Ok(payload) => match read_payload_spec(payload) {
                Err(e) => Err(e),
                Ok((folders, files)) => Ok(ClutModel { header: h, folders, files }),
            },
        },
    }
}

pub(crate) fn read_count(d: &[u8], p: usize) -> (r: Result<(i32, usize), ClutError>)
    ensures
        match r {
            Ok((n, q)) => read_count_spec(d@, p as int) == Ok::<(i32, int), ClutError>((n, q as int)),
            Err(e) => read_count_spec(d@, p as int) == Err::<(i32, int), ClutError>(e),
        },
{
    match read_i32(d, p) {
        Err(e) => Err(ClutError::Decode(e)),
        Ok((n, q)) => if n < 0 {
            Err(ClutError::Decode(DecodeError::Negative))
        } else {
            Ok((n, q))
        },
    }
}

pub(crate) fn read_versions(d: &[u8], p: usize, n: usize) -> (r: Result<(Vec<PatchVersion>, usize), ClutError>)
    ensures
        match r {
            Ok((t, q)) => dec_versions(d@, p as int, n as nat) == Ok::<(Seq<VersionModel>, int), ClutError>(
                (table_models(t@), q as int),
            ),
            Err(e) => dec_versions(d@, p as int, n as nat) == Err::<(Seq<VersionModel>, int), ClutError>(e),
        },
{
    let ghost total = dec_versions(d@, p as int, n as nat);
    let mut out: Vec<PatchVersion> = Vec::new();
    let mut q = p;
    let mut i: usize = 0;
    proof {
        assert(table_models(out@) =~= Seq::<VersionModel>::empty());
        match dec_versions(d@, q as int, (n - i) as nat) {
            Ok((rest, end)) => assert(table_models(out@) + rest =~= rest),
            Err(_) => {},
        }
    }
    while i < n
        invariant
            i <= n,
            total == dec_versions(d@, p as int, n as nat),
            total == match dec_versions(d@, q as int, (n - i) as nat) {
                Ok((rest, end)) => Ok::<(Seq<VersionModel>, int), ClutError>((table_models(out@) + rest, end)),
                Err(e) => Err(e),
            },
        decreases n - i,
    {
        let (text, q2) = match read_string(d, q) {
            Ok(x) => x,
            Err(e) => {
                return Err(ClutError::Decode(e));
            },
        };
        let v = match PatchVersion::new(text.as_str()) {
            Ok(v) => v,
            Err(e) => {
                return Err(ClutError::BadPatchVersion(e));
            },
        };
        let ghost before = table_models(out@);
        let ghost vm = v@;
        out.push(v);
        proof {
            assert(table_models(out@) =~= before.push(vm));
            match dec_versions(d@, q2 as int, (n - i - 1) as nat) {
                Ok((rest, end)) => assert(before + (seq![vm] + rest) =~= table_models(out@) + rest),
                Err(_) => {},
            }
        }
        q = q2;
        i = i + 1;
    }
    proof {
        assert(table_models(out@) + Seq::<VersionModel>::empty() =~= table_models(out@));
    }
    Ok((out, q))
}

fn read_files(d: &[u8], p: usize, paths: Vec<String>, table: &Vec<PatchVersion>) -> (r: Result<Vec<FileEntry>, ClutError>)
    ensures
        match r {
            Ok(files) => dec_files(d@, p as int, str_views(paths@), table_models(table@)) matches Ok((fs, _))
                && fs == entry_models(files@),
            Err(e) => dec_files(d@, p as int, str_views(paths@), table_models(table@)) matches Err(x) && x == e,
        },
{
    let ghost ps = str_views(paths@);
    let ghost tm = table_models(table@);
    let ghost total = dec_files(d@, p as int, ps, tm);
    let mut out: Vec<FileEntry> = Vec::new();
    let mut q = p;
    let mut i: usize = 0;
    proof {
        assert(ps.skip(0) =~= ps);
        assert(entry_models(out@) =~= Seq::<(Seq<char>, Seq<DataRefModel>)>::empty());
        match dec_files(d@, q as int, ps.skip(i as int), tm) {
            Ok((rest, end)) => assert(entry_models(out@) + rest =~= rest),
            Err(_) => {},
        }
    }
    while i < paths.len()
        invariant
            ps == str_views(paths@),
            tm == table_models(table@),
            i <= paths@.len(),
            total == dec_files(d@, p as int, ps, tm),
            total == match dec_files(d@, q as int, ps.skip(i as int), tm) {
                Ok((rest, end)) => Ok::<(Seq<(Seq<char>, Seq<DataRefModel>)>, int), ClutError>(
                    (entry_models(out@) + rest, end),
                ),
                Err(e) => Err(e),
            },
        decreases paths@.len() - i,
    {
        proof {
            assert(ps.skip(i as int)[0] == paths@[i as int]@);
            assert(ps.skip(i as int).drop_first() =~= ps.skip(i + 1));
        }
        let (refs, q2) = match FileData::read_with_patches(d, q, table) {
            Ok(x) => x,
            Err(e) => {
                return Err(e);
            },
        };
        let ghost before = entry_models(out@);
        let entry = FileEntry { path: paths[i].clone(), refs };
        let ghost em = (entry.path@, ref_models(entry.refs@));
        out.push(entry);
        proof {
            assert(entry_models(out@) =~= before.push(em));
            match dec_files(d@, q2 as int, ps.skip(i + 1), tm) {
                Ok((rest, end)) => assert(before + (seq![em] + rest) =~= entry_models(out@) + rest),
                Err(_) => {},
            }
        }
        q = q2;
        i = i + 1;
    }
    proof {
        assert(ps.skip(paths@.len() as int) =~= Seq::<Seq<char>>::empty());
        assert(entry_models(out@) + Seq::<(Seq<char>, Seq<DataRefModel>)>::empty() =~= entry_models(out@));
    }
    Ok(out)
}

impl Clut {
    /// An empty CLUT under the default header.
    pub fn new() -> (c: Clut)
        ensures
            c@.header == Header::default_model(),
            c@.folders.len() == 0,
            c@.files.len() == 0,
    {
        let c = Clut { header: Header::default(), folders: Vec::new(), files: Vec::new() };
        assert(c@.folders =~= Seq::<Seq<char>>::empty());
        assert(c@.files =~= Seq::<(Seq<char>, Seq<DataRefModel>)>::empty());
        c
    }

    /// The folders and files a payload holds.
    pub fn read_payload(d: &[u8]) -> (r: Result<(Vec<String>, Vec<FileEntry>), ClutError>)
        ensures
            match r {
                Ok((folders, files)) => read_payload_spec(d@) == Ok::<
                    (Seq<Seq<char>>, Seq<(Seq<char>, Seq<DataRefModel>)>),
                    ClutError,
                >((str_views(folders@), entry_models(files@))),
                Err(e) => read_payload_spec(d@) == Err::<
                    (Seq<Seq<char>>, Seq<(Seq<char>, Seq<DataRefModel>)>),
                    ClutError,
                >(e),
            },
    {
        let (nv, p1) = match read_count(d, 0) {
            Ok(x) => x,
            Err(e) => {
                return Err(e);
            },
        };
        let (table, p2) = match read_versions(d, p1, nv as usize) {
            Ok(x) => x,
            Err(e) => {
                return Err(e);
            },
        };
        let (nf, p3) = match read_count(d, p2) {
            Ok(x) => x,
            Err(e) => {
                return Err(e);
            },
        };
        let (folders, p4) = match read_names(d, p3, nf) {
            Ok(x) => x,
            Err(e) => {
                return Err(ClutError::Decode(e));
            },
        };
        let (np, p5) = match read_count(d, p4) {
            Ok(x) => x,
            Err(e) => {
                return Err(e);
            },
        };
        let (paths, p6) = match read_names(d, p5, np) {
            Ok(x) => x,
            Err(e) => {
                return Err(ClutError::Decode(e));
            },
        };
        match read_files(d, p6, paths, &table) {
            Ok(files) => Ok((folders, files)),
            Err(e) => Err(e),
        }
    }

    /// The CLUT a file holds.
    pub fn read(bytes: &[u8]) -> (r: Result<Clut, ClutError>)
        ensures
            match r {
                Ok(c) => read_clut_spec(bytes@) == Ok::<ClutModel, ClutError>(c@),
                Err(e) => read_clut_spec(bytes@) == Err::<ClutModel, ClutError>(e),
            },
    {
        let (header, payload) = match decompress(bytes) {
            Ok(x) => x,
            Err(e) => {
                return Err(e);
            },
        };
        match Clut::read_payload(payload.as_slice()) {
            Ok((folders, files)) => Ok(Clut { header, folders, files }),
            Err(e) => Err(e),
        }
    }
}

/// The chunks of a chunked payload inflated and joined.
pub fn inflate_all(kind: CompressType, packed: &[u8], chunks: &Vec<ChunkSpan>) -> (r: Result<Vec<u8>, ClutError>)
    ensures
        match r {
            Ok(b) => inflate_chunks(kind, packed@, chunks@) == Ok::<Seq<u8>, ClutError>(b@),
            Err(e) => inflate_chunks(kind, packed@, chunks@) == Err::<Seq<u8>, ClutError>(e),
        },
{
    let mut out: Vec<u8> = Vec::new();
    let mut i: usize = 0;
    while i < chunks.len()
        invariant
            i <= chunks@.len(),
            inflate_chunks(kind, packed@, chunks@.take(i as int)) == Ok::<Seq<u8>, ClutError>(out@),
        decreases chunks@.len() - i,
    {
        proof {
            assert(chunks@.take(i + 1).drop_last() =~= chunks@.take(i as int));
        }
        let b = match crate::clut_lazy::inflate_span(kind, packed, chunks[i]) {
            Ok(b) => b,
            Err(e) => {
                proof {
                    lemma_inflate_chunks_err(kind, packed@, chunks@, i + 1);
                }
                return Err(e);
            },
        };
        push_bytes(&mut out, b.as_slice());
        i = i + 1;
    }
    assert(chunks@.take(i as int) =~= chunks@);
    Ok(out)
}

proof fn lemma_inflate_chunks_err(kind: CompressType, packed: Seq<u8>, cs: Seq<ChunkSpan>, j: int)
    requires
        0 <= j <= cs.len(),
        inflate_chunks(kind, packed, cs.take(j)) is Err,
    ensures
        inflate_chunks(kind, packed, cs) == inflate_chunks(kind, packed, cs.take(j)),
    decreases cs.len() - j,
{
    if j < cs.len() {
        assert(cs.take(j + 1).drop_last() =~= cs.take(j));
        lemma_inflate_chunks_err(kind, packed, cs, j + 1);
    } else {
        assert(cs.take(j) =~= cs);
    }
}

/// The payload behind a header that ends at `p`.
pub fn decompress_payload(bytes: &[u8], header: &Header, p: usize) -> (r: Result<Vec<u8>, ClutError>)
    ensures
        match r {
            Ok(b) => payload_spec(bytes@, header@, p as int) == Ok::<Seq<u8>, ClutError>(b@),
            Err(e) => payload_spec(bytes@, header@, p as int) == Err::<Seq<u8>, ClutError>(e),
        },
{
    let (chunks, q) = if header.file_version == Version::Indexed {
        match Index::read(bytes, p) {
            Ok((idx, q)) => (Some(idx.chunks), q),
            Err(e) => {
                return Err(e);
            },
        }
    } else {
        (None, p)
    };
    if header.compressed_size < 0 {
        return Err(ClutError::Decode(DecodeError::Negative));
    }
    let size = header.compressed_size as usize;
    if q > bytes.len() || size > bytes.len() - q {
        return Err(ClutError::Decode(DecodeError::Truncated));
    }
    let packed = vstd::slice::slice_subrange(bytes, q, q + size);
    let payload = match chunks {
        None => match inflate(header.compression, packed) {
            Some(v) => v,
            None => {
                return Err(ClutError::Codec);
            },
        },
        Some(cs) => match inflate_all(header.compression, packed, &cs) {
            Ok(v) => v,
            Err(e) => {
                return Err(e);
            },
        },
    };
    if header.decompressed_size < 0 || payload.len() != header.decompressed_size as usize {
        return Err(ClutError::SizeMismatch);
    }
    Ok(payload)
}

/// The header of a CLUT file and its payload, a chunked one reassembled into one stream.
pub fn decompress(bytes: &[u8]) -> (r: Result<(Header, Vec<u8>), ClutError>)
    ensures
        match r {
            Ok((h, b)) => read_header_spec(bytes@) matches Ok((hm, p)) && hm == h@ && payload_spec(
                bytes@,
                hm,
                p,
            ) == Ok::<Seq<u8>, ClutError>(b@),
            Err(e) => match read_header_spec(bytes@) {
                Err(e2) => e == e2,
                Ok((hm, p)) => payload_spec(bytes@, hm, p) == Err::<Seq<u8>, ClutError>(e),
            },
        },
{
    let (header, p) = match read_header(bytes) {
        Ok(x) => x,
        Err(e) => {
            return Err(e);
        },
    };
    match decompress_payload(bytes, &header, p) {
        Ok(payload) => Ok((header, payload)),
        Err(e) => Err(e),
    }
}

/// Each path with its references.
pub open spec fn zip_files(paths: Seq<Seq<char>>, files: Seq<Seq<DataRefModel>>) -> Seq<(Seq<char>, Seq<DataRefModel>)> {
    Seq::new(paths.len(), |i: int| (paths[i], files[i]))
}

proof fn lemma_add_version_members(t: Seq<VersionModel>, v: VersionModel)
    ensures
        forall|x: VersionModel| add_version(t, v).contains(x) ==> t.contains(x) || x == v,
{
    lemma_insert_pos(t, v);
    let k = insert_pos(t, v);
    if !(k < t.len() && t[k] == v) {
        let u = t.insert(k, v);
        assert forall|x: VersionModel| u.contains(x) implies t.contains(x) || x == v by {
            let j = choose|j: int| 0 <= j < u.len() && u[j] == x;
            if j < k {
                assert(t[j] == x);
            } else if j > k {
                assert(t[j - 1] == x);
            }
        }
    }
}

/// Whether `v` is the version of one of the references of `files`.
pub open spec fn used_version(files: Seq<Seq<DataRefModel>>, v: VersionModel) -> bool {
    exists|f: int, i: int| 0 <= f < files.len() && 0 <= i < files[f].len() && #[trigger] files[f][i].version == v
}

proof fn lemma_add_versions_members(t: Seq<VersionModel>, refs: Seq<DataRefModel>)
    ensures
        forall|x: VersionModel|
            add_versions(t, refs).contains(x) ==> t.contains(x) || exists|i: int|
                0 <= i < refs.len() && #[trigger] refs[i].version == x,
    decreases refs.len(),
{
    if refs.len() > 0 {
        let t2 = add_version(t, refs[0].version);
        lemma_add_version_members(t, refs[0].version);
        lemma_add_versions_members(t2, refs.drop_first());
        assert forall|x: VersionModel| add_versions(t, refs).contains(x) implies t.contains(x) || exists|i: int|
            0 <= i < refs.len() && #[trigger] refs[i].version == x by {
            if !t.contains(x) {
                if t2.contains(x) {
                    assert(refs[0].version == x);
                } else {
                    let i = choose|i: int| 0 <= i < refs.drop_first().len() && #[trigger] refs.drop_first()[i].version == x;
                    assert(refs[i + 1].version == x);
                }
            }
        }
    }
}

/// The table holds no version that no reference was written by.
pub proof fn lemma_table_members(t: Seq<VersionModel>, files: Seq<Seq<DataRefModel>>)
    ensures
        forall|x: VersionModel| table_from(t, files).contains(x) ==> t.contains(x) || used_version(files, x),
    decreases files.len(),
{
    if files.len() > 0 {
        let t2 = add_versions(t, files[0]);
        lemma_add_versions_members(t, files[0]);
        lemma_table_members(t2, files.drop_first());
        assert forall|x: VersionModel| table_from(t, files).contains(x) implies t.contains(x) || used_version(files, x) by {
            if !t.contains(x) {
                if t2.contains(x) {
                    let i = choose|i: int| 0 <= i < files[0].len() && #[trigger] files[0][i].version == x;
                    assert(files[0][i].version == x);
                } else {
                    let (f, i) = choose|f: int, i: int|
                        0 <= f < files.drop_first().len() && 0 <= i < files.drop_first()[f].len()
                            && #[trigger] files.drop_first()[f][i].version == x;
                    assert(files[f + 1][i].version == x);
                }
            }
        }
    }
}

pub(crate) proof fn lemma_dec_versions(d: Seq<u8>, p: int, t: Seq<VersionModel>)
    requires
        forall|i: int| 0 <= i < t.len() ==> section_wf(#[trigger] t[i]),
        forall|i: int| 0 <= i < t.len() ==> string_fits(#[trigger] version_texts(t)[i]),
        holds_at(d, p, strings_bytes(version_texts(t))),
    ensures
        dec_versions(d, p, t.len()) == Ok::<(Seq<VersionModel>, int), ClutError>(
            (t, p + strings_bytes(version_texts(t)).len()),
        ),
    decreases t.len(),
{
    if t.len() == 0 {
        assert(t =~= Seq::<VersionModel>::empty());
    } else {
        let texts = version_texts(t);
        let rest = t.drop_first();
        assert(texts.drop_first() =~= version_texts(rest));
        lemma_holds_split(d, p, net_string(texts[0]), strings_bytes(texts.drop_first()));
        lemma_read_string(d, p, texts[0]);
        assert(section_wf(t[0]));
        lemma_version_text_parses(t[0], true);
        assert forall|i: int| 0 <= i < rest.len() implies section_wf(#[trigger] rest[i]) by {
            assert(rest[i] == t[i + 1]);
        }
        assert forall|i: int| 0 <= i < rest.len() implies string_fits(#[trigger] version_texts(rest)[i]) by {
            assert(version_texts(rest)[i] == texts[i + 1]);
        }
        lemma_dec_versions(d, p + net_string(texts[0]).len(), rest);
        assert(seq![t[0]] + rest =~= t);
    }
}

pub(crate) proof fn lemma_dec_files(d: Seq<u8>, p: int, paths: Seq<Seq<char>>, files: Seq<Seq<DataRefModel>>, table: Seq<VersionModel>)
    requires
        paths.len() == files.len(),
        forall|i: int| 0 <= i < files.len() ==> refs_storable(#[trigger] files[i], table),
        holds_at(d, p, files_bytes(files, table)),
    ensures
        dec_files(d, p, paths, table) == Ok::<(Seq<(Seq<char>, Seq<DataRefModel>)>, int), ClutError>(
            (zip_files(paths, files), p + files_bytes(files, table).len()),
        ),
    decreases files.len(),
{
    if files.len() == 0 {
        assert(zip_files(paths, files) =~= Seq::<(Seq<char>, Seq<DataRefModel>)>::empty());
    } else {
        let a = file_data_bytes(files[0], table);
        lemma_holds_split(d, p, a, files_bytes(files.drop_first(), table));
        assert(refs_storable(files[0], table));
        lemma_file_data_round_trip(d, p, files[0], table);
        assert forall|i: int| 0 <= i < files.drop_first().len() implies refs_storable(
            #[trigger] files.drop_first()[i],
            table,
        ) by {
            assert(files.drop_first()[i] == files[i + 1]);
        }
        lemma_dec_files(d, p + a.len(), paths.drop_first(), files.drop_first(), table);
        assert(zip_files(paths, files) =~= seq![(paths[0], files[0])] + zip_files(
            paths.drop_first(),
            files.drop_first(),
        ));
    }
}

/// Whether a CLUT's references can be read back as they are: their versions print and
/// parse back unchanged, their offsets fit signed deltas, no patch offset of zero is kept,
/// and each file's count fits.
pub open spec fn refs_readable(files: Seq<Seq<DataRefModel>>) -> bool {
    forall|f: int, i: int|
        0 <= f < files.len() && 0 <= i < files[f].len() ==> section_wf(#[trigger] files[f][i].version)
            && files[f][i].offset <= i64::MAX && patch_storable(files[f][i].kind)
}

/// Whether a payload's counts and strings fit the format.
pub open spec fn content_fits(folders: Seq<Seq<char>>, paths: Seq<Seq<char>>, files: Seq<Seq<DataRefModel>>) -> bool {
    &&& folders.len() <= i32::MAX
    &&& paths.len() <= i32::MAX
    &&& paths.len() == files.len()
    &&& version_table(files).len() <= i32::MAX
    &&& forall|i: int| 0 <= i < folders.len() ==> string_fits(#[trigger] folders[i])
    &&& forall|i: int| 0 <= i < paths.len() ==> string_fits(#[trigger] paths[i])
    &&& forall|i: int|
        0 <= i < version_table(files).len() ==> string_fits(#[trigger] version_texts(version_table(files))[i])
    &&& forall|i: int| 0 <= i < files.len() ==> (#[trigger] files[i]).len() <= i32::MAX
}

proof fn lemma_table_readable(files: Seq<Seq<DataRefModel>>)
    requires
        refs_readable(files),
        version_table(files).len() <= i32::MAX,
        forall|i: int| 0 <= i < files.len() ==> (#[trigger] files[i]).len() <= i32::MAX,
    ensures
        forall|i: int| 0 <= i < version_table(files).len() ==> section_wf(#[trigger] version_table(files)[i]),
        forall|f: int| 0 <= f < files.len() ==> refs_storable(#[trigger] files[f], version_table(files)),
{
    let table = version_table(files);
    lemma_table_from(Seq::empty(), files);
    lemma_table_members(Seq::empty(), files);
    assert forall|i: int| 0 <= i < table.len() implies section_wf(#[trigger] table[i]) by {
        assert(table.contains(table[i]));
        assert(used_version(files, table[i]));
        let (f, j) = choose|f: int, j: int| 0 <= f < files.len() && 0 <= j < files[f].len() && #[trigger] files[f][j].version == table[i];
        assert(section_wf(files[f][j].version));
    }
    assert forall|f: int| 0 <= f < files.len() implies refs_storable(#[trigger] files[f], table) by {
        assert forall|i: int| 0 <= i < files[f].len() implies table.contains(#[trigger] files[f][i].version) by {}
        assert forall|i: int| 0 <= i < files[f].len() implies #[trigger] files[f][i].offset <= i64::MAX by {
            assert(section_wf(files[f][i].version));
        }
        assert forall|i: int| 0 <= i < files[f].len() implies patch_storable(#[trigger] files[f][i].kind) by {
            assert(section_wf(files[f][i].version));
        }
    }
}

/// A payload written and read back gives the folders and each file's references.
pub proof fn lemma_payload_round_trip(folders: Seq<Seq<char>>, paths: Seq<Seq<char>>, files: Seq<Seq<DataRefModel>>)
    requires
        content_fits(folders, paths, files),
        refs_readable(files),
    ensures
        read_payload_spec(payload_of(folders, paths, files)) == Ok::<
            (Seq<Seq<char>>, Seq<(Seq<char>, Seq<DataRefModel>)>),
            ClutError,
        >((folders, zip_files(paths, files))),
{
    let table = version_table(files);
    lemma_table_readable(files);
    let b1 = le_i32(table.len() as i32);
    let b2 = strings_bytes(version_texts(table));
    let b3 = le_i32(folders.len() as i32);
    let b4 = strings_bytes(folders);
    let b5 = le_i32(paths.len() as i32);
    let b6 = strings_bytes(paths);
    let b7 = files_bytes(files, table);
    let d = payload_of(folders, paths, files);
    assert(d == b1 + b2 + b3 + b4 + b5 + b6 + b7);
    assert(d.subrange(0, d.len() as int) =~= d);
    lemma_holds_split(d, 0, b1 + b2 + b3 + b4 + b5 + b6, b7);
    lemma_holds_split(d, 0, b1 + b2 + b3 + b4 + b5, b6);
    lemma_holds_split(d, 0, b1 + b2 + b3 + b4, b5);
    lemma_holds_split(d, 0, b1 + b2 + b3, b4);
    lemma_holds_split(d, 0, b1 + b2, b3);
    lemma_holds_split(d, 0, b1, b2);
    lemma_read_i32(d, 0, table.len() as i32);
    lemma_dec_versions(d, 4, table);
    let p2: int = 4int + b2.len();
    lemma_read_i32(d, p2, folders.len() as i32);
    lemma_dec_strings(d, p2 + 4, folders);
    let p4: int = p2 + 4 + b4.len();
    lemma_read_i32(d, p4, paths.len() as i32);
    lemma_dec_strings(d, p4 + 4, paths);
    let p6: int = p4 + 4 + b6.len();
    lemma_dec_files(d, p6, paths, files, table);
}

/// A CLUT written and read back holds what was written: the header, at the revision and
/// sizes of the write, the folders, and each file's references.
#[verifier::rlimit(40)]
pub proof fn lemma_clut_round_trip(
    h: HeaderModel,
    kind: CompressType,
    folders: Seq<Seq<char>>,
    paths: Seq<Seq<char>>,
    files: Seq<Seq<DataRefModel>>,
)
    requires
        header_fits(h),
        h.magic == CLUT_MAGIC,
        section_wf(h.version),
        section_wf(h.patch_version),
        content_fits(folders, paths, files),
        refs_readable(files),
        payload_of(folders, paths, files).len() <= i32::MAX,
        compressed(kind, payload_of(folders, paths, files)).len() <= i32::MAX,
        inflated(kind, compressed(kind, payload_of(folders, paths, files))) == Some(
            payload_of(folders, paths, files),
        ),
    ensures
        read_clut_spec(
            header_bytes(
                wrapped_header(
                    h,
                    kind,
                    payload_of(folders, paths, files).len() as int,
                    compressed(kind, payload_of(folders, paths, files)).len() as int,
                ),
            ) + compressed(kind, payload_of(folders, paths, files)),
        ) == Ok::<ClutModel, ClutError>(
            ClutModel {
                header: wrapped_header(
                    h,
                    kind,
                    payload_of(folders, paths, files).len() as int,
                    compressed(kind, payload_of(folders, paths, files)).len() as int,
                ),
                folders,
                files: zip_files(paths, files),
            },
        ),
{
    let pl = payload_of(folders, paths, files);
    let c = compressed(kind, pl);
    let wh = wrapped_header(h, kind, pl.len() as int, c.len() as int);
    let hb = header_bytes(wh);
    let d = hb + c;
    assert(header_fits(wh));
    assert(kind == CompressType::Uncompressed ==> c == pl);
    lemma_header_round_trip(wh, c);
    assert(read_header_spec(d) == Ok::<(HeaderModel, int), ClutError>((wh, hb.len() as int)));
    assert(wh.compressed_size == c.len());
    assert(wh.decompressed_size == pl.len());
    assert(d.subrange(hb.len() as int, (hb.len() + c.len()) as int) =~= c);
    lemma_payload_round_trip(folders, paths, files);
}

} // verus!
