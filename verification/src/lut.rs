use vstd::prelude::*;

use crate::bytes::{
    lemma_holds_split, lemma_read_i32, lemma_read_u16, lemma_read_u8, DecodeError, holds_at, le_u16, push_u16,
    read_u16, read_u16_spec, le, le_i32, lemma_pow_values, lemma_read_string, net_string, push_bytes, push_i32,
    push_net_string, push_u8, read_i32, read_i32_spec, read_string, read_string_spec, read_u8, read_u8_spec,
    string_fits, i32_bits, u32_signed,
};
use crate::chunk::{
    Chunk, ChunkModel, ChunkType, CompressedBlock, FileHeader, FileHeaderModel, chunk_type_code, chunk_type_of,
    lemma_chunk_type_code,
};
use crate::fields::{
    Field, FieldKind, FieldModel, dec_fields, enc_fields, field_fits, field_kind, field_models, kinds,
    lemma_dec_fields, lemma_dec_fields_kinds, read_fields, write_fields,
};
use crate::names::{find_name, insert_name, lemma_insert_sorted, name_set, placed, sorted_names, str_views};
use crate::order::{lemma_lex_asymmetric, lemma_lex_irreflexive, lemma_lex_transitive, lex_less};
use crate::clut::{CompressType, compress_code, compress_of};
use crate::codec::{compress_chunk, compressed, inflate, inflated};
use crate::version::{PatchVersion, VersionError, VersionModel, lemma_version_text_parses, parse_version, section_wf, version_error, version_text};

verus! {

/// One patch's chunks, with the data they reference left in the patch file.
#[derive(Debug)]
pub struct Lut {
    pub compression: crate::clut::CompressType,
    pub repository: String,
    pub version: crate::version::PatchVersion,
    pub chunks: Vec<Chunk>,
}

/// Why a LUT could not be read.
#[derive(Debug, Clone, Copy, PartialEq, Eq, Structural)]
pub enum LutError {
    /// The bytes end early, or hold a malformed number or string.
    Decode(DecodeError),
    /// A chunk that names a path has no name.
    MissingName,
    /// The file does not start with the LUT magic.
    BadMagic,
    /// The file is a LUT version this library does not read.
    BadVersion,
    /// The compression byte names no codec.
    BadCompression,
    /// A chunk's kind byte names no chunk kind.
    BadKind,
    /// A chunk names a name-table entry that does not exist.
    BadNameIndex,
    /// The header's patch version is not a version.
    BadPatchVersion(VersionError),
    /// The payload did not decompress.
    Codec,
}

/// The kind a chunk is stored under.
pub open spec fn lut_kind(c: ChunkModel) -> ChunkType {
    match c {
        ChunkModel::FileHeader(_) => ChunkType::FileHeader,
        ChunkModel::ApplyOption { .. } => ChunkType::ApplyOption,
        ChunkModel::ApplyFreeSpace { .. } => ChunkType::ApplyFreeSpace,
        ChunkModel::AddDirectory(_) => ChunkType::AddDirectory,
        ChunkModel::DeleteDirectory(_) => ChunkType::DeleteDirectory,
        ChunkModel::EndOfFile => ChunkType::EndOfFile,
        ChunkModel::Xxxx => ChunkType::Xxxx,
        ChunkModel::SqpkAddData { .. } => ChunkType::SqpkAddData,
        ChunkModel::SqpkDeleteData { .. } => ChunkType::SqpkDeleteData,
        ChunkModel::SqpkExpandData { .. } => ChunkType::SqpkExpandData,
        ChunkModel::SqpkHeader { .. } => ChunkType::SqpkHeader,
        ChunkModel::SqpkIndex => ChunkType::SqpkIndex,
        ChunkModel::SqpkPatchInfo { .. } => ChunkType::SqpkPatchInfo,
        ChunkModel::SqpkTargetInfo { .. } => ChunkType::SqpkTargetInfo,
        ChunkModel::SqpkFileAdd { .. } => ChunkType::SqpkFileAdd,
        ChunkModel::SqpkFileDelExpac { .. } => ChunkType::SqpkFileDelExpac,
        ChunkModel::SqpkFileDelete { .. } => ChunkType::SqpkFileDelete,
        ChunkModel::SqpkFileMkdir { .. } => ChunkType::SqpkFileMkdir,
    }
}

/// The path a chunk names, which a LUT keeps in its shared name table.
pub open spec fn lut_names(c: ChunkModel) -> Seq<Seq<char>> {
    match c {
        ChunkModel::AddDirectory(d) => seq![d],
        ChunkModel::DeleteDirectory(d) => seq![d],
        ChunkModel::SqpkAddData { target, .. } => seq![target],
        ChunkModel::SqpkDeleteData { target, .. } => seq![target],
        ChunkModel::SqpkExpandData { target, .. } => seq![target],
        ChunkModel::SqpkHeader { target, .. } => seq![target],
        ChunkModel::SqpkFileAdd { target, .. } => seq![target],
        ChunkModel::SqpkFileDelete { target } => seq![target],
        ChunkModel::SqpkFileMkdir { target } => seq![target],
        _ => Seq::empty(),
    }
}

/// The fields a chunk's LUT record carries, in order.
pub open spec fn lut_fields(c: ChunkModel) -> Seq<FieldModel> {
    match c {
        ChunkModel::ApplyOption { kind, value } => seq![FieldModel::Byte(kind), FieldModel::Flag(value)],
        ChunkModel::FileHeader(h) => seq![
            FieldModel::Byte(h.version),
            FieldModel::Text(h.patch_type),
            FieldModel::U32(h.entry_files),
            FieldModel::U32(h.add_directories),
            FieldModel::U32(h.delete_directories),
            FieldModel::I64(h.delete_data_size),
            FieldModel::U32(h.minor_version),
            FieldModel::U32(h.repository_name),
            FieldModel::U32(h.commands),
            FieldModel::U32(h.sqpk_add_commands),
            FieldModel::U32(h.sqpk_delete_commands),
            FieldModel::U32(h.sqpk_expand_commands),
            FieldModel::U32(h.sqpk_header_commands),
            FieldModel::U32(h.sqpk_file_commands),
        ],
        ChunkModel::SqpkAddData { block_offset, block_number, block_delete_number, patch_offset, .. } => seq![
            FieldModel::I64(block_offset),
            FieldModel::I64(block_number),
            FieldModel::I64(block_delete_number),
            FieldModel::I64(patch_offset),
        ],
        ChunkModel::SqpkDeleteData { block_offset, block_number, .. } => seq![
            FieldModel::I64(block_offset),
            FieldModel::I64(block_number),
        ],
        ChunkModel::SqpkExpandData { block_offset, block_number, .. } => seq![
            FieldModel::I64(block_offset),
            FieldModel::I64(block_number),
        ],
        ChunkModel::SqpkHeader { header_kind, patch_offset, .. } => seq![
            FieldModel::Byte(header_kind),
            FieldModel::I64(patch_offset),
        ],
        ChunkModel::SqpkPatchInfo { status, version, install_size } => seq![
            FieldModel::Byte(status),
            FieldModel::Byte(version),
            FieldModel::U64(install_size),
        ],
        ChunkModel::SqpkTargetInfo { platform, region, is_debug, version, deleted_data_size, seek_count } => seq![
            FieldModel::U16(platform),
            FieldModel::I16(region),
            FieldModel::Flag(is_debug),
            FieldModel::U16(version),
            FieldModel::U64(deleted_data_size),
            FieldModel::U64(seek_count),
        ],
        ChunkModel::SqpkFileAdd { file_offset, blocks, .. } => seq![
            FieldModel::I64(file_offset),
            FieldModel::Blocks(blocks),
        ],
        ChunkModel::SqpkFileDelExpac { expansion_id } => seq![FieldModel::U16(expansion_id)],
        _ => Seq::empty(),
    }
}

/// Whether a chunk of this kind names a path.
pub open spec fn named(k: ChunkType) -> bool {
    match k {
        ChunkType::AddDirectory | ChunkType::DeleteDirectory | ChunkType::SqpkAddData | ChunkType::SqpkDeleteData
        | ChunkType::SqpkExpandData | ChunkType::SqpkHeader | ChunkType::SqpkFileAdd | ChunkType::SqpkFileDelete
        | ChunkType::SqpkFileMkdir => true,
        _ => false,
    }
}

/// The field kinds a record of this chunk kind holds.
pub open spec fn shape(k: ChunkType) -> Seq<FieldKind> {
    match k {
        ChunkType::ApplyOption => seq![FieldKind::Byte, FieldKind::Flag],
        ChunkType::FileHeader => seq![
            FieldKind::Byte,
            FieldKind::Text,
            FieldKind::U32,
            FieldKind::U32,
            FieldKind::U32,
            FieldKind::I64,
            FieldKind::U32,
            FieldKind::U32,
            FieldKind::U32,
            FieldKind::U32,
            FieldKind::U32,
            FieldKind::U32,
            FieldKind::U32,
            FieldKind::U32,
        ],
        ChunkType::SqpkAddData => seq![FieldKind::I64, FieldKind::I64, FieldKind::I64, FieldKind::I64],
        ChunkType::SqpkDeleteData => seq![FieldKind::I64, FieldKind::I64],
        ChunkType::SqpkExpandData => seq![FieldKind::I64, FieldKind::I64],
        ChunkType::SqpkHeader => seq![FieldKind::Byte, FieldKind::I64],
        ChunkType::SqpkPatchInfo => seq![FieldKind::Byte, FieldKind::Byte, FieldKind::U64],
        ChunkType::SqpkTargetInfo => seq![
            FieldKind::U16,
            FieldKind::I16,
            FieldKind::Flag,
            FieldKind::U16,
            FieldKind::U64,
            FieldKind::U64,
        ],
        ChunkType::SqpkFileAdd => seq![FieldKind::I64, FieldKind::Blocks],
        ChunkType::SqpkFileDelExpac => seq![FieldKind::U16],
        _ => Seq::empty(),
    }
}

/// The chunk a record of kind `k`, naming `name`, with fields `fs` stands for. An
/// `ApplyFreeSpace` record carries nothing, so it reads back with zero fields.
pub open spec fn build(k: ChunkType, name: Seq<char>, fs: Seq<FieldModel>) -> ChunkModel {
    match k {
        ChunkType::AddDirectory => ChunkModel::AddDirectory(name),
        ChunkType::DeleteDirectory => ChunkModel::DeleteDirectory(name),
        ChunkType::ApplyFreeSpace => ChunkModel::ApplyFreeSpace { unknown_a: 0, unknown_b: 0 },
        ChunkType::EndOfFile => ChunkModel::EndOfFile,
        ChunkType::Xxxx => ChunkModel::Xxxx,
        ChunkType::SqpkIndex => ChunkModel::SqpkIndex,
        ChunkType::ApplyOption => ChunkModel::ApplyOption { kind: fs[0]->Byte_0, value: fs[1]->Flag_0 },
        ChunkType::FileHeader => ChunkModel::FileHeader(
            FileHeaderModel {
                version: fs[0]->Byte_0,
                patch_type: fs[1]->Text_0,
                entry_files: fs[2]->U32_0,
                add_directories: fs[3]->U32_0,
                delete_directories: fs[4]->U32_0,
                delete_data_size: fs[5]->I64_0,
                minor_version: fs[6]->U32_0,
                repository_name: fs[7]->U32_0,
                commands: fs[8]->U32_0,
                sqpk_add_commands: fs[9]->U32_0,
                sqpk_delete_commands: fs[10]->U32_0,
                sqpk_expand_commands: fs[11]->U32_0,
                sqpk_header_commands: fs[12]->U32_0,
                sqpk_file_commands: fs[13]->U32_0,
            },
        ),
        ChunkType::SqpkAddData => ChunkModel::SqpkAddData {
            target: name,
            block_offset: fs[0]->I64_0,
            block_number: fs[1]->I64_0,
            block_delete_number: fs[2]->I64_0,
            patch_offset: fs[3]->I64_0,
        },
        ChunkType::SqpkDeleteData => ChunkModel::SqpkDeleteData {
            target: name,
            block_offset: fs[0]->I64_0,
            block_number: fs[1]->I64_0,
        },
        ChunkType::SqpkExpandData => ChunkModel::SqpkExpandData {
            target: name,
            block_offset: fs[0]->I64_0,
            block_number: fs[1]->I64_0,
        },
        ChunkType::SqpkHeader => ChunkModel::SqpkHeader {
            target: name,
            header_kind: fs[0]->Byte_0,
            patch_offset: fs[1]->I64_0,
        },
        ChunkType::SqpkPatchInfo => ChunkModel::SqpkPatchInfo {
            status: fs[0]->Byte_0,
            version: fs[1]->Byte_0,
            install_size: fs[2]->U64_0,
        },
        ChunkType::SqpkTargetInfo => ChunkModel::SqpkTargetInfo {
            platform: fs[0]->U16_0,
            region: fs[1]->I16_0,
            is_debug: fs[2]->Flag_0,
            version: fs[3]->U16_0,
            deleted_data_size: fs[4]->U64_0,
            seek_count: fs[5]->U64_0,
        },
        ChunkType::SqpkFileAdd => ChunkModel::SqpkFileAdd {
            target: name,
            file_offset: fs[0]->I64_0,
            blocks: fs[1]->Blocks_0,
        },
        ChunkType::SqpkFileDelExpac => ChunkModel::SqpkFileDelExpac { expansion_id: fs[0]->U16_0 },
        ChunkType::SqpkFileDelete => ChunkModel::SqpkFileDelete { target: name },
        ChunkType::SqpkFileMkdir => ChunkModel::SqpkFileMkdir { target: name },
    }
}

/// What a LUT keeps of a chunk: everything but an `ApplyFreeSpace`'s two numbers.
pub open spec fn lut_kept(c: ChunkModel) -> ChunkModel {
    match c {
        ChunkModel::ApplyFreeSpace { .. } => ChunkModel::ApplyFreeSpace { unknown_a: 0, unknown_b: 0 },
        _ => c,
    }
}

/// A chunk whose strings and block list fit the lengths a LUT stores.
pub open spec fn chunk_fits(c: ChunkModel) -> bool {
    forall|i: int| 0 <= i < lut_fields(c).len() ==> field_fits(#[trigger] lut_fields(c)[i])
}

/// The chunk a LUT record of kind `k`, with names `names` and data `data`, reads back as.
pub open spec fn read_lut_spec(k: ChunkType, names: Seq<Seq<char>>, data: Seq<u8>) -> Result<ChunkModel, LutError> {
    if named(k) && names.len() == 0 {
        Err(LutError::MissingName)
    } else {
        match dec_fields(data, 0, shape(k)) {
            Err(e) => Err(LutError::Decode(e)),
            Ok((fs, _)) => Ok(build(k, if named(k) { names[0] } else { Seq::empty() }, fs)),
        }
    }
}

proof fn lemma_kinds_match(c: ChunkModel)
    ensures
        kinds(lut_fields(c)) == shape(lut_kind(c)),
{
    assert(kinds(lut_fields(c)) =~= shape(lut_kind(c)));
}

proof fn lemma_build_kept(c: ChunkModel)
    ensures
        build(
            lut_kind(c),
            if named(lut_kind(c)) {
                lut_names(c)[0]
            } else {
                Seq::empty()
            },
            lut_fields(c),
        ) == lut_kept(c),
        named(lut_kind(c)) ==> lut_names(c).len() > 0,
{
    match c {
        ChunkModel::FileHeader(h) => {
            let fs = lut_fields(c);
            assert(build(ChunkType::FileHeader, Seq::empty(), fs) == c);
        },
        _ => {},
    }
}

/// Every chunk reads back from its LUT record as what the LUT keeps of it.
pub proof fn lemma_chunk_round_trip(c: ChunkModel)
    requires
        chunk_fits(c),
    ensures
        read_lut_spec(lut_kind(c), lut_names(c), enc_fields(lut_fields(c))) == Ok::<ChunkModel, LutError>(lut_kept(c)),
{
    let fs = lut_fields(c);
    let d = enc_fields(fs);
    assert(d.subrange(0, d.len() as int) =~= d);
    lemma_dec_fields(d, 0, fs);
    lemma_kinds_match(c);
    lemma_build_kept(c);
}

fn copy_blocks(blocks: &Vec<CompressedBlock>) -> (r: Vec<CompressedBlock>)
    ensures
        r@ == blocks@,
{
    let mut out: Vec<CompressedBlock> = Vec::new();
    let mut i: usize = 0;
    while i < blocks.len()
        invariant
            i <= blocks@.len(),
            out@ == blocks@.subrange(0, i as int),
        decreases blocks@.len() - i,
    {
        out.push(blocks[i]);
        i = i + 1;
        assert(out@ =~= blocks@.subrange(0, i as int));
    }
    assert(blocks@.subrange(0, blocks@.len() as int) =~= blocks@);
    out
}

impl Chunk {
    /// The chunk's LUT record: its kind, the path it names (if any), and its other fields
    /// encoded.
    pub fn write_lut(&self) -> (r: (ChunkType, Vec<String>, Vec<u8>))
        requires
            chunk_fits(self@),
        ensures
            r.0 == lut_kind(self@),
            str_views(r.1@) == lut_names(self@),
            r.2@ == enc_fields(lut_fields(self@)),
    {
        let mut names: Vec<String> = Vec::new();
        let mut fields: Vec<Field> = Vec::new();
        let kind = match self {
            Chunk::AddDirectory(dir) => {
                names.push(dir.clone());
                ChunkType::AddDirectory
            },
            Chunk::DeleteDirectory(dir) => {
                names.push(dir.clone());
                ChunkType::DeleteDirectory
            },
            Chunk::ApplyFreeSpace { .. } => ChunkType::ApplyFreeSpace,
            Chunk::EndOfFile => ChunkType::EndOfFile,
            Chunk::Xxxx => ChunkType::Xxxx,
            Chunk::SqpkIndex => ChunkType::SqpkIndex,
            Chunk::ApplyOption { kind, value } => {
                fields.push(Field::Byte(*kind));
                fields.push(Field::Flag(*value));
                ChunkType::ApplyOption
            },
            Chunk::FileHeader(header) => {
                fields.push(Field::Byte(header.version));
                fields.push(Field::Text(header.patch_type.clone()));
                fields.push(Field::U32(header.entry_files));
                fields.push(Field::U32(header.add_directories));
                fields.push(Field::U32(header.delete_directories));
                fields.push(Field::I64(header.delete_data_size));
                fields.push(Field::U32(header.minor_version));
                fields.push(Field::U32(header.repository_name));
                fields.push(Field::U32(header.commands));
                fields.push(Field::U32(header.sqpk_add_commands));
                fields.push(Field::U32(header.sqpk_delete_commands));
                fields.push(Field::U32(header.sqpk_expand_commands));
                fields.push(Field::U32(header.sqpk_header_commands));
                fields.push(Field::U32(header.sqpk_file_commands));
                ChunkType::FileHeader
            },
            Chunk::SqpkAddData { target, block_offset, block_number, block_delete_number, patch_offset } => {
                names.push(target.clone());
                fields.push(Field::I64(*block_offset));
                fields.push(Field::I64(*block_number));
                fields.push(Field::I64(*block_delete_number));
                fields.push(Field::I64(*patch_offset));
                ChunkType::SqpkAddData
            },
            Chunk::SqpkDeleteData { target, block_offset, block_number } => {
                names.push(target.clone());
                fields.push(Field::I64(*block_offset));
                fields.push(Field::I64(*block_number));
                ChunkType::SqpkDeleteData
            },
            Chunk::SqpkExpandData { target, block_offset, block_number } => {
                names.push(target.clone());
                fields.push(Field::I64(*block_offset));
                fields.push(Field::I64(*block_number));
                ChunkType::SqpkExpandData
            },
            Chunk::SqpkHeader { target, header_kind, patch_offset } => {
                names.push(target.clone());
                fields.push(Field::Byte(*header_kind));
                fields.push(Field::I64(*patch_offset));
                ChunkType::SqpkHeader
            },
            Chunk::SqpkPatchInfo { status, version, install_size } => {
                fields.push(Field::Byte(*status));
                fields.push(Field::Byte(*version));
                fields.push(Field::U64(*install_size));
                ChunkType::SqpkPatchInfo
            },
            Chunk::SqpkTargetInfo { platform, region, is_debug, version, deleted_data_size, seek_count } => {
                fields.push(Field::U16(*platform));
                fields.push(Field::I16(*region));
                fields.push(Field::Flag(*is_debug));
                fields.push(Field::U16(*version));
                fields.push(Field::U64(*deleted_data_size));
                fields.push(Field::U64(*seek_count));
                ChunkType::SqpkTargetInfo
            },
            Chunk::SqpkFileAdd { target, file_offset, blocks } => {
                names.push(target.clone());
                fields.push(Field::I64(*file_offset));
                fields.push(Field::Blocks(copy_blocks(blocks)));
                ChunkType::SqpkFileAdd
            },
            Chunk::SqpkFileDelExpac { expansion_id } => {
                fields.push(Field::U16(*expansion_id));
                ChunkType::SqpkFileDelExpac
            },
            Chunk::SqpkFileDelete { target } => {
                names.push(target.clone());
                ChunkType::SqpkFileDelete
            },
            Chunk::SqpkFileMkdir { target } => {
                names.push(target.clone());
                ChunkType::SqpkFileMkdir
            },
        };
        proof {
            assert(field_models(fields@) =~= lut_fields(self@));
            assert(str_views(names@) =~= lut_names(self@));
        }
        let mut data: Vec<u8> = Vec::new();
        write_fields(&mut data, &fields);
        assert(data@ =~= enc_fields(lut_fields(self@)));
        (kind, names, data)
    }
}

fn byte_at(fs: &Vec<Field>, i: usize) -> (x: u8)
    requires
        i < fs@.len(),
        field_kind(fs@[i as int]@) == FieldKind::Byte,
    ensures
        fs@[i as int]@ == FieldModel::Byte(x),
{
    match &fs[i] {
        Field::Byte(x) => *x,
        _ => {
            proof {
                assert(false);
            }
            0
        },
    }
}

fn flag_at(fs: &Vec<Field>, i: usize) -> (x: bool)
    requires
        i < fs@.len(),
        field_kind(fs@[i as int]@) == FieldKind::Flag,
    ensures
        fs@[i as int]@ == FieldModel::Flag(x),
{
    match &fs[i] {
        Field::Flag(x) => *x,
        _ => {
            proof {
                assert(false);
            }
            false
        },
    }
}

fn u16_at(fs: &Vec<Field>, i: usize) -> (x: u16)
    requires
        i < fs@.len(),
        field_kind(fs@[i as int]@) == FieldKind::U16,
    ensures
        fs@[i as int]@ == FieldModel::U16(x),
{
    match &fs[i] {
        Field::U16(x) => *x,
        _ => {
            proof {
                assert(false);
            }
            0
        },
    }
}

fn i16_at(fs: &Vec<Field>, i: usize) -> (x: i16)
    requires
        i < fs@.len(),
        field_kind(fs@[i as int]@) == FieldKind::I16,
    ensures
        fs@[i as int]@ == FieldModel::I16(x),
{
    match &fs[i] {
        Field::I16(x) => *x,
        _ => {
            proof {
                assert(false);
            }
            0
        },
    }
}

fn u32_at(fs: &Vec<Field>, i: usize) -> (x: u32)
    requires
        i < fs@.len(),
        field_kind(fs@[i as int]@) == FieldKind::U32,
    ensures
        fs@[i as int]@ == FieldModel::U32(x),
{
    match &fs[i] {
        Field::U32(x) => *x,
        _ => {
            proof {
                assert(false);
            }
            0
        },
    }
}

fn i64_at(fs: &Vec<Field>, i: usize) -> (x: i64)
    requires
        i < fs@.len(),
        field_kind(fs@[i as int]@) == FieldKind::I64,
    ensures
        fs@[i as int]@ == FieldModel::I64(x),
{
    match &fs[i] {
        Field::I64(x) => *x,
        _ => {
            proof {
                assert(false);
            }
            0
        },
    }
}

fn u64_at(fs: &Vec<Field>, i: usize) -> (x: u64)
    requires
        i < fs@.len(),
        field_kind(fs@[i as int]@) == FieldKind::U64,
    ensures
        fs@[i as int]@ == FieldModel::U64(x),
{
    match &fs[i] {
        Field::U64(x) => *x,
        _ => {
            proof {
                assert(false);
            }
            0
        },
    }
}

fn text_at(fs: &Vec<Field>, i: usize) -> (x: String)
    requires
        i < fs@.len(),
        field_kind(fs@[i as int]@) == FieldKind::Text,
    ensures
        fs@[i as int]@ == FieldModel::Text(x@),
{
    match &fs[i] {
        Field::Text(x) => x.clone(),
        _ => {
            proof {
                assert(false);
            }
            String::new()
        },
    }
}

fn blocks_at(fs: &Vec<Field>, i: usize) -> (x: Vec<CompressedBlock>)
    requires
        i < fs@.len(),
        field_kind(fs@[i as int]@) == FieldKind::Blocks,
    ensures
        fs@[i as int]@ == FieldModel::Blocks(x@),
{
    match &fs[i] {
        Field::Blocks(x) => copy_blocks(x),
        _ => {
            proof {
                assert(false);
            }
            Vec::new()
        },
    }
}

fn is_named(k: ChunkType) -> (b: bool)
    ensures
        b == named(k),
{
    match k {
        ChunkType::AddDirectory | ChunkType::DeleteDirectory | ChunkType::SqpkAddData | ChunkType::SqpkDeleteData
        | ChunkType::SqpkExpandData | ChunkType::SqpkHeader | ChunkType::SqpkFileAdd | ChunkType::SqpkFileDelete
        | ChunkType::SqpkFileMkdir => true,
        _ => false,
    }
}

fn shape_of(k: ChunkType) -> (s: Vec<FieldKind>)
    ensures
        s@ == shape(k),
{
    match k {
        ChunkType::ApplyOption => vec![FieldKind::Byte, FieldKind::Flag],
        ChunkType::FileHeader => vec![
            FieldKind::Byte,
            FieldKind::Text,
            FieldKind::U32,
            FieldKind::U32,
            FieldKind::U32,
            FieldKind::I64,
            FieldKind::U32,
            FieldKind::U32,
            FieldKind::U32,
            FieldKind::U32,
            FieldKind::U32,
            FieldKind::U32,
            FieldKind::U32,
            FieldKind::U32,
        ],
        ChunkType::SqpkAddData => vec![FieldKind::I64, FieldKind::I64, FieldKind::I64, FieldKind::I64],
        ChunkType::SqpkDeleteData => vec![FieldKind::I64, FieldKind::I64],
        ChunkType::SqpkExpandData => vec![FieldKind::I64, FieldKind::I64],
        ChunkType::SqpkHeader => vec![FieldKind::Byte, FieldKind::I64],
        ChunkType::SqpkPatchInfo => vec![FieldKind::Byte, FieldKind::Byte, FieldKind::U64],
        ChunkType::SqpkTargetInfo => vec![
            FieldKind::U16,
            FieldKind::I16,
            FieldKind::Flag,
            FieldKind::U16,
            FieldKind::U64,
            FieldKind::U64,
        ],
        ChunkType::SqpkFileAdd => vec![FieldKind::I64, FieldKind::Blocks],
        ChunkType::SqpkFileDelExpac => vec![FieldKind::U16],
        _ => Vec::new(),
    }
}

/// The chunk of kind `k` naming `name` with fields `fs`.
fn build_chunk(k: ChunkType, name: String, fs: &Vec<Field>) -> (c: Chunk)
    requires
        kinds(field_models(fs@)) == shape(k),
    ensures
        c@ == build(k, name@, field_models(fs@)),
{
    let ghost fm = field_models(fs@);
    proof {
        assert forall|i: int| 0 <= i < fs@.len() implies field_kind(#[trigger] fs@[i]@) == shape(k)[i] by {
            assert(kinds(fm)[i] == field_kind(fm[i]));
        }
        assert(fs@.len() == shape(k).len()) by {
            assert(kinds(fm).len() == fm.len());
        }
    }
    match k {
        ChunkType::AddDirectory => Chunk::AddDirectory(name),
        ChunkType::DeleteDirectory => Chunk::DeleteDirectory(name),
        ChunkType::ApplyFreeSpace => Chunk::ApplyFreeSpace { unknown_a: 0, unknown_b: 0 },
        ChunkType::EndOfFile => Chunk::EndOfFile,
        ChunkType::Xxxx => Chunk::Xxxx,
        ChunkType::SqpkIndex => Chunk::SqpkIndex,
        ChunkType::ApplyOption => Chunk::ApplyOption { kind: byte_at(fs, 0), value: flag_at(fs, 1) },
        ChunkType::FileHeader => Chunk::FileHeader(
            FileHeader {
                version: byte_at(fs, 0),
                patch_type: text_at(fs, 1),
                entry_files: u32_at(fs, 2),
                add_directories: u32_at(fs, 3),
                delete_directories: u32_at(fs, 4),
                delete_data_size: i64_at(fs, 5),
                minor_version: u32_at(fs, 6),
                repository_name: u32_at(fs, 7),
                commands: u32_at(fs, 8),
                sqpk_add_commands: u32_at(fs, 9),
                sqpk_delete_commands: u32_at(fs, 10),
                sqpk_expand_commands: u32_at(fs, 11),
                sqpk_header_commands: u32_at(fs, 12),
                sqpk_file_commands: u32_at(fs, 13),
            },
        ),
        ChunkType::SqpkAddData => Chunk::SqpkAddData {
            target: name,
            block_offset: i64_at(fs, 0),
            block_number: i64_at(fs, 1),
            block_delete_number: i64_at(fs, 2),
            patch_offset: i64_at(fs, 3),
        },
        ChunkType::SqpkDeleteData => Chunk::SqpkDeleteData {
            target: name,
            block_offset: i64_at(fs, 0),
            block_number: i64_at(fs, 1),
        },
        ChunkType::SqpkExpandData => Chunk::SqpkExpandData {
            target: name,
            block_offset: i64_at(fs, 0),
            block_number: i64_at(fs, 1),
        },
        ChunkType::SqpkHeader => Chunk::SqpkHeader { target: name, header_kind: byte_at(fs, 0), patch_offset: i64_at(fs, 1) },
        ChunkType::SqpkPatchInfo => Chunk::SqpkPatchInfo {
            status: byte_at(fs, 0),
            version: byte_at(fs, 1),
            install_size: u64_at(fs, 2),
        },
        ChunkType::SqpkTargetInfo => Chunk::SqpkTargetInfo {
            platform: u16_at(fs, 0),
            region: i16_at(fs, 1),
            is_debug: flag_at(fs, 2),
            version: u16_at(fs, 3),
            deleted_data_size: u64_at(fs, 4),
            seek_count: u64_at(fs, 5),
        },
        ChunkType::SqpkFileAdd => Chunk::SqpkFileAdd { target: name, file_offset: i64_at(fs, 0), blocks: blocks_at(fs, 1) },
        ChunkType::SqpkFileDelExpac => Chunk::SqpkFileDelExpac { expansion_id: u16_at(fs, 0) },
        ChunkType::SqpkFileDelete => Chunk::SqpkFileDelete { target: name },
        ChunkType::SqpkFileMkdir => Chunk::SqpkFileMkdir { target: name },
    }
}

impl Chunk {
    /// The chunk a LUT record of kind `kind`, with the names `names` and the encoded fields
    /// `data`, stands for.
    pub fn read_lut(kind: ChunkType, names: &[String], data: &[u8]) -> (r: Result<Chunk, LutError>)
        ensures
            match r {
                Ok(c) => read_lut_spec(kind, str_views(names@), data@) == Ok::<ChunkModel, LutError>(c@),
                Err(e) => read_lut_spec(kind, str_views(names@), data@) == Err::<ChunkModel, LutError>(e),
            },
    {
        let is_named_kind = is_named(kind);
        if is_named_kind && names.len() == 0 {
            return Err(LutError::MissingName);
        }
        let kinds_wanted = shape_of(kind);
        let (fs, _) = match read_fields(data, 0, &kinds_wanted) {
            Ok(x) => x,
            Err(e) => {
                return Err(LutError::Decode(e));
            },
        };
        proof {
            lemma_dec_fields_kinds(data@, 0, shape(kind));
        }
        let name = if is_named_kind {
            names[0].clone()
        } else {
            String::new()
        };
        Ok(build_chunk(kind, name, &fs))
    }
}


/// Every path the chunks name.
pub open spec fn chunk_names_all(cs: Seq<ChunkModel>) -> Set<Seq<char>>
    decreases cs.len(),
{
    if cs.len() == 0 {
        Set::empty()
    } else {
        chunk_names_all(cs.drop_last()).union(lut_names(cs.last()).to_set())
    }
}

/// The LUT's name table: the chunks' paths, sorted, each once.
pub open spec fn name_table(cs: Seq<ChunkModel>) -> Seq<Seq<char>> {
    choose|t: Seq<Seq<char>>| sorted_names(t) && t.to_set() == chunk_names_all(cs)
}

pub open spec fn strings_bytes(t: Seq<Seq<char>>) -> Seq<u8>
    decreases t.len(),
{
    if t.len() == 0 {
        Seq::empty()
    } else {
        net_string(t[0]) + strings_bytes(t.drop_first())
    }
}

/// Each name as its 32-bit position in the table.
pub open spec fn index_bytes(names: Seq<Seq<char>>, table: Seq<Seq<char>>) -> Seq<u8>
    decreases names.len(),
{
    if names.len() == 0 {
        Seq::empty()
    } else {
        le_i32(table.index_of(names[0]) as i32) + index_bytes(names.drop_first(), table)
    }
}

/// A chunk's LUT record: kind, name indices, and the length-prefixed field bytes.
pub open spec fn record_bytes(c: ChunkModel, table: Seq<Seq<char>>) -> Seq<u8> {
    let data = enc_fields(lut_fields(c));
    le(chunk_type_code(lut_kind(c)) as nat, 1) + le_i32(lut_names(c).len() as i32) + index_bytes(lut_names(c), table)
        + le_i32(data.len() as i32) + data
}

pub open spec fn records_bytes(cs: Seq<ChunkModel>, table: Seq<Seq<char>>) -> Seq<u8>
    decreases cs.len(),
{
    if cs.len() == 0 {
        Seq::empty()
    } else {
        record_bytes(cs[0], table) + records_bytes(cs.drop_first(), table)
    }
}

/// A LUT's uncompressed payload: the name table, then every chunk's record.
pub open spec fn payload_bytes(cs: Seq<ChunkModel>) -> Seq<u8> {
    let t = name_table(cs);
    le_i32(t.len() as i32) + strings_bytes(t) + le_i32(cs.len() as i32) + records_bytes(cs, t)
}

pub open spec fn dec_strings(d: Seq<u8>, p: int, n: nat) -> Result<(Seq<Seq<char>>, int), DecodeError>
    decreases n,
{
    if n == 0 {
        Ok((Seq::empty(), p))
    } else {
        match read_string_spec(d, p) {
            Err(e) => Err(e),
            Ok((s, q)) => match dec_strings(d, q, (n - 1) as nat) {
                Err(e) => Err(e),
                Ok((rest, r)) => Ok((seq![s] + rest, r)),
            },
        }
    }
}

pub open spec fn dec_indices(d: Seq<u8>, p: int, n: nat, names: Seq<Seq<char>>) -> Result<(Seq<Seq<char>>, int), LutError>
    decreases n,
{
    if n == 0 {
        Ok((Seq::empty(), p))
    } else {
        match read_i32_spec(d, p) {
            Err(e) => Err(LutError::Decode(e)),
            Ok((i, q)) => if i < 0 || i >= names.len() {
                Err(LutError::BadNameIndex)
            } else {
                match dec_indices(d, q, (n - 1) as nat, names) {
                    Err(e) => Err(e),
                    Ok((rest, r)) => Ok((seq![names[i as int]] + rest, r)),
                }
            },
        }
    }
}

/// A chunk record at `p`, its names resolved through `names`.
#[verifier::opaque]
pub open spec fn dec_record(d: Seq<u8>, p: int, names: Seq<Seq<char>>) -> Result<(ChunkModel, int), LutError> {
    match read_u8_spec(d, p) {
        Err(e) => Err(LutError::Decode(e)),
        Ok((b, p1)) => match chunk_type_of(b) {
            None => Err(LutError::BadKind),
            Some(kind) => match read_i32_spec(d, p1) {
                Err(e) => Err(LutError::Decode(e)),
                Ok((n, p2)) => if n < 0 {
                    Err(LutError::Decode(DecodeError::Negative))
                } else {
                    match dec_indices(d, p2, n as nat, names) {
                        Err(e) => Err(e),
                        Ok((chunk_names, p3)) => match read_i32_spec(d, p3) {
                            Err(e) => Err(LutError::Decode(e)),
                            Ok((len, p4)) => if len < 0 {
                                Err(LutError::Decode(DecodeError::Negative))
                            } else if p4 + len > d.len() {
                                Err(LutError::Decode(DecodeError::Truncated))
                            } else {
                                match read_lut_spec(kind, chunk_names, d.subrange(p4, p4 + len)) {
                                    Err(e) => Err(e),
                                    Ok(c) => Ok((c, p4 + len)),
                                }
                            },
                        },
                    }
                },
            },
        },
    }
}

pub open spec fn dec_records(d: Seq<u8>, p: int, n: nat, names: Seq<Seq<char>>) -> Result<(Seq<ChunkModel>, int), LutError>
    decreases n,
{
    if n == 0 {
        Ok((Seq::empty(), p))
    } else {
        match dec_record(d, p, names) {
            Err(e) => Err(e),
            Ok((c, q)) => match dec_records(d, q, (n - 1) as nat, names) {
                Err(e) => Err(e),
                Ok((rest, r)) => Ok((seq![c] + rest, r)),
            },
        }
    }
}

/// The chunks a LUT payload holds.
pub open spec fn read_payload_spec(d: Seq<u8>) -> Result<Seq<ChunkModel>, LutError> {
    match read_i32_spec(d, 0) {
        Err(e) => Err(LutError::Decode(e)),
        Ok((n, p1)) => if n < 0 {
            Err(LutError::Decode(DecodeError::Negative))
        } else {
            match dec_strings(d, p1, n as nat) {
                Err(e) => Err(LutError::Decode(e)),
                Ok((names, p2)) => match read_i32_spec(d, p2) {
                    Err(e) => Err(LutError::Decode(e)),
                    Ok((m, p3)) => if m < 0 {
                        Err(LutError::Decode(DecodeError::Negative))
                    } else {
                        match dec_records(d, p3, m as nat, names) {
                            Err(e) => Err(e),
                            Ok((cs, _)) => Ok(cs),
                        }
                    },
                },
            }
        },
    }
}

/// Two sorted lists of the same names are the same list.
pub proof fn lemma_sorted_set_unique(a: Seq<Seq<char>>, b: Seq<Seq<char>>)
    requires
        sorted_names(a),
        sorted_names(b),
        a.to_set() == b.to_set(),
    ensures
        a == b,
    decreases a.len(),
{
    if a.len() == 0 {
        if b.len() > 0 {
            assert(b.to_set().contains(b[0]));
        }
        assert(a =~= b);
    } else {
        assert(a.to_set().contains(a[0]));
        assert(b.len() > 0);
        assert(b.to_set().contains(b[0]));
        let j = choose|j: int| 0 <= j < b.len() && b[j] == a[0];
        let i = choose|i: int| 0 <= i < a.len() && a[i] == b[0];
        if a[0] != b[0] {
            assert(i > 0 && j > 0);
            assert(lex_less(a[0], a[i]));
            assert(lex_less(b[0], b[j]));
            lemma_lex_asymmetric(a[0], b[0]);
        }
        let a1 = a.drop_first();
        let b1 = b.drop_first();
        assert forall|x: Seq<char>| a1.to_set().contains(x) <==> b1.to_set().contains(x) by {
            if a1.to_set().contains(x) {
                let k = choose|k: int| 0 <= k < a1.len() && a1[k] == x;
                assert(a[k + 1] == x);
                assert(lex_less(a[0], a[k + 1]));
                assert(b.to_set().contains(x));
                let m = choose|m: int| 0 <= m < b.len() && b[m] == x;
                if m == 0 {
                    lemma_lex_irreflexive(x);
                }
                assert(b1[m - 1] == x);
            }
            if b1.to_set().contains(x) {
                let k = choose|k: int| 0 <= k < b1.len() && b1[k] == x;
                assert(b[k + 1] == x);
                assert(lex_less(b[0], b[k + 1]));
                assert(a.to_set().contains(x));
                let m = choose|m: int| 0 <= m < a.len() && a[m] == x;
                if m == 0 {
                    lemma_lex_irreflexive(x);
                }
                assert(a1[m - 1] == x);
            }
        }
        assert(a1.to_set() =~= b1.to_set());
        assert forall|x: int, y: int| 0 <= x < y < a1.len() implies lex_less(#[trigger] a1[x], #[trigger] a1[y]) by {
            assert(a1[x] == a[x + 1] && a1[y] == a[y + 1]);
        }
        assert forall|x: int, y: int| 0 <= x < y < b1.len() implies lex_less(#[trigger] b1[x], #[trigger] b1[y]) by {
            assert(b1[x] == b[x + 1] && b1[y] == b[y + 1]);
        }
        lemma_sorted_set_unique(a1, b1);
        assert(a =~= b) by {
            assert(a == seq![a[0]] + a1);
            assert(b == seq![b[0]] + b1);
        }
    }
}

/// In a sorted table a name's position is the one place it stands.
pub proof fn lemma_index_of_sorted(t: Seq<Seq<char>>, i: int)
    requires
        sorted_names(t),
        0 <= i < t.len(),
    ensures
        t.index_of(t[i]) == i,
{
    let k = t.index_of(t[i]);
    assert(t.contains(t[i]));
    if k != i {
        lemma_lex_irreflexive(t[i]);
        if k < i {
            assert(lex_less(t[k], t[i]));
        } else {
            assert(lex_less(t[i], t[k]));
        }
    }
}


/// Where `x` goes in a sorted table that lacks it.
proof fn insert_position(t: Seq<Seq<char>>, x: Seq<char>) -> (k: int)
    requires
        sorted_names(t),
        !t.contains(x),
    ensures
        placed(t, x, k, false),
    decreases t.len(),
{
    if t.len() == 0 {
        0
    } else {
        crate::order::lemma_lex_total(x, t[0]);
        if lex_less(x, t[0]) {
            assert forall|i: int| 0 <= i < t.len() implies lex_less(x, #[trigger] t[i]) by {
                if i > 0 {
                    lemma_lex_transitive(x, t[0], t[i]);
                }
            }
            0
        } else {
            assert(t[0] != x);
            let t1 = t.drop_first();
            assert forall|a: int, b: int| 0 <= a < b < t1.len() implies lex_less(#[trigger] t1[a], #[trigger] t1[b]) by {
                assert(t1[a] == t[a + 1] && t1[b] == t[b + 1]);
            }
            assert(!t1.contains(x)) by {
                if t1.contains(x) {
                    let j = choose|j: int| 0 <= j < t1.len() && t1[j] == x;
                    assert(t[j + 1] == x);
                }
            }
            let k1 = insert_position(t1, x);
            assert forall|i: int| 0 <= i < k1 + 1 implies lex_less(#[trigger] t[i], x) by {
                if i > 0 {
                    assert(t[i] == t1[i - 1]);
                }
            }
            assert forall|i: int| k1 + 1 <= i < t.len() implies lex_less(x, #[trigger] t[i]) by {
                assert(t[i] == t1[i - 1]);
            }
            k1 + 1
        }
    }
}

/// The chunks' names have a sorted table.
pub proof fn lemma_table_exists(cs: Seq<ChunkModel>)
    ensures
        sorted_names(name_table(cs)),
        name_table(cs).to_set() == chunk_names_all(cs),
    decreases cs.len(),
{
    if cs.len() == 0 {
        let t = Seq::<Seq<char>>::empty();
        assert(t.to_set() =~= chunk_names_all(cs));
        assert(sorted_names(t) && t.to_set() == chunk_names_all(cs));
    } else {
        let init = cs.drop_last();
        lemma_table_exists(init);
        let t0 = name_table(init);
        let ns = lut_names(cs.last());
        if ns.len() == 0 {
            assert(ns.to_set() =~= Set::<Seq<char>>::empty());
            assert(chunk_names_all(cs) =~= chunk_names_all(init));
            assert(sorted_names(t0) && t0.to_set() == chunk_names_all(cs));
        } else {
            let x = ns[0];
            assert(ns.to_set() =~= set![x]);
            if t0.contains(x) {
                assert(t0.to_set().contains(x));
                assert(chunk_names_all(cs) =~= t0.to_set());
                assert(sorted_names(t0) && t0.to_set() == chunk_names_all(cs));
            } else {
                let k = insert_position(t0, x);
                lemma_insert_sorted(t0, x, k);
                let t1 = t0.insert(k, x);
                assert(t1.to_set() =~= chunk_names_all(cs));
                assert(sorted_names(t1) && t1.to_set() == chunk_names_all(cs));
            }
        }
    }
}

/// Each chunk's names are among all the chunks' names.
proof fn lemma_names_in_all(cs: Seq<ChunkModel>, i: int, j: int)
    requires
        0 <= i < cs.len(),
        0 <= j < lut_names(cs[i]).len(),
    ensures
        chunk_names_all(cs).contains(lut_names(cs[i])[j]),
    decreases cs.len(),
{
    if i < cs.len() - 1 {
        assert(cs.drop_last()[i] == cs[i]);
        lemma_names_in_all(cs.drop_last(), i, j);
    } else {
        assert(lut_names(cs.last()).to_set().contains(lut_names(cs[i])[j]));
    }
}

pub(crate) proof fn lemma_dec_strings(d: Seq<u8>, p: int, t: Seq<Seq<char>>)
    requires
        forall|i: int| 0 <= i < t.len() ==> string_fits(#[trigger] t[i]),
        holds_at(d, p, strings_bytes(t)),
    ensures
        dec_strings(d, p, t.len()) == Ok::<(Seq<Seq<char>>, int), DecodeError>((t, p + strings_bytes(t).len())),
    decreases t.len(),
{
    if t.len() > 0 {
        lemma_holds_split(d, p, net_string(t[0]), strings_bytes(t.drop_first()));
        lemma_read_string(d, p, t[0]);
        assert forall|i: int| 0 <= i < t.drop_first().len() implies string_fits(#[trigger] t.drop_first()[i]) by {
            assert(t.drop_first()[i] == t[i + 1]);
        }
        lemma_dec_strings(d, p + net_string(t[0]).len(), t.drop_first());
        assert(seq![t[0]] + t.drop_first() =~= t);
    } else {
        assert(t =~= Seq::<Seq<char>>::empty());
    }
}

proof fn lemma_dec_indices(d: Seq<u8>, p: int, names: Seq<Seq<char>>, t: Seq<Seq<char>>)
    requires
        sorted_names(t),
        t.len() <= i32::MAX,
        forall|j: int| 0 <= j < names.len() ==> t.contains(#[trigger] names[j]),
        holds_at(d, p, index_bytes(names, t)),
    ensures
        dec_indices(d, p, names.len(), t) == Ok::<(Seq<Seq<char>>, int), LutError>((names, p + index_bytes(names, t).len())),
    decreases names.len(),
{
    if names.len() > 0 {
        let x = names[0];
        assert(t.contains(x));
        let i = t.index_of(x);
        lemma_holds_split(d, p, le_i32(i as i32), index_bytes(names.drop_first(), t));
        lemma_read_i32(d, p, i as i32);
        assert forall|j: int| 0 <= j < names.drop_first().len() implies t.contains(#[trigger] names.drop_first()[j]) by {
            assert(names.drop_first()[j] == names[j + 1]);
        }
        lemma_dec_indices(d, p + 4, names.drop_first(), t);
        assert(seq![t[i]] + names.drop_first() =~= names);
    } else {
        assert(names =~= Seq::<Seq<char>>::empty());
    }
}

/// A chunk's record reads back as what the LUT keeps of the chunk.
proof fn lemma_dec_record(d: Seq<u8>, p: int, c: ChunkModel, t: Seq<Seq<char>>)
    requires
        sorted_names(t),
        t.len() <= i32::MAX,
        chunk_fits(c),
        enc_fields(lut_fields(c)).len() <= i32::MAX,
        forall|j: int| 0 <= j < lut_names(c).len() ==> t.contains(#[trigger] lut_names(c)[j]),
        holds_at(d, p, record_bytes(c, t)),
    ensures
        dec_record(d, p, t) == Ok::<(ChunkModel, int), LutError>((lut_kept(c), p + record_bytes(c, t).len())),
{
    reveal(dec_record);
    let data = enc_fields(lut_fields(c));
    let k = le(chunk_type_code(lut_kind(c)) as nat, 1);
    let n = le_i32(lut_names(c).len() as i32);
    let ix = index_bytes(lut_names(c), t);
    let len = le_i32(data.len() as i32);
    assert(record_bytes(c, t) == k + n + ix + len + data);
    lemma_holds_split(d, p, k + n + ix + len, data);
    lemma_holds_split(d, p, k + n + ix, len);
    lemma_holds_split(d, p, k + n, ix);
    lemma_holds_split(d, p, k, n);
    lemma_read_u8(d, p, chunk_type_code(lut_kind(c)));
    lemma_chunk_type_code(lut_kind(c));
    assert(lut_names(c).len() <= 1);
    lemma_read_i32(d, p + 1, lut_names(c).len() as i32);
    lemma_dec_indices(d, p + 5, lut_names(c), t);
    let p3 = p + 5 + ix.len();
    lemma_read_i32(d, p3, data.len() as i32);
    let p4 = p3 + 4;
    assert(d.subrange(p4, p4 + data.len()) == data);
    lemma_chunk_round_trip(c);
}

proof fn lemma_dec_records(d: Seq<u8>, p: int, cs: Seq<ChunkModel>, t: Seq<Seq<char>>)
    requires
        sorted_names(t),
        t.len() <= i32::MAX,
        forall|i: int| 0 <= i < cs.len() ==> chunk_fits(#[trigger] cs[i]),
        forall|i: int| 0 <= i < cs.len() ==> (#[trigger] enc_fields(lut_fields(cs[i]))).len() <= i32::MAX,
        forall|i: int, j: int| 0 <= i < cs.len() && 0 <= j < lut_names(cs[i]).len() ==> t.contains(#[trigger] lut_names(cs[i])[j]),
        holds_at(d, p, records_bytes(cs, t)),
    ensures
        dec_records(d, p, cs.len(), t) == Ok::<(Seq<ChunkModel>, int), LutError>(
            (cs.map_values(|c: ChunkModel| lut_kept(c)), p + records_bytes(cs, t).len()),
        ),
    decreases cs.len(),
{
    if cs.len() > 0 {
        let c = cs[0];
        let rest = cs.drop_first();
        lemma_holds_split(d, p, record_bytes(c, t), records_bytes(rest, t));
        assert(enc_fields(lut_fields(cs[0])).len() <= i32::MAX);
        assert(chunk_fits(cs[0]));
        assert forall|j: int| 0 <= j < lut_names(c).len() implies t.contains(#[trigger] lut_names(c)[j]) by {
            assert(t.contains(lut_names(cs[0])[j]));
        }
        lemma_dec_record(d, p, c, t);
        assert forall|i: int| 0 <= i < rest.len() implies chunk_fits(#[trigger] rest[i]) by {
            assert(rest[i] == cs[i + 1]);
        }
        assert forall|i: int| 0 <= i < rest.len() implies (#[trigger] enc_fields(lut_fields(rest[i]))).len() <= i32::MAX by {
            assert(rest[i] == cs[i + 1]);
            assert(enc_fields(lut_fields(cs[i + 1])).len() <= i32::MAX);
        }
        assert forall|i: int, j: int| 0 <= i < rest.len() && 0 <= j < lut_names(rest[i]).len() implies t.contains(
            #[trigger] lut_names(rest[i])[j],
        ) by {
            assert(rest[i] == cs[i + 1]);
            assert(t.contains(lut_names(cs[i + 1])[j]));
        }
        lemma_dec_records(d, p + record_bytes(c, t).len(), rest, t);
        assert(seq![lut_kept(c)] + rest.map_values(|c: ChunkModel| lut_kept(c)) =~= cs.map_values(|c: ChunkModel| lut_kept(c)));
    } else {
        assert(cs.map_values(|c: ChunkModel| lut_kept(c)) =~= Seq::<ChunkModel>::empty());
    }
}

/// The chunks a LUT can carry: counts and lengths that fit their 32-bit fields.
pub open spec fn payload_fits(cs: Seq<ChunkModel>) -> bool {
    &&& cs.len() <= i32::MAX
    &&& name_table(cs).len() <= i32::MAX
    &&& forall|i: int| 0 <= i < cs.len() ==> chunk_fits(#[trigger] cs[i])
    &&& forall|i: int| 0 <= i < cs.len() ==> (#[trigger] enc_fields(lut_fields(cs[i]))).len() <= i32::MAX
    &&& forall|x: Seq<char>| #[trigger] chunk_names_all(cs).contains(x) ==> string_fits(x)
}

/// Writing chunks to a LUT payload and reading it back gives them again, as the LUT keeps
/// them, whatever order their names sort in.
pub proof fn lemma_payload_round_trip(cs: Seq<ChunkModel>)
    requires
        payload_fits(cs),
    ensures
        read_payload_spec(payload_bytes(cs)) == Ok::<Seq<ChunkModel>, LutError>(cs.map_values(|c: ChunkModel| lut_kept(c))),
{
    lemma_table_exists(cs);
    let t = name_table(cs);
    let d = payload_bytes(cs);
    let a = le_i32(t.len() as i32);
    let b = strings_bytes(t);
    let c = le_i32(cs.len() as i32);
    let r = records_bytes(cs, t);
    assert(d == a + b + c + r);
    assert(d.subrange(0, d.len() as int) =~= d);
    lemma_holds_split(d, 0, a + b + c, r);
    lemma_holds_split(d, 0, a + b, c);
    lemma_holds_split(d, 0, a, b);
    lemma_read_i32(d, 0, t.len() as i32);
    assert forall|i: int| 0 <= i < t.len() implies string_fits(#[trigger] t[i]) by {
        assert(t.to_set().contains(t[i]));
        assert(chunk_names_all(cs).contains(t[i]));
    }
    lemma_dec_strings(d, 4, t);
    lemma_read_i32(d, 4 + b.len() as int, cs.len() as i32);
    assert forall|i: int, j: int| 0 <= i < cs.len() && 0 <= j < lut_names(cs[i]).len() implies t.contains(
        #[trigger] lut_names(cs[i])[j],
    ) by {
        lemma_names_in_all(cs, i, j);
        assert(t.to_set().contains(lut_names(cs[i])[j]));
    }
    lemma_dec_records(d, 8 + b.len() as int, cs, t);
}


pub open spec fn chunk_models(cs: Seq<Chunk>) -> Seq<ChunkModel> {
    Seq::new(cs.len(), |i: int| cs[i]@)
}

/// The records `write_lut` gives, as plain values.
pub open spec fn encoded_ok(cs: Seq<ChunkModel>, enc: Seq<(ChunkType, Vec<String>, Vec<u8>)>) -> bool {
    &&& enc.len() == cs.len()
    &&& forall|i: int| 0 <= i < enc.len() ==> (#[trigger] enc[i]).0 == lut_kind(cs[i])
    &&& forall|i: int| 0 <= i < enc.len() ==> str_views((#[trigger] enc[i]).1@) == lut_names(cs[i])
    &&& forall|i: int| 0 <= i < enc.len() ==> (#[trigger] enc[i]).2@ == enc_fields(lut_fields(cs[i]))
}

pub(crate) fn write_names(out: &mut Vec<u8>, table: &Vec<String>)
    requires
        forall|i: int| 0 <= i < table@.len() ==> string_fits(#[trigger] table@[i]@),
    ensures
        final(out)@ == old(out)@ + strings_bytes(str_views(table@)),
{
    let ghost t = str_views(table@);
    let mut i: usize = 0;
    assert(t.skip(0) =~= t);
    while i < table.len()
        invariant
            t == str_views(table@),
            forall|i: int| 0 <= i < table@.len() ==> string_fits(#[trigger] table@[i]@),
            i <= table@.len(),
            out@ + strings_bytes(t.skip(i as int)) == old(out)@ + strings_bytes(t),
        decreases table@.len() - i,
    {
        let ghost before = out@;
        push_net_string(out, table[i].as_str());
        proof {
            let rest = t.skip(i as int);
            assert(rest.drop_first() =~= t.skip(i + 1));
            assert(rest[0] == table@[i as int]@);
            assert(out@ + strings_bytes(t.skip(i + 1)) =~= before + strings_bytes(rest));
        }
        i = i + 1;
    }
    assert(t.skip(table@.len() as int) =~= Seq::<Seq<char>>::empty());
    assert(out@ + Seq::<u8>::empty() =~= out@);
}

fn write_record(out: &mut Vec<u8>, rec: &(ChunkType, Vec<String>, Vec<u8>), table: &Vec<String>, Ghost(c): Ghost<ChunkModel>)
    requires
        sorted_names(str_views(table@)),
        rec.0 == lut_kind(c),
        str_views(rec.1@) == lut_names(c),
        rec.2@ == enc_fields(lut_fields(c)),
        forall|j: int| 0 <= j < lut_names(c).len() ==> str_views(table@).contains(#[trigger] lut_names(c)[j]),
    ensures
        final(out)@ == old(out)@ + record_bytes(c, str_views(table@)),
{
    let ghost t = str_views(table@);
    let (kind, names, data) = rec;
    push_u8(out, kind.code());
    push_i32(out, names.len() as i32);
    let ghost head = out@;
    let ghost ns = lut_names(c);
    let mut j: usize = 0;
    assert(ns.skip(0) =~= ns);
    while j < names.len()
        invariant
            t == str_views(table@),
            sorted_names(t),
            ns == str_views(names@),
            forall|j: int| 0 <= j < ns.len() ==> t.contains(#[trigger] ns[j]),
            j <= names@.len(),
            out@ + index_bytes(ns.skip(j as int), t) == head + index_bytes(ns, t),
        decreases names@.len() - j,
    {
        let (idx, found) = find_name(table, names[j].as_str());
        proof {
            assert(ns[j as int] == names@[j as int]@);
            assert(t.contains(ns[j as int]));
            if !found {
                let k = choose|k: int| 0 <= k < t.len() && t[k] == ns[j as int];
                lemma_lex_irreflexive(ns[j as int]);
                if k < idx {
                    assert(lex_less(t[k], ns[j as int]));
                } else {
                    assert(lex_less(ns[j as int], t[k]));
                }
            }
            lemma_index_of_sorted(t, idx as int);
        }
        let ghost before = out@;
        push_i32(out, idx as i32);
        proof {
            let rest = ns.skip(j as int);
            assert(rest.drop_first() =~= ns.skip(j + 1));
            assert(rest[0] == ns[j as int]);
            assert(out@ + index_bytes(ns.skip(j + 1), t) =~= before + index_bytes(rest, t));
        }
        j = j + 1;
    }
    proof {
        assert(ns.skip(names@.len() as int) =~= Seq::<Seq<char>>::empty());
        assert(out@ + Seq::<u8>::empty() =~= out@);
    }
    push_i32(out, data.len() as i32);
    push_bytes(out, data.as_slice());
    assert(out@ =~= old(out)@ + record_bytes(c, t));
}

impl Lut {
    /// The uncompressed payload: the sorted name table, then each chunk's record.
    pub fn write_chunks(&self) -> (out: Vec<u8>)
        requires
            payload_fits(chunk_models(self.chunks@)),
        ensures
            out@ == payload_bytes(chunk_models(self.chunks@)),
    {
        let ghost cs = chunk_models(self.chunks@);
        let mut encoded: Vec<(ChunkType, Vec<String>, Vec<u8>)> = Vec::new();
        let mut table: Vec<String> = Vec::new();
        let mut i: usize = 0;
        proof {
            assert(cs.take(0) =~= Seq::<ChunkModel>::empty());
            assert(name_set(table@) =~= Set::<Seq<char>>::empty());
        }
        while i < self.chunks.len()
            invariant
                cs == chunk_models(self.chunks@),
                payload_fits(cs),
                i <= cs.len(),
                encoded_ok(cs.take(i as int), encoded@),
                sorted_names(str_views(table@)),
                name_set(table@) == chunk_names_all(cs.take(i as int)),
            decreases cs.len() - i,
        {
            proof {
                assert(cs[i as int] == self.chunks@[i as int]@);
                assert(chunk_fits(cs[i as int]));
            }
            let rec = self.chunks[i].write_lut();
            let mut k: usize = 0;
            let ghost start = name_set(table@);
            while k < rec.1.len()
                invariant
                    k <= rec.1@.len(),
                    sorted_names(str_views(table@)),
                    name_set(table@) == start.union(str_views(rec.1@).take(k as int).to_set()),
                decreases rec.1@.len() - k,
            {
                let ghost before = name_set(table@);
                insert_name(&mut table, rec.1[k].clone());
                proof {
                    let v = str_views(rec.1@);
                    let a = v.take(k + 1);
                    let b = v.take(k as int);
                    assert forall|x: Seq<char>| a.to_set().contains(x) <==> b.to_set().insert(v[k as int]).contains(x) by {
                        if a.to_set().contains(x) {
                            let m = choose|m: int| 0 <= m < a.len() && a[m] == x;
                            if m < k {
                                assert(b[m] == x);
                            }
                        }
                        if b.to_set().contains(x) {
                            let m = choose|m: int| 0 <= m < b.len() && b[m] == x;
                            assert(a[m] == x);
                        }
                        if x == v[k as int] {
                            assert(a[k as int] == x);
                        }
                    }
                    assert(a.to_set() =~= b.to_set().insert(v[k as int]));
                    assert(name_set(table@) =~= start.union(v.take(k + 1).to_set()));
                }
                k = k + 1;
            }
            proof {
                let v = str_views(rec.1@);
                assert(v.take(v.len() as int) =~= v);
                let t1 = cs.take(i + 1);
                assert(t1.drop_last() =~= cs.take(i as int));
                assert(t1.last() == cs[i as int]);
            }
            let ghost enc_before = encoded@;
            encoded.push(rec);
            proof {
                let t1 = cs.take(i + 1);
                assert forall|j: int| 0 <= j < encoded@.len() implies (#[trigger] encoded@[j]).0 == lut_kind(t1[j]) by {
                    if j < i {
                        assert(encoded@[j] == enc_before[j]);
                    }
                }
                assert forall|j: int| 0 <= j < encoded@.len() implies str_views((#[trigger] encoded@[j]).1@) == lut_names(t1[j]) by {
                    if j < i {
                        assert(encoded@[j] == enc_before[j]);
                    }
                }
                assert forall|j: int| 0 <= j < encoded@.len() implies (#[trigger] encoded@[j]).2@ == enc_fields(lut_fields(t1[j])) by {
                    if j < i {
                        assert(encoded@[j] == enc_before[j]);
                    }
                }
            }
            i = i + 1;
        }
        proof {
            assert(cs.take(cs.len() as int) =~= cs);
            lemma_table_exists(cs);
            lemma_sorted_set_unique(str_views(table@), name_table(cs));
        }
        let ghost t = str_views(table@);
        let mut out: Vec<u8> = Vec::new();
        push_i32(&mut out, table.len() as i32);
        proof {
            assert forall|j: int| 0 <= j < table@.len() implies string_fits(#[trigger] table@[j]@) by {
                assert(t[j] == table@[j]@);
                assert(t.to_set().contains(t[j]));
            }
        }
        write_names(&mut out, &table);
        push_i32(&mut out, encoded.len() as i32);
        let ghost head = out@;
        let mut r: usize = 0;
        assert(cs.skip(0) =~= cs);
        proof {
            assert forall|i: int, j: int|
                0 <= i < cs.len() && 0 <= j < lut_names(cs[i]).len() implies t.contains(#[trigger] lut_names(cs[i])[j]) by {
                lemma_names_in_all(cs, i, j);
                assert(t.to_set().contains(lut_names(cs[i])[j]));
            }
        }
        while r < encoded.len()
            invariant
                cs == chunk_models(self.chunks@),
                t == str_views(table@),
                t == name_table(cs),
                sorted_names(t),
                encoded_ok(cs, encoded@),
                forall|i: int, j: int|
                    0 <= i < cs.len() && 0 <= j < lut_names(cs[i]).len() ==> t.contains(#[trigger] lut_names(cs[i])[j]),
                r <= cs.len(),
                out@ + records_bytes(cs.skip(r as int), t) == head + records_bytes(cs, t),
            decreases cs.len() - r,
        {
            let ghost before = out@;
            proof {
                assert forall|j: int| 0 <= j < lut_names(cs[r as int]).len() implies t.contains(#[trigger] lut_names(cs[r as int])[j]) by {}
            }
            write_record(&mut out, &encoded[r], &table, Ghost(cs[r as int]));
            proof {
                let rest = cs.skip(r as int);
                assert(rest.drop_first() =~= cs.skip(r + 1));
                assert(rest[0] == cs[r as int]);
                assert(out@ + records_bytes(cs.skip(r + 1), t) =~= before + records_bytes(rest, t));
            }
            r = r + 1;
        }
        proof {
            assert(cs.skip(cs.len() as int) =~= Seq::<ChunkModel>::empty());
            assert(out@ + Seq::<u8>::empty() =~= out@);
            assert(out@ =~= payload_bytes(cs));
        }
        out
    }
}


pub(crate) fn read_names(d: &[u8], p: usize, n: i32) -> (r: Result<(Vec<String>, usize), DecodeError>)
    requires
        n >= 0,
    ensures
        match r {
            Ok((v, q)) => dec_strings(d@, p as int, n as nat) == Ok::<(Seq<Seq<char>>, int), DecodeError>(
                (str_views(v@), q as int),
            ),
            Err(e) => dec_strings(d@, p as int, n as nat) == Err::<(Seq<Seq<char>>, int), DecodeError>(e),
        },
{
    let mut out: Vec<String> = Vec::new();
    let mut pos = p;
    let mut i: i32 = 0;
    proof {
        assert(str_views(out@) =~= Seq::<Seq<char>>::empty());
        match dec_strings(d@, p as int, n as nat) {
            Ok((rest, e)) => assert(str_views(out@) + rest =~= rest),
            Err(_) => {},
        }
    }
    while i < n
        invariant
            0 <= i <= n,
            dec_strings(d@, p as int, n as nat) == match dec_strings(d@, pos as int, (n - i) as nat) {
                Ok((rest, e)) => Ok::<(Seq<Seq<char>>, int), DecodeError>((str_views(out@) + rest, e)),
                Err(e) => Err(e),
            },
        decreases n - i,
    {
        let (s, next) = match read_string(d, pos) {
            Ok(x) => x,
            Err(e) => {
                return Err(e);
            },
        };
        let ghost before = str_views(out@);
        let ghost sv = s@;
        out.push(s);
        proof {
            assert(str_views(out@) =~= before.push(sv));
            match dec_strings(d@, next as int, (n - i - 1) as nat) {
                Ok((rest, e)) => assert(before + (seq![sv] + rest) =~= str_views(out@) + rest),
                Err(_) => {},
            }
        }
        pos = next;
        i = i + 1;
    }
    proof {
        assert(str_views(out@) + Seq::<Seq<char>>::empty() =~= str_views(out@));
    }
    Ok((out, pos))
}

fn read_indices(d: &[u8], p: usize, n: i32, names: &Vec<String>) -> (r: Result<(Vec<String>, usize), LutError>)
    requires
        n >= 0,
    ensures
        match r {
            Ok((v, q)) => dec_indices(d@, p as int, n as nat, str_views(names@)) == Ok::<(Seq<Seq<char>>, int), LutError>(
                (str_views(v@), q as int),
            ),
            Err(e) => dec_indices(d@, p as int, n as nat, str_views(names@)) == Err::<(Seq<Seq<char>>, int), LutError>(e),
        },
{
    let ghost nv = str_views(names@);
    let mut out: Vec<String> = Vec::new();
    let mut pos = p;
    let mut i: i32 = 0;
    proof {
        assert(str_views(out@) =~= Seq::<Seq<char>>::empty());
        match dec_indices(d@, p as int, n as nat, nv) {
            Ok((rest, e)) => assert(str_views(out@) + rest =~= rest),
            Err(_) => {},
        }
    }
    while i < n
        invariant
            nv == str_views(names@),
            0 <= i <= n,
            dec_indices(d@, p as int, n as nat, nv) == match dec_indices(d@, pos as int, (n - i) as nat, nv) {
                Ok((rest, e)) => Ok::<(Seq<Seq<char>>, int), LutError>((str_views(out@) + rest, e)),
                Err(e) => Err(e),
            },
        decreases n - i,
    {
        let (k, next) = match read_i32(d, pos) {
            Ok(x) => x,
            Err(e) => {
                return Err(LutError::Decode(e));
            },
        };
        if k < 0 || k as usize >= names.len() {
            return Err(LutError::BadNameIndex);
        }
        let name = names[k as usize].clone();
        let ghost before = str_views(out@);
        let ghost sv = name@;
        proof {
            assert(sv == nv[k as int]);
        }
        out.push(name);
        proof {
            assert(str_views(out@) =~= before.push(sv));
            match dec_indices(d@, next as int, (n - i - 1) as nat, nv) {
                Ok((rest, e)) => assert(before + (seq![sv] + rest) =~= str_views(out@) + rest),
                Err(_) => {},
            }
        }
        pos = next;
        i = i + 1;
    }
    proof {
        assert(str_views(out@) + Seq::<Seq<char>>::empty() =~= str_views(out@));
    }
    Ok((out, pos))
}

fn read_record(d: &[u8], p: usize, names: &Vec<String>) -> (r: Result<(Chunk, usize), LutError>)
    ensures
        match r {
            Ok((c, q)) => dec_record(d@, p as int, str_views(names@)) == Ok::<(ChunkModel, int), LutError>((c@, q as int)),
            Err(e) => dec_record(d@, p as int, str_views(names@)) == Err::<(ChunkModel, int), LutError>(e),
        },
{
    reveal(dec_record);
    let (b, p1) = match read_u8(d, p) {
        Ok(x) => x,
        Err(e) => {
            return Err(LutError::Decode(e));
        },
    };
    let kind = match ChunkType::from_code(b) {
        Some(k) => k,
        None => {
            return Err(LutError::BadKind);
        },
    };
    let (n, p2) = match read_i32(d, p1) {
        Ok(x) => x,
        Err(e) => {
            return Err(LutError::Decode(e));
        },
    };
    if n < 0 {
        return Err(LutError::Decode(DecodeError::Negative));
    }
    let (chunk_names, p3) = match read_indices(d, p2, n, names) {
        Ok(x) => x,
        Err(e) => {
            return Err(e);
        },
    };
    let (len, p4) = match read_i32(d, p3) {
        Ok(x) => x,
        Err(e) => {
            return Err(LutError::Decode(e));
        },
    };
    if len < 0 {
        return Err(LutError::Decode(DecodeError::Negative));
    }
    if len as usize > d.len() - p4 {
        return Err(LutError::Decode(DecodeError::Truncated));
    }
    let end = p4 + len as usize;
    let data = vstd::slice::slice_subrange(d, p4, end);
    match Chunk::read_lut(kind, chunk_names.as_slice(), data) {
        Ok(c) => Ok((c, end)),
        Err(e) => Err(e),
    }
}

impl Lut {
    /// The chunks of an uncompressed payload.
    pub fn read_chunks(payload: &[u8]) -> (r: Result<Vec<Chunk>, LutError>)
        ensures
            match r {
                Ok(cs) => read_payload_spec(payload@) == Ok::<Seq<ChunkModel>, LutError>(chunk_models(cs@)),
                Err(e) => read_payload_spec(payload@) == Err::<Seq<ChunkModel>, LutError>(e),
            },
    {
        let d = payload;
        let (n, p1) = match read_i32(d, 0) {
            Ok(x) => x,
            Err(e) => {
                return Err(LutError::Decode(e));
            },
        };
        if n < 0 {
            return Err(LutError::Decode(DecodeError::Negative));
        }
        let (names, p2) = match read_names(d, p1, n) {
            Ok(x) => x,
            Err(e) => {
                return Err(LutError::Decode(e));
            },
        };
        let (m, p3) = match read_i32(d, p2) {
            Ok(x) => x,
            Err(e) => {
                return Err(LutError::Decode(e));
            },
        };
        if m < 0 {
            return Err(LutError::Decode(DecodeError::Negative));
        }
        read_records(d, p3, m, &names)
    }
}


fn read_records(d: &[u8], p3: usize, m: i32, names: &Vec<String>) -> (r: Result<Vec<Chunk>, LutError>)
    requires
        m >= 0,
    ensures
        match r {
            Ok(cs) => dec_records(d@, p3 as int, m as nat, str_views(names@)) matches Ok((v, _)) && v == chunk_models(cs@),
            Err(e) => dec_records(d@, p3 as int, m as nat, str_views(names@)) == Err::<(Seq<ChunkModel>, int), LutError>(e),
        },
{
    let ghost nv = str_views(names@);
    let mut out: Vec<Chunk> = Vec::new();
    let mut pos = p3;
    let mut i: i32 = 0;
    proof {
        assert(chunk_models(out@) =~= Seq::<ChunkModel>::empty());
        match dec_records(d@, p3 as int, m as nat, nv) {
            Ok((rest, e)) => assert(chunk_models(out@) + rest =~= rest),
            Err(_) => {},
        }
    }
    while i < m
        invariant
            nv == str_views(names@),
            0 <= i <= m,
            dec_records(d@, p3 as int, m as nat, nv) == match dec_records(d@, pos as int, (m - i) as nat, nv) {
                Ok((rest, e)) => Ok::<(Seq<ChunkModel>, int), LutError>((chunk_models(out@) + rest, e)),
                Err(e) => Err(e),
            },
        decreases m - i,
    {
        let (c, next) = match read_record(d, pos, names) {
            Ok(x) => x,
            Err(e) => {
                return Err(e);
            },
        };
        let ghost before = chunk_models(out@);
        let ghost cv = c@;
        out.push(c);
        proof {
            assert(chunk_models(out@) =~= before.push(cv));
            match dec_records(d@, next as int, (m - i - 1) as nat, nv) {
                Ok((rest, e)) => assert(before + (seq![cv] + rest) =~= chunk_models(out@) + rest),
                Err(_) => {},
            }
        }
        pos = next;
        i = i + 1;
    }
    proof {
        assert(chunk_models(out@) + Seq::<ChunkModel>::empty() =~= chunk_models(out@));
    }
    Ok(out)
}


/// A LUT file starts with this.
pub const LUT_MAGIC: u16 = 0xDE22;

/// The one LUT version there is to read.
pub const LUT_VERSION: u16 = 2;

/// A LUT as plain values.
pub ghost struct LutModel {
    pub compression: CompressType,
    pub repository: Seq<char>,
    pub version: VersionModel,
    pub chunks: Seq<ChunkModel>,
}

impl View for Lut {
    type V = LutModel;

    open spec fn view(&self) -> LutModel {
        LutModel {
            compression: self.compression,
            repository: self.repository@,
            version: self.version@,
            chunks: chunk_models(self.chunks@),
        }
    }
}

/// A LUT's header: magic, version, compression, repository and patch version.
pub open spec fn lut_header(compression: CompressType, repository: Seq<char>, version: VersionModel) -> Seq<u8> {
    le_u16(LUT_MAGIC) + le_u16(LUT_VERSION) + le(compress_code(compression) as nat, 1) + net_string(repository)
        + net_string(version_text(version, true))
}

/// The LUT a file holds: its header, then the payload, compressed, to the end.
pub open spec fn read_lut_file_spec(d: Seq<u8>) -> Result<LutModel, LutError> {
    match read_u16_spec(d, 0) {
        Err(e) => Err(LutError::Decode(e)),
        Ok((magic, p1)) => if magic != LUT_MAGIC {
            Err(LutError::BadMagic)
        } else {
            match read_u16_spec(d, p1) {
                Err(e) => Err(LutError::Decode(e)),
                Ok((v, p2)) => if v != LUT_VERSION {
                    Err(LutError::BadVersion)
                } else {
                    match read_u8_spec(d, p2) {
                        Err(e) => Err(LutError::Decode(e)),
                        Ok((b, p3)) => match compress_of(b) {
                            None => Err(LutError::BadCompression),
                            Some(kind) => match read_string_spec(d, p3) {
                                Err(e) => Err(LutError::Decode(e)),
                                Ok((repository, p4)) => match read_string_spec(d, p4) {
                                    Err(e) => Err(LutError::Decode(e)),
                                    Ok((text, p5)) => match parse_version(text) {
                                        None => Err(LutError::BadPatchVersion(version_error(text))),
                                        Some(version) => match inflated(kind, d.skip(p5)) {
                                            None => Err(LutError::Codec),
                                            Some(payload) => match read_payload_spec(payload) {
                                                Err(e) => Err(e),
                                                Ok(chunks) => Ok(
                                                    LutModel { compression: kind, repository, version, chunks },
                                                ),
                                            },
                                        },
                                    },
                                },
                            },
                        },
                    }
                },
            }
        },
    }
}

/// A LUT this library can write: its counts, lengths and strings fit the format.
pub open spec fn lut_fits(m: LutModel) -> bool {
    &&& payload_fits(m.chunks)
    &&& string_fits(m.repository)
    &&& string_fits(version_text(m.version, true))
}

impl Lut {
    /// The whole file: header, then the compressed payload.
    pub fn write(&self) -> (r: Result<Vec<u8>, LutError>)
        requires
            lut_fits(self@),
        ensures
            r matches Ok(v) && v@ == lut_header(self.compression, self.repository@, self.version@) + compressed(
                self.compression,
                payload_bytes(chunk_models(self.chunks@)),
            ),
            inflated(self.compression, compressed(self.compression, payload_bytes(chunk_models(self.chunks@))))
                == Some(payload_bytes(chunk_models(self.chunks@))),
    {
        let payload = self.write_chunks();
        let mut out: Vec<u8> = Vec::new();
        push_u16(&mut out, LUT_MAGIC);
        push_u16(&mut out, LUT_VERSION);
        push_u8(&mut out, self.compression.code());
        push_net_string(&mut out, self.repository.as_str());
        let version = self.version.to_string();
        push_net_string(&mut out, version.as_str());
        let packed = match compress_chunk(self.compression, payload.as_slice()) {
            Some(c) => c,
            None => {
                return Err(LutError::Codec);
            },
        };
        let ghost head = out@;
        push_bytes(&mut out, packed.as_slice());
        assert(head =~= lut_header(self.compression, self.repository@, self.version@));
        Ok(out)
    }

    /// The LUT a file holds.
    pub fn read(bytes: &[u8]) -> (r: Result<Lut, LutError>)
        ensures
            match r {
                Ok(l) => read_lut_file_spec(bytes@) == Ok::<LutModel, LutError>(l@),
                Err(e) => read_lut_file_spec(bytes@) == Err::<LutModel, LutError>(e),
            },
    {
        let d = bytes;
        let (magic, p1) = match read_u16(d, 0) {
            Ok(x) => x,
            Err(e) => {
                return Err(LutError::Decode(e));
            },
        };
        if magic != LUT_MAGIC {
            return Err(LutError::BadMagic);
        }
        let (v, p2) = match read_u16(d, p1) {
            Ok(x) => x,
            Err(e) => {
                return Err(LutError::Decode(e));
            },
        };
        if v != LUT_VERSION {
            return Err(LutError::BadVersion);
        }
        let (b, p3) = match read_u8(d, p2) {
            Ok(x) => x,
            Err(e) => {
                return Err(LutError::Decode(e));
            },
        };
        let compression = match CompressType::from_code(b) {
            Some(c) => c,
            None => {
                return Err(LutError::BadCompression);
            },
        };
        let (repository, p4) = match read_string(d, p3) {
            Ok(x) => x,
            Err(e) => {
                return Err(LutError::Decode(e));
            },
        };
        let (text, p5) = match read_string(d, p4) {
            Ok(x) => x,
            Err(e) => {
                return Err(LutError::Decode(e));
            },
        };
        let version = match PatchVersion::new(text.as_str()) {
            Ok(v) => v,
            Err(e) => {
                return Err(LutError::BadPatchVersion(e));
            },
        };
        proof {
            crate::bytes::lemma_read_varint_bound(d@, p4 as int, 5);
        }
        let rest = vstd::slice::slice_subrange(d, p5, d.len());
        assert(rest@ =~= d@.skip(p5 as int));
        let payload = match inflate(compression, rest) {
            Some(p) => p,
            None => {
                return Err(LutError::Codec);
            },
        };
        let chunks = match Lut::read_chunks(payload.as_slice()) {
            Ok(cs) => cs,
            Err(e) => {
                return Err(e);
            },
        };
        Ok(Lut { compression, repository, version, chunks })
    }
}

/// A LUT written and read back is the LUT, as far as a LUT keeps its chunks.
#[verifier::rlimit(40)]
#[verifier::spinoff_prover]
pub proof fn lemma_lut_round_trip(m: LutModel, c: Seq<u8>)
    requires
        lut_fits(m),
        section_wf(m.version),
        inflated(m.compression, c) == Some(payload_bytes(m.chunks)),
    ensures
        read_lut_file_spec(lut_header(m.compression, m.repository, m.version) + c) == Ok::<LutModel, LutError>(
            LutModel { chunks: m.chunks.map_values(|x: ChunkModel| lut_kept(x)), ..m },
        ),
{
    let h1 = le_u16(LUT_MAGIC);
    let h2 = le_u16(LUT_VERSION);
    let h3 = le(compress_code(m.compression) as nat, 1);
    let h4 = net_string(m.repository);
    let h5 = net_string(version_text(m.version, true));
    let d = lut_header(m.compression, m.repository, m.version) + c;
    assert(d == h1 + h2 + h3 + h4 + h5 + c);
    assert(d.subrange(0, d.len() as int) =~= d);
    lemma_holds_split(d, 0, h1 + h2 + h3 + h4 + h5, c);
    lemma_holds_split(d, 0, h1 + h2 + h3 + h4, h5);
    lemma_holds_split(d, 0, h1 + h2 + h3, h4);
    lemma_holds_split(d, 0, h1 + h2, h3);
    lemma_holds_split(d, 0, h1, h2);
    lemma_read_u16(d, 0, LUT_MAGIC);
    lemma_read_u16(d, 2, LUT_VERSION);
    lemma_read_u8(d, 4, compress_code(m.compression));
    lemma_read_string(d, 5, m.repository);
    let p5 = 5 + h4.len();
    lemma_read_string(d, p5 as int, version_text(m.version, true));
    lemma_version_text_parses(m.version, true);
    let p6 = p5 + h5.len();
    assert(d.skip(p6 as int) =~= c);
    lemma_payload_round_trip(m.chunks);
}

} // verus!
