//! The archive itself: its on-disk layout, the reader, and the extraction of
//! a single resource.
//!
//! An archive is, in this order: a four-byte magic; for version 2 a metadata
//! block of nine bytes; a header of three words; for a patch the list of
//! resources it deletes; the offset table; the metadata table, each entry
//! followed by its references; and the payloads. Every integer is
//! little-endian.

use crate::lz4_block::{lz4_decoded, lz4_decompress};
use crate::ordered::{ordered_index_of, ordered_insert, ordered_new, set_items};
use crate::resource::reference_flags::{
    PackageOffsetFlags,
    ResourceReferenceCountAndFlags,
    ResourceReferenceFlags,
    ResourceReferenceFlagsV1,
    ResourceReferenceFlagsV2,
};
use crate::resource::resource_info::{ResourceInfo, ResourceInfoView};
use crate::resource::runtime_resource_id::{collapsed, RuntimeResourceID};
use crate::text::{chars_of, contains_sub, has_sub};
use crate::wire::{le_u32, le_u64, read_u32, read_u64, scramble, scrambled};
use indexmap::IndexSet;
use vstd::prelude::*;

verus! {

/// Why an archive could not be taken apart.
#[derive(Debug, PartialEq, Eq, Structural, Clone, Copy)]
pub enum ParsingFailure {
    /// The data ends inside a field.
    UnexpectedEnd,
    /// The first four bytes name no supported version.
    UnknownMagic,
    /// The chunk type of the metadata block is neither standard nor addon.
    UnknownChunkType,
}

#[derive(Debug)]
pub enum ResourcePackageError {
    /// The source could not be read, or ends before the resource does.
    IoError(String),
    /// The requested resource is not in the archive.
    ResourceNotFound,
    /// The bytes are no archive.
    ParsingError(ParsingFailure),
    /// The archive was built without a source to read payloads from.
    NoSource,
    /// A compressed resource did not decompress.
    Lz4DecompressionError(lzzzz::Error),
}

/// Where the payloads of a parsed archive can be read.
#[derive(Debug)]
pub enum ResourcePackageSource {
    /// A file, by its path. This crate opens no files: for such an archive
    /// the caller reads the span that `stored_span` names and hands it to
    /// `decode_stored`.
    File(String),
    /// The whole archive, in memory.
    Memory(Vec<u8>),
}

/// The version of the package.
///
/// `RPKGv1` is the version used in Hitman 2016 and Hitman 2, `RPKGv2` the one
/// used in Hitman 3.
#[allow(non_camel_case_types)]
#[derive(Debug, PartialEq, Eq, Structural, Clone, Copy)]
pub enum PackageVersion {
    RPKGv1,
    RPKGv2,
}

#[derive(Debug, PartialEq, Eq, Structural, Clone, Copy)]
pub enum ChunkType {
    Standard,
    Addon,
}

impl Default for ChunkType {
    fn default() -> (r: Self)
        ensures
            r == ChunkType::Standard,
    {
        ChunkType::Standard
    }
}

/// The block that follows the magic of a version 2 archive.
#[derive(Debug, PartialEq, Eq, Clone, Copy)]
pub struct PackageMetadata {
    pub unknown: u32,
    pub chunk_id: u8,
    pub chunk_type: ChunkType,
    pub patch_id: u8,
    /// Presumably an unused language code; shipping files hold `xx`.
    pub language_tag: [u8; 2],
}

#[derive(Debug, PartialEq, Eq, Structural, Clone, Copy)]
pub struct PackageHeader {
    pub file_count: u32,
    pub offset_table_size: u32,
    pub metadata_table_size: u32,
}

/// One entry of the offset table.
#[derive(Debug, PartialEq, Eq, Structural, Clone, Copy)]
pub struct PackageOffsetInfo {
    pub runtime_resource_id: RuntimeResourceID,
    pub data_offset: u64,
    pub flags: PackageOffsetFlags,
}

impl PackageOffsetInfo {
    /// The compressed size, or `None` where the entry stores zero, which
    /// marks a resource that is not compressed.
    pub open spec fn compressed(&self) -> Option<u32> {
        if self.flags.size_bits() == 0 {
            None
        } else {
            Some(self.flags.size_bits())
        }
    }

    pub fn is_scrambled(&self) -> (r: bool)
        ensures
            r == self.flags.scrambled_bit(),
    {
        self.flags.is_scrambled()
    }

    #[verifier::when_used_as_spec(compressed)]
    pub fn compressed_size(&self) -> (r: Option<u32>)
        ensures
            r == self.compressed(),
    {
        let n = self.flags.compressed_size();
        if n == 0 {
            None
        } else {
            Some(n)
        }
    }
}

/// One entry of the metadata table, with the references that follow it.
#[derive(Debug, Clone)]
pub struct ResourceHeader {
    /// The four characters of the type, last first.
    pub resource_type: [u8; 4],
    pub references_chunk_size: u32,
    pub states_chunk_size: u32,
    pub data_size: u32,
    pub system_memory_requirement: u32,
    pub video_memory_requirement: u32,
    pub references: Vec<(RuntimeResourceID, ResourceReferenceFlags)>,
}

/// The mathematical content of a `ResourceHeader`.
pub struct ResourceHeaderView {
    pub resource_type: [u8; 4],
    pub references_chunk_size: u32,
    pub states_chunk_size: u32,
    pub data_size: u32,
    pub system_memory_requirement: u32,
    pub video_memory_requirement: u32,
    pub references: Seq<(RuntimeResourceID, ResourceReferenceFlags)>,
}

impl View for ResourceHeader {
    type V = ResourceHeaderView;

    open spec fn view(&self) -> ResourceHeaderView {
        ResourceHeaderView {
            resource_type: self.resource_type,
            references_chunk_size: self.references_chunk_size,
            states_chunk_size: self.states_chunk_size,
            data_size: self.data_size,
            system_memory_requirement: self.system_memory_requirement,
            video_memory_requirement: self.video_memory_requirement,
            references: self.references@,
        }
    }
}

/// The size of one offset-table entry.
pub const OFFSET_ENTRY_SIZE: usize = 20;

/// The size of one metadata-table entry without its references.
pub const RESOURCE_HEADER_SIZE: usize = 24;

/// Whether `data` starts with `GKPR`, the magic of version 1.
pub open spec fn has_magic_v1(data: Seq<u8>) -> bool {
    data.len() >= 4 && data[0] == 0x47 && data[1] == 0x4B && data[2] == 0x50 && data[3] == 0x52
}

/// Whether `data` starts with `2KPR`, the magic of version 2.
pub open spec fn has_magic_v2(data: Seq<u8>) -> bool {
    data.len() >= 4 && data[0] == 0x32 && data[1] == 0x4B && data[2] == 0x50 && data[3] == 0x52
}

/// Where the header stands: behind the magic and, for version 2, the metadata block.
pub open spec fn header_pos(data: Seq<u8>) -> int {
    if has_magic_v2(data) {
        13
    } else {
        4
    }
}

/// The number of resources that a patch deletes; no archive but a patch has such a list.
pub open spec fn unneeded_count(data: Seq<u8>, is_patch: bool) -> int {
    if is_patch {
        le_u32(data, header_pos(data) + 12)
    } else {
        0
    }
}

/// Where the offset table stands.
pub open spec fn offset_table_pos(data: Seq<u8>, is_patch: bool) -> int {
    if is_patch {
        header_pos(data) + 16 + 8 * unneeded_count(data, is_patch)
    } else {
        header_pos(data) + 12
    }
}

/// The number of resources, as the header gives it.
pub open spec fn file_count(data: Seq<u8>) -> int {
    le_u32(data, header_pos(data))
}

/// Where the metadata table stands.
pub open spec fn metadata_table_pos(data: Seq<u8>, is_patch: bool) -> int {
    offset_table_pos(data, is_patch) + 20 * file_count(data)
}

/// The metadata block of a version 2 archive.
pub open spec fn metadata_of(data: Seq<u8>) -> PackageMetadata {
    PackageMetadata {
        unknown: le_u32(data, 4) as u32,
        chunk_id: data[8],
        chunk_type: if data[9] == 0 {
            ChunkType::Standard
        } else {
            ChunkType::Addon
        },
        patch_id: data[10],
        language_tag: [data[11], data[12]],
    }
}

/// The header.
pub open spec fn header_of(data: Seq<u8>) -> PackageHeader {
    PackageHeader {
        file_count: le_u32(data, header_pos(data)) as u32,
        offset_table_size: le_u32(data, header_pos(data) + 4) as u32,
        metadata_table_size: le_u32(data, header_pos(data) + 8) as u32,
    }
}

/// The offset-table entry that starts at `at`.
pub open spec fn offset_entry_at(data: Seq<u8>, at: int) -> PackageOffsetInfo {
    PackageOffsetInfo {
        runtime_resource_id: RuntimeResourceID { id: le_u64(data, at) as u64 },
        data_offset: le_u64(data, at + 8) as u64,
        flags: PackageOffsetFlags { bits: le_u32(data, at + 16) as u32 },
    }
}

/// The `i`-th reference of the chunk that starts at `chunk` and holds `count`
/// references. The legacy layout stores the identifiers, then the flag
/// bytes; the new layout stores the flag bytes first. An identifier out of
/// range reads as the sentinel.
pub open spec fn reference_at(data: Seq<u8>, chunk: int, count: int, new_format: bool, i: int) -> (
    RuntimeResourceID,
    ResourceReferenceFlags,
) {
    if new_format {
        (
            RuntimeResourceID { id: collapsed(le_u64(data, chunk + 4 + count + 8 * i) as u64) },
            ResourceReferenceFlags::V2(ResourceReferenceFlagsV2 { bits: data[chunk + 4 + i] }),
        )
    } else {
        (
            RuntimeResourceID { id: collapsed(le_u64(data, chunk + 4 + 8 * i) as u64) },
            ResourceReferenceFlags::V1(
                ResourceReferenceFlagsV1 { bits: data[chunk + 4 + 8 * count + i] },
            ),
        )
    }
}

/// The references of the chunk that starts at `chunk`.
pub open spec fn references_at(data: Seq<u8>, chunk: int) -> Seq<
    (RuntimeResourceID, ResourceReferenceFlags),
> {
    let word = ResourceReferenceCountAndFlags { bits: le_u32(data, chunk) as u32 };
    Seq::new(
        word.count_bits() as nat,
        |i: int| reference_at(data, chunk, word.count_bits() as int, word.new_format_bit(), i),
    )
}

/// The number of bytes that the metadata entry at `at` takes with its
/// references, or `None` where the data ends before the entry does. The
/// references are counted by the word that leads them; the entry's
/// `references_chunk_size` only says whether there are any.
pub open spec fn header_span(data: Seq<u8>, at: int) -> Option<int> {
    if at + 24 > data.len() {
        None
    } else if le_u32(data, at + 4) == 0 {
        Some(24)
    } else if at + 28 > data.len() {
        None
    } else {
        let count = le_u32(data, at + 24) % 0x4000_0000;
        if at + 28 + 9 * count > data.len() {
            None
        } else {
            Some(28 + 9 * count)
        }
    }
}

/// The metadata entry that starts at `at`.
pub open spec fn header_at(data: Seq<u8>, at: int) -> ResourceHeaderView {
    ResourceHeaderView {
        resource_type: [data[at], data[at + 1], data[at + 2], data[at + 3]],
        references_chunk_size: le_u32(data, at + 4) as u32,
        states_chunk_size: le_u32(data, at + 8) as u32,
        data_size: le_u32(data, at + 12) as u32,
        system_memory_requirement: le_u32(data, at + 16) as u32,
        video_memory_requirement: le_u32(data, at + 20) as u32,
        references: if le_u32(data, at + 4) == 0 {
            Seq::empty()
        } else {
            references_at(data, at + 24)
        },
    }
}

/// Where the `k`-th metadata entry of the table at `start` stands (and so,
/// for `k` entries, where the table ends), or `None` where the data ends
/// inside an earlier entry.
pub open spec fn header_pos_of(data: Seq<u8>, start: int, k: nat) -> Option<int>
    decreases k,
{
    if k == 0 {
        Some(start)
    } else {
        match header_pos_of(data, start, (k - 1) as nat) {
            None => None,
            Some(at) => match header_span(data, at) {
                None => None,
                Some(len) => Some(at + len),
            },
        }
    }
}

/// `table` with `entry` put under its identifier: in place of the entry
/// that has the identifier, or at the end where none has.
pub open spec fn keyed_insert(table: Seq<ResourceInfoView>, entry: ResourceInfoView) -> Seq<
    ResourceInfoView,
> {
    if exists|i: int| 0 <= i < table.len() && (#[trigger] table[i]).id() == entry.id() {
        table.update(choose|i: int| 0 <= i < table.len() && (#[trigger] table[i]).id() == entry.id(), entry)
    } else {
        table.push(entry)
    }
}

/// The table that holds `entries` by identifier: each identifier once, at
/// the place of its first entry, with what its last entry says.
pub open spec fn keyed(entries: Seq<ResourceInfoView>) -> Seq<ResourceInfoView>
    decreases entries.len(),
{
    if entries.len() == 0 {
        Seq::empty()
    } else {
        keyed_insert(keyed(entries.drop_last()), entries.last())
    }
}

/// Whether no two entries of `table` have the same identifier.
pub open spec fn distinct_ids(table: Seq<ResourceInfoView>) -> bool {
    forall|i: int, j: int|
        0 <= i < j < table.len() ==> (#[trigger] table[i]).id() != (#[trigger] table[j]).id()
}

/// The identifiers of `table`, in order.
pub open spec fn ids_of(table: Seq<ResourceInfoView>) -> Seq<u64> {
    Seq::new(table.len(), |i: int| table[i].id())
}

/// The mathematical content of a parsed archive.
pub struct PackageView {
    pub is_patch: bool,
    pub magic: [u8; 4],
    pub metadata: Option<PackageMetadata>,
    pub header: PackageHeader,
    pub unneeded_resource_count: u32,
    pub unneeded_resources: Option<Seq<RuntimeResourceID>>,
    pub resources: Seq<ResourceInfoView>,
}

/// Whether `data` can be read as an archive: the magic is known, a version 2
/// chunk type is known, and no field or table reaches past the end.
pub open spec fn readable(data: Seq<u8>, is_patch: bool) -> bool {
    &&& has_magic_v1(data) || has_magic_v2(data)
    &&& has_magic_v2(data) ==> data.len() >= 13 && data[9] <= 1
    &&& header_pos(data) + 12 <= data.len()
    &&& is_patch ==> header_pos(data) + 16 <= data.len()
    &&& offset_table_pos(data, is_patch) <= data.len()
    &&& metadata_table_pos(data, is_patch) <= data.len()
    &&& header_pos_of(data, metadata_table_pos(data, is_patch), file_count(data) as nat) is Some
}

/// The entries of the two tables, paired, in the order of the offset table.
pub open spec fn entries_of(data: Seq<u8>, is_patch: bool) -> Seq<ResourceInfoView> {
    Seq::new(
        file_count(data) as nat,
        |i: int|
            ResourceInfoView {
                entry: offset_entry_at(data, offset_table_pos(data, is_patch) + 20 * i),
                header: header_at(
                    data,
                    header_pos_of(data, metadata_table_pos(data, is_patch), i as nat)->0,
                ),
            },
    )
}

/// The identifiers that a patch lists as deleted, each collapsed into range.
pub open spec fn unneeded_of(data: Seq<u8>, is_patch: bool) -> Seq<RuntimeResourceID> {
    Seq::new(
        unneeded_count(data, is_patch) as nat,
        |i: int| RuntimeResourceID { id: collapsed(le_u64(data, header_pos(data) + 16 + 8 * i) as u64) },
    )
}

/// Whether some reference of `resources` was read in the legacy layout.
pub open spec fn legacy_layout(resources: Seq<ResourceInfoView>) -> bool {
    exists|i: int, j: int|
        0 <= i < resources.len() && 0 <= j < resources[i].header.references.len() && (
        #[trigger] resources[i].header.references[j]).1 is V1
}

/// What `data` holds when read as an archive, or `None` where it is not
/// `readable`. Only an archive read as a patch has a list of deleted
/// resources, whatever bytes follow its header.
#[verifier::opaque]
pub open spec fn parsed(data: Seq<u8>, is_patch: bool) -> Option<PackageView> {
    if readable(data, is_patch) {
        Some(
            PackageView {
                is_patch,
                magic: [data[0], data[1], data[2], data[3]],
                metadata: if has_magic_v2(data) {
                    Some(metadata_of(data))
                } else {
                    None
                },
                header: header_of(data),
                unneeded_resource_count: unneeded_count(data, is_patch) as u32,
                unneeded_resources: if unneeded_count(data, is_patch) == 0 {
                    None
                } else {
                    Some(unneeded_of(data, is_patch))
                },
                resources: keyed(entries_of(data, is_patch)),
            },
        )
    } else {
        None
    }
}

/// A parsed archive. `index` holds the identifiers of `resources` in the
/// order of the offset table, which is the order in which a builder writes
/// them back.
pub struct ResourcePackage {
    pub source: Option<ResourcePackageSource>,
    /// Whether the archive was read as a patch, with a list of deleted resources.
    pub is_patch: bool,
    pub magic: [u8; 4],
    pub metadata: Option<PackageMetadata>,
    pub header: PackageHeader,
    pub unneeded_resource_count: u32,
    pub unneeded_resources: Option<Vec<RuntimeResourceID>>,
    pub index: IndexSet<u64>,
    pub resources: Vec<ResourceInfo>,
}

/// The contents of a table of resources.
pub open spec fn table_view(table: Seq<ResourceInfo>) -> Seq<ResourceInfoView> {
    Seq::new(table.len(), |i: int| table[i]@)
}

impl View for ResourcePackage {
    type V = PackageView;

    open spec fn view(&self) -> PackageView {
        PackageView {
            is_patch: self.is_patch,
            magic: self.magic,
            metadata: self.metadata,
            header: self.header,
            unneeded_resource_count: self.unneeded_resource_count,
            unneeded_resources: match self.unneeded_resources {
                None => None,
                Some(v) => Some(v@),
            },
            resources: table_view(self.resources@),
        }
    }
}


/// Reads the reference chunk that starts at `chunk`: its references and the
/// number of bytes it takes, or `None` where the data ends inside it.
pub fn read_references(data: &[u8], chunk: usize) -> (r: Option<
    (Vec<(RuntimeResourceID, ResourceReferenceFlags)>, usize),
>)
    requires
        chunk <= data@.len(),
    ensures
        r is Some <==> chunk + 4 <= data@.len() && chunk + 4 + 9 * (le_u32(data@, chunk as int)
            % 0x4000_0000) <= data@.len(),
        r matches Some((refs, len)) ==> refs@ == references_at(data@, chunk as int) && len == 4
            + 9 * (le_u32(data@, chunk as int) % 0x4000_0000),
{
    let word = match read_u32(data, chunk) {
        Some(w) => ResourceReferenceCountAndFlags::from_bits(w),
        None => {
            return None;
        },
    };
    let count = word.reference_count();
    let new_format = word.is_new_format();
    let room = data.len() - chunk - 4;
    if count as u64 * 9 > room as u64 {
        return None;
    }
    let n = count as usize;
    let base = chunk + 4;
    let mut refs: Vec<(RuntimeResourceID, ResourceReferenceFlags)> = Vec::new();
    let mut i: usize = 0;
    while i < n
        invariant
            i <= n,
            n == count,
            count == word.count_bits(),
            new_format == word.new_format_bit(),
            word.bits == le_u32(data@, chunk as int),
            base == chunk + 4,
            base + 9 * n <= data@.len(),
            data@.len() <= usize::MAX,
            refs@.len() == i,
            forall|j: int|
                0 <= j < i ==> refs@[j] == reference_at(
                    data@,
                    chunk as int,
                    count as int,
                    new_format,
                    j,
                ),
        decreases n - i,
    {
        let (id_at, flag_at) = if new_format {
            (base + n + 8 * i, base + i)
        } else {
            (base + 8 * i, base + 8 * n + i)
        };
        let id = match read_u64(data, id_at) {
            Some(v) => v,
            None => {
                return None;
            },
        };
        let bits = data[flag_at];
        let flags = if new_format {
            ResourceReferenceFlags::V2(ResourceReferenceFlagsV2::from_bits(bits))
        } else {
            ResourceReferenceFlags::V1(ResourceReferenceFlagsV1::from_bits(bits))
        };
        refs.push((RuntimeResourceID::from(id), flags));
        i += 1;
    }
    assert(refs@ =~= references_at(data@, chunk as int));
    Some((refs, 4 + 9 * n))
}

/// Reads the metadata entry that starts at `at`, with its references: the
/// entry and the number of bytes it takes, or `None` where the data ends
/// inside it.
pub fn read_header(data: &[u8], at: usize) -> (r: Option<(ResourceHeader, usize)>)
    requires
        at <= data@.len(),
    ensures
        r is Some <==> header_span(data@, at as int) is Some,
        r matches Some((header, len)) ==> header@ == header_at(data@, at as int) && Some(
            len as int,
        ) == header_span(data@, at as int),
{
    if data.len() - at < 24 {
        return None;
    }
    let resource_type = [data[at], data[at + 1], data[at + 2], data[at + 3]];
    let references_chunk_size = read_u32(data, at + 4).unwrap();
    let states_chunk_size = read_u32(data, at + 8).unwrap();
    let data_size = read_u32(data, at + 12).unwrap();
    let system_memory_requirement = read_u32(data, at + 16).unwrap();
    let video_memory_requirement = read_u32(data, at + 20).unwrap();
    let (references, len) = if references_chunk_size > 0 {
        match read_references(data, at + 24) {
            Some((refs, chunk_len)) => (refs, 24 + chunk_len),
            None => {
                return None;
            },
        }
    } else {
        (Vec::new(), 24)
    };
    let header = ResourceHeader {
        resource_type,
        references_chunk_size,
        states_chunk_size,
        data_size,
        system_memory_requirement,
        video_memory_requirement,
        references,
    };
    assert(header@.resource_type@ =~= header_at(data@, at as int).resource_type@);
    assert(header@.references =~= header_at(data@, at as int).references);
    Some((header, len))
}

/// An identifier that a table holds is found in it, at one place only.
pub proof fn lemma_keyed_insert_at(table: Seq<ResourceInfoView>, entry: ResourceInfoView, at: int)
    requires
        distinct_ids(table),
        0 <= at < table.len(),
        table[at].id() == entry.id(),
    ensures
        keyed_insert(table, entry) == table.update(at, entry),
        distinct_ids(table.update(at, entry)),
        ids_of(table.update(at, entry)) == ids_of(table),
{
    let found = choose|i: int| 0 <= i < table.len() && (#[trigger] table[i]).id() == entry.id();
    assert(found == at) by {
        if found < at {
            assert(table[found].id() != table[at].id());
        } else if at < found {
            assert(table[at].id() != table[found].id());
        }
    }
    assert(ids_of(table.update(at, entry)) =~= ids_of(table));
}

/// An identifier that a table lacks goes to its end.
pub proof fn lemma_keyed_insert_new(table: Seq<ResourceInfoView>, entry: ResourceInfoView)
    requires
        distinct_ids(table),
        !ids_of(table).contains(entry.id()),
    ensures
        keyed_insert(table, entry) == table.push(entry),
        distinct_ids(table.push(entry)),
        ids_of(table.push(entry)) == ids_of(table).push(entry.id()),
{
    assert forall|i: int| 0 <= i < table.len() implies (#[trigger] table[i]).id() != entry.id() by {
        assert(ids_of(table)[i] == table[i].id());
    }
    assert(ids_of(table.push(entry)) =~= ids_of(table).push(entry.id()));
}

/// Reads the offset table at `table_pos` and the metadata table behind it,
/// `count` entries each, and files the resources by identifier.
fn resource_parser(data: &[u8], is_patch: bool, table_pos: usize, count: u32) -> (r: Option<
    (IndexSet<u64>, Vec<ResourceInfo>),
>)
    requires
        table_pos <= data@.len(),
        table_pos == offset_table_pos(data@, is_patch),
        count == file_count(data@),
    ensures
        r is Some <==> metadata_table_pos(data@, is_patch) <= data@.len() && header_pos_of(
            data@,
            metadata_table_pos(data@, is_patch),
            count as nat,
        ) is Some,
        r matches Some((index, table)) ==> table_view(table@) == keyed(entries_of(data@, is_patch))
            && set_items(index) == ids_of(table_view(table@)) && distinct_ids(table_view(table@)),
{
    let room = data.len() - table_pos;
    if count as u64 * 20 > room as u64 {
        return None;
    }
    let n = count as usize;
    let meta_start = table_pos + 20 * n;
    let mut index = ordered_new();
    let mut table: Vec<ResourceInfo> = Vec::new();
    let mut at: usize = meta_start;
    let mut i: usize = 0;
    assert(table_view(table@) =~= keyed(entries_of(data@, is_patch).take(0)));
    assert(ids_of(table_view(table@)) =~= Seq::<u64>::empty());
    while i < n
        invariant
            i <= n,
            n == count,
            count == file_count(data@),
            table_pos == offset_table_pos(data@, is_patch),
            meta_start == table_pos + 20 * n,
            meta_start == metadata_table_pos(data@, is_patch),
            meta_start <= at <= data@.len(),
            data@.len() <= usize::MAX,
            header_pos_of(data@, meta_start as int, i as nat) == Some(at as int),
            forall|k: nat| k <= i ==> (#[trigger] header_pos_of(data@, meta_start as int, k)) is Some,
            table_view(table@) == keyed(entries_of(data@, is_patch).take(i as int)),
            set_items(index) == ids_of(table_view(table@)),
            distinct_ids(table_view(table@)),
        decreases n - i,
    {
        let entry_at = table_pos + 20 * i;
        let entry = PackageOffsetInfo {
            runtime_resource_id: RuntimeResourceID { id: read_u64(data, entry_at).unwrap() },
            data_offset: read_u64(data, entry_at + 8).unwrap(),
            flags: PackageOffsetFlags::from_bits(read_u32(data, entry_at + 16).unwrap()),
        };
        let (header, len) = match read_header(data, at) {
            Some(h) => h,
            None => {
                proof {
                    lemma_header_pos_of_fails(data@, meta_start as int, i as nat + 1, n as nat);
                }
                return None;
            },
        };
        let info = ResourceInfo { entry, header };
        let ghost before = table_view(table@);
        let ghost entries = entries_of(data@, is_patch);
        proof {
            assert(entries.take(i + 1).drop_last() =~= entries.take(i as int));
            assert(entries.take(i + 1).last() == entries[i as int]);
            assert(info@ == entries[i as int]);
        }
        let (slot, inserted) = ordered_insert(&mut index, entry.runtime_resource_id.id);
        if inserted {
            proof {
                lemma_keyed_insert_new(before, info@);
            }
            table.push(info);
            assert(table_view(table@) =~= before.push(info@));
        } else {
            proof {
                assert(ids_of(before)[slot as int] == before[slot as int].id());
                lemma_keyed_insert_at(before, info@, slot as int);
            }
            table.set(slot, info);
            assert(table_view(table@) =~= before.update(slot as int, info@));
        }
        at = at + len;
        i += 1;
        assert forall|k: nat| k <= i implies (#[trigger] header_pos_of(
            data@,
            meta_start as int,
            k,
        )) is Some by {
            if k == i {
            }
        }
    }
    assert(entries_of(data@, is_patch).take(n as int) =~= entries_of(data@, is_patch));
    Some((index, table))
}

/// Once the data ends inside an entry, no later entry has a place.
proof fn lemma_header_pos_of_fails(data: Seq<u8>, start: int, k: nat, n: nat)
    requires
        header_pos_of(data, start, k) is None,
        k <= n,
    ensures
        header_pos_of(data, start, n) is None,
    decreases n - k,
{
    if k < n {
        lemma_header_pos_of_fails(data, start, k + 1, n);
    }
}

impl ResourcePackage {
    /// What holds of every archive that the reader returns: the magic names
    /// a version, the metadata block is there exactly for version 2, and the
    /// index lists the identifiers of the resources, each once.
    pub open spec fn wf(&self) -> bool {
        &&& has_magic_v1(self.magic@) || has_magic_v2(self.magic@)
        &&& self.metadata is Some <==> has_magic_v2(self.magic@)
        &&& set_items(self.index) == ids_of(self@.resources)
        &&& distinct_ids(self@.resources)
    }

    /// Takes an archive apart. The result keeps no source, so no payload can
    /// be read from it until one is set.
    pub fn parse(data: &[u8], is_patch: bool) -> (r: Result<Self, ResourcePackageError>)
        ensures
            match parsed(data@, is_patch) {
                Some(content) => r matches Ok(package) && package@ == content && package.wf()
                    && package.source is None,
                None => r matches Err(ResourcePackageError::ParsingError(_)),
            },
    {
        reveal(parsed);
        if data.len() < 4 {
            return Err(ResourcePackageError::ParsingError(ParsingFailure::UnexpectedEnd));
        }
        let magic = [data[0], data[1], data[2], data[3]];
        let v1 = magic[0] == 0x47 && magic[1] == 0x4B && magic[2] == 0x50 && magic[3] == 0x52;
        let v2 = magic[0] == 0x32 && magic[1] == 0x4B && magic[2] == 0x50 && magic[3] == 0x52;
        if !v1 && !v2 {
            return Err(ResourcePackageError::ParsingError(ParsingFailure::UnknownMagic));
        }
        let mut pos: usize = 4;
        let metadata = if v2 {
            if data.len() < 13 {
                return Err(ResourcePackageError::ParsingError(ParsingFailure::UnexpectedEnd));
            }
            let chunk_type = if data[9] == 0 {
                ChunkType::Standard
            } else if data[9] == 1 {
                ChunkType::Addon
            } else {
                return Err(ResourcePackageError::ParsingError(ParsingFailure::UnknownChunkType));
            };
            pos = 13;
            let m = PackageMetadata {
                unknown: read_u32(data, 4).unwrap(),
                chunk_id: data[8],
                chunk_type,
                patch_id: data[10],
                language_tag: [data[11], data[12]],
            };
            assert(m.language_tag@ =~= metadata_of(data@).language_tag@);
            Some(m)
        } else {
            None
        };
        if data.len() - pos < 12 {
            return Err(ResourcePackageError::ParsingError(ParsingFailure::UnexpectedEnd));
        }
        let header = PackageHeader {
            file_count: read_u32(data, pos).unwrap(),
            offset_table_size: read_u32(data, pos + 4).unwrap(),
            metadata_table_size: read_u32(data, pos + 8).unwrap(),
        };
        pos = pos + 12;
        let mut unneeded_resource_count: u32 = 0;
        let mut unneeded_resources: Option<Vec<RuntimeResourceID>> = None;
        if is_patch {
            unneeded_resource_count = match read_u32(data, pos) {
                Some(n) => n,
                None => {
                    return Err(ResourcePackageError::ParsingError(ParsingFailure::UnexpectedEnd));
                },
            };
            pos = pos + 4;
            let room = data.len() - pos;
            if unneeded_resource_count as u64 * 8 > room as u64 {
                return Err(ResourcePackageError::ParsingError(ParsingFailure::UnexpectedEnd));
            }
            let n = unneeded_resource_count as usize;
            let mut ids: Vec<RuntimeResourceID> = Vec::new();
            let mut i: usize = 0;
            while i < n
                invariant
                    i <= n,
                    is_patch,
                    n == unneeded_count(data@, is_patch),
                    pos == header_pos(data@) + 16,
                    pos + 8 * n <= data@.len(),
                    data@.len() <= usize::MAX,
                    ids@.len() == i,
                    forall|j: int| 0 <= j < i ==> ids@[j] == unneeded_of(data@, is_patch)[j],
                decreases n - i,
            {
                let id = read_u64(data, pos + 8 * i).unwrap();
                ids.push(RuntimeResourceID::from(id));
                i += 1;
            }
            assert(ids@ =~= unneeded_of(data@, is_patch));
            pos = pos + 8 * n;
            if n > 0 {
                unneeded_resources = Some(ids);
            }
        }
        let (index, resources) = match resource_parser(data, is_patch, pos, header.file_count) {
            Some(tables) => tables,
            None => {
                return Err(ResourcePackageError::ParsingError(ParsingFailure::UnexpectedEnd));
            },
        };
        let package = ResourcePackage {
            source: None,
            is_patch,
            magic,
            metadata,
            header,
            unneeded_resource_count,
            unneeded_resources,
            index,
            resources,
        };
        proof {
            let content = parsed(data@, is_patch)->0;
            assert(readable(data@, is_patch));
            assert(package@.magic@ =~= content.magic@);
        }
        Ok(package)
    }

    /// Parses a ResourcePackage from a memory buffer, which it keeps as the
    /// source of the payloads.
    ///
    /// # Arguments
    /// * `data` - The data to parse.
    /// * `is_patch` - Whether the package is a patch package.
    pub fn from_memory(data: Vec<u8>, is_patch: bool) -> (r: Result<Self, ResourcePackageError>)
        ensures
            match parsed(data@, is_patch) {
                Some(content) => r matches Ok(package) && package@ == content && package.wf() && (
                package.source matches Some(ResourcePackageSource::Memory(kept)) && kept@ == data@),
                None => r matches Err(ResourcePackageError::ParsingError(_)),
            },
    {
        match Self::parse(data.as_slice(), is_patch) {
            Ok(package) => {
                let ResourcePackage {
                    source: _,
                    is_patch,
                    magic,
                    metadata,
                    header,
                    unneeded_resource_count,
                    unneeded_resources,
                    index,
                    resources,
                } = package;
                Ok(
                    ResourcePackage {
                        source: Some(ResourcePackageSource::Memory(data)),
                        is_patch,
                        magic,
                        metadata,
                        header,
                        unneeded_resource_count,
                        unneeded_resources,
                        index,
                        resources,
                    },
                )
            },
            Err(e) => Err(e),
        }
    }
}


/// The entry of `table` that has the identifier `id`, if one has.
pub open spec fn lookup(table: Seq<ResourceInfoView>, id: u64) -> Option<ResourceInfoView> {
    if exists|i: int| 0 <= i < table.len() && (#[trigger] table[i]).id() == id {
        Some(table[choose|i: int| 0 <= i < table.len() && (#[trigger] table[i]).id() == id])
    } else {
        None
    }
}

/// The bytes that `info` names in `source`, or `None` where they reach past its end.
pub open spec fn stored_bytes(source: Seq<u8>, info: ResourceInfoView) -> Option<Seq<u8>> {
    if info.entry.data_offset + info.stored_size() <= source.len() {
        Some(
            source.subrange(
                info.entry.data_offset as int,
                info.entry.data_offset + info.stored_size(),
            ),
        )
    } else {
        None
    }
}

/// The stored bytes with the obfuscation taken off, where the entry says there is one.
pub open spec fn descrambled(info: ResourceInfoView, stored: Seq<u8>) -> Seq<u8> {
    if info.entry.flags.scrambled_bit() {
        scrambled(stored)
    } else {
        stored
    }
}

/// Whether `out` is what extracting `info` from the stored bytes `stored`
/// gives. The obfuscation comes off first. A resource that is not
/// compressed is then the bytes themselves; a compressed one is a buffer of
/// `data_size` bytes that starts with what the block decodes to.
pub open spec fn extracts_to(info: ResourceInfoView, stored: Seq<u8>, out: Seq<u8>) -> bool {
    let plain = descrambled(info, stored);
    if info.entry.flags.size_bits() == 0 {
        out == plain
    } else {
        &&& lz4_decoded(plain, info.header.data_size as nat) matches Some(decoded)
        &&& out.len() == info.header.data_size
        &&& decoded.len() <= out.len()
        &&& out.take(decoded.len() as int) == decoded
    }
}

/// Whether extracting `info` from the stored bytes `stored` fails: it does
/// only where a compressed resource does not decode.
pub open spec fn extraction_fails(info: ResourceInfoView, stored: Seq<u8>) -> bool {
    info.entry.flags.size_bits() != 0 && lz4_decoded(
        descrambled(info, stored),
        info.header.data_size as nat,
    ) is None
}

/// Turns the stored bytes of a resource into its data: takes off the
/// obfuscation, then decompresses.
pub fn decode_stored(info: &ResourceInfo, stored: Vec<u8>) -> (r: Result<
    Vec<u8>,
    ResourcePackageError,
>)
    ensures
        extraction_fails(info@, stored@) ==> r matches Err(
            ResourcePackageError::Lz4DecompressionError(_),
        ),
        !extraction_fails(info@, stored@) ==> (r matches Ok(out) && extracts_to(
            info@,
            stored@,
            out@,
        )),
        r matches Ok(out) ==> stored@.len() == info@.stored_size() ==> out@.len()
            == info@.header.data_size,
{
    let plain = if info.is_scrambled() {
        scramble(stored.as_slice())
    } else {
        stored
    };
    if info.is_compressed() {
        match lz4_decompress(plain.as_slice(), info.header.data_size as usize) {
            Ok(out) => Ok(out),
            Err(e) => Err(ResourcePackageError::Lz4DecompressionError(e)),
        }
    } else {
        Ok(plain)
    }
}

/// Copies `len` bytes of `data` from `from` on, or returns `None` where they
/// reach past the end.
pub fn copy_span(data: &[u8], from: u64, len: u32) -> (r: Option<Vec<u8>>)
    ensures
        from + len <= data@.len() ==> (r matches Some(v) && v@ == data@.subrange(
            from as int,
            from + len,
        )),
        from + len > data@.len() ==> r is None,
{
    let total = data.len() as u64;
    if from > total || len as u64 > total - from {
        return None;
    }
    let start = from as usize;
    let end = start + len as usize;
    let mut out: Vec<u8> = Vec::new();
    let mut i: usize = start;
    while i < end
        invariant
            start <= i <= end <= data@.len(),
            out@ == data@.subrange(start as int, i as int),
        decreases end - i,
    {
        out.push(data[i]);
        i += 1;
        assert(data@.subrange(start as int, i as int) =~= data@.subrange(start as int, i - 1).push(
            data@[i - 1],
        ));
    }
    Some(out)
}

impl ResourcePackage {
    /// Returns the version of the package.
    pub fn version(&self) -> (r: PackageVersion)
        requires
            self.wf(),
        ensures
            r == if has_magic_v1(self.magic@) {
                PackageVersion::RPKGv1
            } else {
                PackageVersion::RPKGv2
            },
    {
        if self.magic[0] == 0x47 {
            PackageVersion::RPKGv1
        } else {
            PackageVersion::RPKGv2
        }
    }

    /// Returns the source of the package.
    pub fn source(&self) -> (r: Option<&ResourcePackageSource>)
        ensures
            match self.source {
                Some(s) => r == Some(&s),
                None => r is None,
            },
    {
        match &self.source {
            Some(s) => Some(s),
            None => None,
        }
    }

    /// Returns the resources in the order of the offset table, each
    /// identifier once.
    pub fn resources(&self) -> (r: &Vec<ResourceInfo>)
        ensures
            r == &self.resources,
    {
        &self.resources
    }

    /// Returns what the archive says about `rrid`, if it holds it.
    pub fn get(&self, rrid: &RuntimeResourceID) -> (r: Option<&ResourceInfo>)
        requires
            self.wf(),
        ensures
            match lookup(self@.resources, rrid.id) {
                Some(info) => r matches Some(found) && found@ == info,
                None => r is None,
            },
            r matches Some(found) ==> found@.id() == rrid.id,
    {
        match ordered_index_of(&self.index, rrid.id) {
            Some(slot) => {
                proof {
                    let table = self@.resources;
                    assert(ids_of(table)[slot as int] == table[slot as int].id());
                    let found = choose|i: int|
                        0 <= i < table.len() && (#[trigger] table[i]).id() == rrid.id;
                    if found < slot {
                        assert(table[found].id() != table[slot as int].id());
                    } else if slot < found {
                        assert(table[slot as int].id() != table[found].id());
                    }
                }
                Some(&self.resources[slot])
            },
            None => {
                proof {
                    let table = self@.resources;
                    assert forall|i: int| 0 <= i < table.len() implies (#[trigger] table[i]).id()
                        != rrid.id by {
                        assert(ids_of(table)[i] == table[i].id());
                    }
                }
                None
            },
        }
    }

    /// Returns whether the archive holds `rrid`.
    pub fn contains(&self, rrid: &RuntimeResourceID) -> (r: bool)
        requires
            self.wf(),
        ensures
            r == lookup(self@.resources, rrid.id) is Some,
    {
        self.get(rrid).is_some()
    }

    /// Returns whether the package uses the legacy references format, which
    /// it does where any reference of any resource was read in it.
    pub fn has_legacy_references(&self) -> (r: bool)
        ensures
            r == legacy_layout(self@.resources),
    {
        let mut i: usize = 0;
        while i < self.resources.len()
            invariant
                i <= self.resources@.len(),
                forall|a: int, b: int|
                    0 <= a < i && 0 <= b < self@.resources[a].header.references.len() ==> !((
                    #[trigger] self@.resources[a].header.references[b]).1 is V1),
            decreases self.resources@.len() - i,
        {
            let refs = &self.resources[i].header.references;
            let mut j: usize = 0;
            while j < refs.len()
                invariant
                    i < self.resources@.len(),
                    refs@ == self@.resources[i as int].header.references,
                    j <= refs@.len(),
                    forall|b: int| 0 <= b < j ==> !((#[trigger] refs@[b]).1 is V1),
                decreases refs@.len() - j,
            {
                match refs[j].1 {
                    ResourceReferenceFlags::V1(_) => {
                        assert(self@.resources[i as int].header.references[j as int].1 is V1);
                        return true;
                    },
                    ResourceReferenceFlags::V2(_) => {},
                }
                j += 1;
            }
            i += 1;
        }
        false
    }

    /// Returns whether the given resource is an unneeded resource.
    ///
    /// # Arguments
    /// * `rrid` - The resource ID to check.
    pub fn has_unneeded_resource(&self, rrid: &RuntimeResourceID) -> (r: bool)
        ensures
            r == match self@.unneeded_resources {
                Some(ids) => ids.contains(*rrid),
                None => false,
            },
    {
        match &self.unneeded_resources {
            Some(ids) => {
                let mut i: usize = 0;
                while i < ids.len()
                    invariant
                        i <= ids@.len(),
                        self@.unneeded_resources == Some(ids@),
                        forall|j: int| 0 <= j < i ==> ids@[j] != *rrid,
                    decreases ids@.len() - i,
                {
                    if ids[i].id == rrid.id {
                        assert(ids@[i as int] == *rrid);
                        return true;
                    }
                    i += 1;
                }
                false
            },
            None => false,
        }
    }

    /// Returns all unneeded resource IDs, in the order of the file.
    pub fn unneeded_resource_ids(&self) -> (r: Vec<RuntimeResourceID>)
        ensures
            r@ == match self@.unneeded_resources {
                Some(ids) => ids,
                None => Seq::empty(),
            },
    {
        match &self.unneeded_resources {
            None => Vec::new(),
            Some(ids) => ids.clone(),
        }
    }

    /// Where the stored bytes of `rrid` lie: their offset in the archive
    /// and their number.
    pub fn stored_span(&self, rrid: &RuntimeResourceID) -> (r: Result<
        (u64, u32),
        ResourcePackageError,
    >)
        requires
            self.wf(),
        ensures
            match lookup(self@.resources, rrid.id) {
                Some(info) => r == Ok::<(u64, u32), ResourcePackageError>(
                    (info.entry.data_offset, info.stored_size()),
                ),
                None => r matches Err(ResourcePackageError::ResourceNotFound),
            },
    {
        match self.get(rrid) {
            Some(info) => {
                let size = match info.compressed_size() {
                    Some(n) => n,
                    None => info.header.data_size,
                };
                Ok((info.entry.data_offset, size))
            },
            None => Err(ResourcePackageError::ResourceNotFound),
        }
    }

    /// Turns the stored bytes of `rrid`, read by the caller from the span
    /// that `stored_span` names, into the data of the resource.
    pub fn decode_resource(&self, rrid: &RuntimeResourceID, stored: Vec<u8>) -> (r: Result<
        Vec<u8>,
        ResourcePackageError,
    >)
        requires
            self.wf(),
        ensures
            match lookup(self@.resources, rrid.id) {
                None => r matches Err(ResourcePackageError::ResourceNotFound),
                Some(info) => if extraction_fails(info, stored@) {
                    r matches Err(ResourcePackageError::Lz4DecompressionError(_))
                } else {
                    r matches Ok(out) && extracts_to(info, stored@, out@)
                },
            },
    {
        match self.get(rrid) {
            Some(info) => decode_stored(info, stored),
            None => Err(ResourcePackageError::ResourceNotFound),
        }
    }

    /// Whether `r` is what reading the resource `id` gives.
    pub open spec fn reads_as(&self, id: u64, r: Result<Vec<u8>, ResourcePackageError>) -> bool {
        match lookup(self@.resources, id) {
            None => r matches Err(ResourcePackageError::ResourceNotFound),
            Some(info) => match self.source {
                None => r matches Err(ResourcePackageError::NoSource),
                Some(ResourcePackageSource::File(_)) => r matches Err(
                    ResourcePackageError::IoError(_),
                ),
                Some(ResourcePackageSource::Memory(data)) => match stored_bytes(data@, info) {
                    None => r matches Err(ResourcePackageError::IoError(_)),
                    Some(stored) => if extraction_fails(info, stored) {
                        r matches Err(ResourcePackageError::Lz4DecompressionError(_))
                    } else {
                        r matches Ok(out) && extracts_to(info, stored, out@) && out@.len()
                            == info.header.data_size
                    },
                },
            },
        }
    }

    /// Reads the data of a resource from the package into memory.
    ///
    /// The resource must be in the archive (`ResourceNotFound`) and the
    /// archive must have a source (`NoSource`) that is in memory and holds
    /// the whole span of the resource (`IoError`). Its bytes then go through
    /// `decode_stored`; what comes out has exactly `data_size` bytes.
    ///
    /// # Arguments
    /// * `rrid` - The resource ID of the resource to read.
    pub fn read_resource(&self, rrid: &RuntimeResourceID) -> (r: Result<
        Vec<u8>,
        ResourcePackageError,
    >)
        requires
            self.wf(),
        ensures
            self.reads_as(rrid.id, r),
    {
        let info = match self.get(rrid) {
            Some(info) => info,
            None => {
                return Err(ResourcePackageError::ResourceNotFound);
            },
        };
        let final_size = match info.compressed_size() {
            Some(n) => n,
            None => info.header.data_size,
        };
        let buffer = match &self.source {
            Some(ResourcePackageSource::File(_)) => {
                return Err(
                    ResourcePackageError::IoError(
                        "the source is a file, which the caller reads".to_string(),
                    ),
                );
            },
            Some(ResourcePackageSource::Memory(data)) => {
                match copy_span(data.as_slice(), info.entry.data_offset, final_size) {
                    Some(bytes) => bytes,
                    None => {
                        return Err(
                            ResourcePackageError::IoError(
                                "failed to fill whole buffer".to_string(),
                            ),
                        );
                    },
                }
            },
            None => {
                return Err(ResourcePackageError::NoSource);
            },
        };
        decode_stored(info, buffer)
    }
}


/// An archive that is not read as a patch has no list of deleted
/// resources, whatever its bytes are: what follows its header is read as
/// the offset table.
pub proof fn law_base_has_no_unneeded(data: Seq<u8>)
    ensures
        parsed(data, false) matches Some(content) ==> content.unneeded_resources is None
            && content.unneeded_resource_count == 0,
        offset_table_pos(data, false) == header_pos(data) + 12,
{
    reveal(parsed);
}

impl ResourcePackage {
    /// Whether a file of this name is read as a patch: it is where the
    /// name holds `patch`.
    pub fn is_patch_file(file_name: &str) -> (r: bool)
        ensures
            r == has_sub(file_name@, "patch"@),
    {
        contains_sub(&chars_of(file_name), &chars_of("patch"))
    }

    /// Parses a ResourcePackage from the bytes of a file, whose path it
    /// keeps as its source. Whether the file is a patch is read off its name.
    ///
    /// # Arguments
    /// * `package_path` - The path of the file.
    /// * `file_name` - The last part of the path.
    /// * `data` - What the file holds.
    pub fn from_file(package_path: &str, file_name: &str, data: &[u8]) -> (r: Result<
        Self,
        ResourcePackageError,
    >)
        ensures
            match parsed(data@, has_sub(file_name@, "patch"@)) {
                Some(content) => r matches Ok(package) && package@ == content && package.wf() && (
                package.source matches Some(ResourcePackageSource::File(kept)) && kept@
                    == package_path@),
                None => r matches Err(ResourcePackageError::ParsingError(_)),
            },
    {
        match Self::parse(data, Self::is_patch_file(file_name)) {
            Ok(package) => {
                let ResourcePackage {
                    source: _,
                    is_patch,
                    magic,
                    metadata,
                    header,
                    unneeded_resource_count,
                    unneeded_resources,
                    index,
                    resources,
                } = package;
                Ok(
                    ResourcePackage {
                        source: Some(ResourcePackageSource::File(package_path.to_string())),
                        is_patch,
                        magic,
                        metadata,
                        header,
                        unneeded_resource_count,
                        unneeded_resources,
                        index,
                        resources,
                    },
                )
            },
            Err(e) => Err(e),
        }
    }
}

} // verus!
