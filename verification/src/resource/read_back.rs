//! What a builder writes, the reader reads back.
//!
//! The tables of a built package are read entry by entry as they were
//! written (`law_built_is_read_back`), and a resource that went in as bytes
//! in memory comes out as those bytes (`law_built_resource_is_read`).

use crate::lz4_block::lz4_decoded;
use crate::resource::package_builder::{
    admissible,
    flag_byte,
    lemma_metadata_table_len,
    lemma_payload_len_grows,
    lemma_payload_len_nonneg,
    lemma_payload_len_step,
    magic_bytes,
    metadata_table_bytes,
    metadata_table_len,
    offset_table_bytes,
    payload_bytes,
    payload_len,
    reference_chunk_bytes,
    reference_chunk_size,
    reference_flag_bytes,
    reference_id_bytes,
    resource_header_bytes,
    resource_ids,
    unneeded_bytes,
    PackageBuilder,
    PackageResourceBlob,
    PackageResourceBuilder,
    StoredBlob,
};
use crate::resource::pdefs::PartitionTypeView;
use crate::resource::reference_flags::{
    PackageOffsetFlags,
    ResourceReferenceCountAndFlags,
    ResourceReferenceFlags,
};
use crate::resource::resource_info::ResourceInfoView;
use crate::resource::resource_package::{
    descrambled,
    distinct_ids,
    entries_of,
    extraction_fails,
    extracts_to,
    file_count,
    has_magic_v1,
    has_magic_v2,
    header_at,
    header_of,
    header_pos,
    header_pos_of,
    header_span,
    keyed,
    lookup,
    metadata_of,
    metadata_table_pos,
    offset_entry_at,
    offset_table_pos,
    parsed,
    readable,
    reference_at,
    references_at,
    unneeded_count,
    unneeded_of,
    ChunkType,
    PackageHeader,
    PackageMetadata,
    PackageOffsetInfo,
    PackageVersion,
    ResourceHeaderView,
    ResourcePackage,
    ResourcePackageError,
    ResourcePackageSource,
};
use crate::resource::resource_partition::PatchId;
use crate::resource::round_trip::lemma_keyed_distinct;
use crate::resource::runtime_resource_id::{collapsed, RuntimeResourceID};
use crate::wire::{
    law_scramble_involutive,
    le_u32,
    le_u64,
    lemma_u32_roundtrip,
    lemma_u64_roundtrip,
    u32_bytes,
    u64_bytes,
};
use vstd::prelude::*;

verus! {

/// Where the encoding of `v` stands, `v` is read.
pub proof fn lemma_le_u32_at(data: Seq<u8>, at: int, v: u32)
    requires
        0 <= at,
        at + 4 <= data.len(),
        data.subrange(at, at + 4) == u32_bytes(v),
    ensures
        le_u32(data, at) == v,
{
    lemma_u32_roundtrip(v);
    let piece = data.subrange(at, at + 4);
    assert(piece[0] == data[at]);
    assert(piece[1] == data[at + 1]);
    assert(piece[2] == data[at + 2]);
    assert(piece[3] == data[at + 3]);
}

/// Where the encoding of `v` stands, `v` is read.
pub proof fn lemma_le_u64_at(data: Seq<u8>, at: int, v: u64)
    requires
        0 <= at,
        at + 8 <= data.len(),
        data.subrange(at, at + 8) == u64_bytes(v),
    ensures
        le_u64(data, at) == v,
{
    lemma_u64_roundtrip(v);
    let piece = data.subrange(at, at + 8);
    assert forall|k: int| 0 <= k < 8 implies piece[k] == data[at + k] by {}
    assert(piece[0] == data[at]);
    assert(piece[1] == data[at + 1]);
    assert(piece[2] == data[at + 2]);
    assert(piece[3] == data[at + 3]);
    assert(piece[4] == data[at + 4]);
    assert(piece[5] == data[at + 5]);
    assert(piece[6] == data[at + 6]);
    assert(piece[7] == data[at + 7]);
}

/// A span of a span is a span.
pub proof fn lemma_subrange_of_subrange<T>(s: Seq<T>, a: int, b: int, c: int, d: int)
    requires
        0 <= a <= b <= s.len(),
        0 <= c <= d <= b - a,
    ensures
        s.subrange(a, b).subrange(c, d) == s.subrange(a + c, a + d),
{
    assert(s.subrange(a, b).subrange(c, d) =~= s.subrange(a + c, a + d));
}

/// What follows a text in a concatenation stands behind it.
pub proof fn lemma_concat_spans<T>(a: Seq<T>, b: Seq<T>)
    ensures
        (a + b).subrange(0, a.len() as int) == a,
        (a + b).subrange(a.len() as int, (a + b).len() as int) == b,
        (a + b).len() == a.len() + b.len(),
{
    assert((a + b).subrange(0, a.len() as int) =~= a);
    assert((a + b).subrange(a.len() as int, (a + b).len() as int) =~= b);
}


/// The references as they are read back: the identifiers collapsed into
/// range, the flags in the encoding of the layout they were written in.
pub open spec fn written_references(
    refs: Seq<(RuntimeResourceID, ResourceReferenceFlags)>,
    legacy: bool,
) -> Seq<(RuntimeResourceID, ResourceReferenceFlags)> {
    Seq::new(
        refs.len(),
        |j: int|
            (
                RuntimeResourceID { id: collapsed(refs[j].0.id) },
                if legacy {
                    ResourceReferenceFlags::V1(refs[j].1.as_v1())
                } else {
                    ResourceReferenceFlags::V2(refs[j].1.as_v2())
                },
            ),
    )
}

/// The metadata entry of a resource as it is read back.
pub open spec fn written_header(r: PackageResourceBuilder, legacy: bool) -> ResourceHeaderView {
    ResourceHeaderView {
        resource_type: r.resource_type,
        references_chunk_size: reference_chunk_size(r.references@) as u32,
        states_chunk_size: 0,
        data_size: r.blob.data_size(),
        system_memory_requirement: r.system_memory_requirement,
        video_memory_requirement: r.video_memory_requirement,
        references: written_references(r.references@, legacy),
    }
}

/// The identifiers of references take eight bytes each, in order.
proof fn lemma_id_pieces(refs: Seq<(RuntimeResourceID, ResourceReferenceFlags)>, j: int)
    requires
        0 <= j < refs.len(),
    ensures
        reference_id_bytes(refs).len() == 8 * refs.len(),
        reference_id_bytes(refs).subrange(8 * j, 8 * j + 8) == u64_bytes(refs[j].0.id),
    decreases refs.len(),
{
    let rest = refs.drop_last();
    lemma_id_len(rest);
    lemma_u64_roundtrip(refs.last().0.id);
    let a = reference_id_bytes(rest);
    let b = u64_bytes(refs.last().0.id);
    if j == refs.len() - 1 {
        assert((a + b).subrange(8 * j, 8 * j + 8) =~= b);
    } else {
        lemma_id_pieces(rest, j);
        assert(rest[j] == refs[j]);
        assert((a + b).subrange(8 * j, 8 * j + 8) =~= a.subrange(8 * j, 8 * j + 8));
    }
}

proof fn lemma_id_len(refs: Seq<(RuntimeResourceID, ResourceReferenceFlags)>)
    ensures
        reference_id_bytes(refs).len() == 8 * refs.len(),
    decreases refs.len(),
{
    if refs.len() > 0 {
        lemma_id_len(refs.drop_last());
        lemma_u64_roundtrip(refs.last().0.id);
    }
}

/// The count word that leads a chunk of `n` references says so.
proof fn lemma_count_word(n: u32, new_format: bool)
    requires
        n < 0x4000_0000,
    ensures
        ({
            let word = ResourceReferenceCountAndFlags {
                bits: ResourceReferenceCountAndFlags::packed(n, new_format, true),
            };
            &&& word.count_bits() == n
            &&& word.new_format_bit() == new_format
            &&& word.top_bit()
            &&& word.bits % 0x4000_0000 == n
        }),
{
}

/// Where a reference chunk stands, its parts stand: the count word, and
/// the flag bytes and identifiers in the order of the layout.
proof fn lemma_chunk_parts(
    data: Seq<u8>,
    chunk: int,
    refs: Seq<(RuntimeResourceID, ResourceReferenceFlags)>,
    legacy: bool,
)
    requires
        0 <= chunk,
        refs.len() < 0x4000_0000,
        chunk + 4 + 9 * refs.len() <= data.len(),
        data.subrange(chunk, chunk + 4 + 9 * refs.len()) == reference_chunk_bytes(refs, legacy),
    ensures
        data.subrange(chunk, chunk + 4) == u32_bytes(
            ResourceReferenceCountAndFlags::packed(refs.len() as u32, !legacy, true),
        ),
        legacy ==> data.subrange(chunk + 4, chunk + 4 + 8 * refs.len()) == reference_id_bytes(
            refs,
        ) && data.subrange(chunk + 4 + 8 * refs.len(), chunk + 4 + 9 * refs.len())
            == reference_flag_bytes(refs, true),
        !legacy ==> data.subrange(chunk + 4, chunk + 4 + refs.len()) == reference_flag_bytes(
            refs,
            false,
        ) && data.subrange(chunk + 4 + refs.len(), chunk + 4 + 9 * refs.len())
            == reference_id_bytes(refs),
{
    let n = refs.len() as int;
    let word = u32_bytes(ResourceReferenceCountAndFlags::packed(refs.len() as u32, !legacy, true));
    lemma_u32_roundtrip(ResourceReferenceCountAndFlags::packed(refs.len() as u32, !legacy, true));
    lemma_id_len(refs);
    let whole = reference_chunk_bytes(refs, legacy);
    let ids = reference_id_bytes(refs);
    let flags = reference_flag_bytes(refs, legacy);
    let tail = if legacy {
        ids + flags
    } else {
        flags + ids
    };
    assert(whole == word + tail);
    lemma_concat_spans(word, tail);
    lemma_subrange_of_subrange(data, chunk, chunk + 4 + 9 * n, 0, 4);
    lemma_subrange_of_subrange(data, chunk, chunk + 4 + 9 * n, 4, 4 + 9 * n);
    assert(data.subrange(chunk + 4, chunk + 4 + 9 * n) == tail);
    if legacy {
        lemma_concat_spans(ids, flags);
        lemma_subrange_of_subrange(data, chunk + 4, chunk + 4 + 9 * n, 0, 8 * n);
        lemma_subrange_of_subrange(data, chunk + 4, chunk + 4 + 9 * n, 8 * n, 9 * n);
    } else {
        lemma_concat_spans(flags, ids);
        lemma_subrange_of_subrange(data, chunk + 4, chunk + 4 + 9 * n, 0, n);
        lemma_subrange_of_subrange(data, chunk + 4, chunk + 4 + 9 * n, n, 9 * n);
    }
}

/// Where a reference chunk stands, its references are read back.
proof fn lemma_chunk_read_back(
    data: Seq<u8>,
    chunk: int,
    refs: Seq<(RuntimeResourceID, ResourceReferenceFlags)>,
    legacy: bool,
)
    requires
        0 <= chunk,
        0 < refs.len() < 0x4000_0000,
        chunk + 4 + 9 * refs.len() <= data.len(),
        data.subrange(chunk, chunk + 4 + 9 * refs.len()) == reference_chunk_bytes(refs, legacy),
    ensures
        le_u32(data, chunk) % 0x4000_0000 == refs.len(),
        references_at(data, chunk) == written_references(refs, legacy),
{
    let n = refs.len() as int;
    let packed = ResourceReferenceCountAndFlags::packed(refs.len() as u32, !legacy, true);
    lemma_chunk_parts(data, chunk, refs, legacy);
    lemma_le_u32_at(data, chunk, packed);
    lemma_count_word(refs.len() as u32, !legacy);
    let read = references_at(data, chunk);
    let want = written_references(refs, legacy);
    assert(read.len() == n);
    assert forall|j: int| 0 <= j < n implies read[j] == want[j] by {
        lemma_id_pieces(refs, j);
        assert(read[j] == reference_at(data, chunk, n, !legacy, j));
        let flags = reference_flag_bytes(refs, legacy);
        assert(flags[j] == flag_byte(refs[j].1, legacy));
        if legacy {
            let at = chunk + 4 + 8 * j;
            lemma_subrange_of_subrange(data, chunk + 4, chunk + 4 + 8 * n, 8 * j, 8 * j + 8);
            lemma_le_u64_at(data, at, refs[j].0.id);
            assert(data.subrange(chunk + 4 + 8 * n, chunk + 4 + 9 * n)[j] == data[chunk + 4 + 8
                * n + j]);
        } else {
            let at = chunk + 4 + n + 8 * j;
            lemma_subrange_of_subrange(
                data,
                chunk + 4 + n,
                chunk + 4 + 9 * n,
                8 * j,
                8 * j + 8,
            );
            lemma_le_u64_at(data, at, refs[j].0.id);
            assert(data.subrange(chunk + 4, chunk + 4 + n)[j] == data[chunk + 4 + j]);
        }
    }
    assert(read =~= want);
}


/// Where `a + b` stands in `data`, `a` stands and `b` stands behind it.
proof fn lemma_split_span(data: Seq<u8>, at: int, a: Seq<u8>, b: Seq<u8>)
    requires
        0 <= at,
        at + a.len() + b.len() <= data.len(),
        data.subrange(at, at + a.len() + b.len()) == a + b,
    ensures
        data.subrange(at, at + a.len()) == a,
        data.subrange(at + a.len(), at + a.len() + b.len()) == b,
{
    lemma_concat_spans(a, b);
    lemma_subrange_of_subrange(data, at, at + a.len() + b.len(), 0, a.len() as int);
    lemma_subrange_of_subrange(
        data,
        at,
        at + a.len() + b.len(),
        a.len() as int,
        (a.len() + b.len()) as int,
    );
}

/// The fixed part of a metadata entry: the type and five words.
pub open spec fn fixed_header_bytes(r: PackageResourceBuilder) -> Seq<u8> {
    r.resource_type@ + u32_bytes(reference_chunk_size(r.references@) as u32) + u32_bytes(0)
        + u32_bytes(r.blob.data_size()) + u32_bytes(r.system_memory_requirement) + u32_bytes(
        r.video_memory_requirement,
    )
}

/// Where the fixed part of a metadata entry stands, its fields are read back.
proof fn lemma_fixed_header(data: Seq<u8>, at: int, r: PackageResourceBuilder)
    requires
        0 <= at,
        at + 24 <= data.len(),
        data.subrange(at, at + 24) == fixed_header_bytes(r),
    ensures
        data.subrange(at, at + 4) == r.resource_type@,
        le_u32(data, at + 4) == reference_chunk_size(r.references@) as u32,
        le_u32(data, at + 8) == 0,
        le_u32(data, at + 12) == r.blob.data_size(),
        le_u32(data, at + 16) == r.system_memory_requirement,
        le_u32(data, at + 20) == r.video_memory_requirement,
{
    let t = r.resource_type@;
    let a = u32_bytes(reference_chunk_size(r.references@) as u32);
    let b = u32_bytes(0);
    let c = u32_bytes(r.blob.data_size());
    let d = u32_bytes(r.system_memory_requirement);
    let e = u32_bytes(r.video_memory_requirement);
    lemma_u32_roundtrip(reference_chunk_size(r.references@) as u32);
    lemma_u32_roundtrip(0);
    lemma_u32_roundtrip(r.blob.data_size());
    lemma_u32_roundtrip(r.system_memory_requirement);
    lemma_u32_roundtrip(r.video_memory_requirement);
    assert(t.len() == 4);
    lemma_split_span(data, at, t + a + b + c + d, e);
    lemma_split_span(data, at, t + a + b + c, d);
    lemma_split_span(data, at, t + a + b, c);
    lemma_split_span(data, at, t + a, b);
    lemma_split_span(data, at, t, a);
    lemma_le_u32_at(data, at + 4, reference_chunk_size(r.references@) as u32);
    lemma_le_u32_at(data, at + 8, 0);
    lemma_le_u32_at(data, at + 12, r.blob.data_size());
    lemma_le_u32_at(data, at + 16, r.system_memory_requirement);
    lemma_le_u32_at(data, at + 20, r.video_memory_requirement);
}

/// Where a metadata entry stands, its fixed part stands, and its
/// reference chunk behind it.
proof fn lemma_header_parts(data: Seq<u8>, at: int, r: PackageResourceBuilder, legacy: bool)
    requires
        0 <= at,
        at + 24 + reference_chunk_size(r.references@) <= data.len(),
        data.subrange(at, at + 24 + reference_chunk_size(r.references@)) == resource_header_bytes(
            r,
            legacy,
        ),
    ensures
        data.subrange(at, at + 24) == fixed_header_bytes(r),
        r.references@.len() > 0 ==> data.subrange(at + 24, at + 28 + 9 * r.references@.len())
            == reference_chunk_bytes(r.references@, legacy),
{
    let refs = r.references@;
    let fixed = fixed_header_bytes(r);
    let chunk = if refs.len() == 0 {
        Seq::<u8>::empty()
    } else {
        reference_chunk_bytes(refs, legacy)
    };
    assert(resource_header_bytes(r, legacy) == fixed + chunk);
    lemma_fixed_len(r);
    if refs.len() > 0 {
        lemma_chunk_len(refs, legacy);
    }
    lemma_split_span(data, at, fixed, chunk);
}

/// The fixed part of a metadata entry takes 24 bytes.
proof fn lemma_fixed_len(r: PackageResourceBuilder)
    ensures
        fixed_header_bytes(r).len() == 24,
{
    lemma_u32_roundtrip(reference_chunk_size(r.references@) as u32);
    lemma_u32_roundtrip(0);
    lemma_u32_roundtrip(r.blob.data_size());
    lemma_u32_roundtrip(r.system_memory_requirement);
    lemma_u32_roundtrip(r.video_memory_requirement);
}

/// Where a metadata entry stands, its span is read.
proof fn lemma_header_span_read(data: Seq<u8>, at: int, n: int)
    requires
        0 <= at,
        0 <= n < 0x4000_0000,
        at + 24 <= data.len(),
        n == 0 ==> le_u32(data, at + 4) == 0,
        n > 0 ==> le_u32(data, at + 4) == 4 + 9 * n && at + 28 + 9 * n <= data.len() && le_u32(
            data,
            at + 24,
        ) % 0x4000_0000 == n,
    ensures
        header_span(data, at) == Some(if n == 0 {
            24int
        } else {
            28 + 9 * n
        }),
{
}

/// Where a metadata entry stands, it is read back, with its references.
pub proof fn lemma_header_read_back(data: Seq<u8>, at: int, r: PackageResourceBuilder, legacy: bool)
    requires
        0 <= at,
        reference_chunk_size(r.references@) <= u32::MAX,
        at + 24 + reference_chunk_size(r.references@) <= data.len(),
        data.subrange(at, at + 24 + reference_chunk_size(r.references@)) == resource_header_bytes(
            r,
            legacy,
        ),
    ensures
        header_span(data, at) == Some(24 + reference_chunk_size(r.references@)),
        header_at(data, at) == written_header(r, legacy),
{
    let refs = r.references@;
    lemma_header_parts(data, at, r, legacy);
    lemma_fixed_header(data, at, r);
    if refs.len() > 0 {
        lemma_chunk_read_back(data, at + 24, refs, legacy);
    }
    lemma_header_span_read(data, at, refs.len() as int);
    lemma_header_equal(data, at, r, legacy);
}

/// A metadata entry whose fields are those of a resource is the entry of
/// the resource.
proof fn lemma_header_equal(data: Seq<u8>, at: int, r: PackageResourceBuilder, legacy: bool)
    requires
        0 <= at,
        at + 24 <= data.len(),
        reference_chunk_size(r.references@) <= u32::MAX,
        data.subrange(at, at + 4) == r.resource_type@,
        le_u32(data, at + 4) == reference_chunk_size(r.references@) as u32,
        le_u32(data, at + 8) == 0,
        le_u32(data, at + 12) == r.blob.data_size(),
        le_u32(data, at + 16) == r.system_memory_requirement,
        le_u32(data, at + 20) == r.video_memory_requirement,
        r.references@.len() > 0 ==> references_at(data, at + 24) == written_references(
            r.references@,
            legacy,
        ),
    ensures
        header_at(data, at) == written_header(r, legacy),
{
    let read = header_at(data, at);
    let want = written_header(r, legacy);
    assert(read.resource_type@ =~= data.subrange(at, at + 4));
    assert(read.resource_type == want.resource_type);
    if r.references@.len() == 0 {
        assert(written_references(r.references@, legacy) =~= Seq::empty());
    }
    assert(read.references == want.references);
}

/// A reference chunk takes four bytes and nine for each reference.
proof fn lemma_chunk_len(refs: Seq<(RuntimeResourceID, ResourceReferenceFlags)>, legacy: bool)
    ensures
        reference_chunk_bytes(refs, legacy).len() == 4 + 9 * refs.len(),
{
    lemma_id_len(refs);
    lemma_u32_roundtrip(ResourceReferenceCountAndFlags::packed(refs.len() as u32, !legacy, true));
}


/// The size of a metadata table grows with each resource by the size of
/// its entry.
proof fn lemma_table_len_step(resources: Seq<PackageResourceBuilder>, k: int)
    requires
        0 <= k < resources.len(),
    ensures
        0 <= metadata_table_len(resources.take(k)),
        metadata_table_len(resources.take(k + 1)) == metadata_table_len(resources.take(k)) + 24
            + reference_chunk_size(resources[k].references@),
        metadata_table_len(resources.take(k + 1)) <= metadata_table_len(resources),
    decreases resources.len() - k,
{
    assert(resources.take(k + 1).drop_last() =~= resources.take(k));
    lemma_metadata_table_len(resources.take(k), true);
    if k + 1 < resources.len() {
        lemma_table_len_step(resources, k + 1);
    } else {
        assert(resources.take(k + 1) =~= resources);
    }
}

/// The entry of the resource at `k` stands in the metadata table behind
/// the entries of the resources before it.
proof fn lemma_meta_piece(resources: Seq<PackageResourceBuilder>, legacy: bool, k: int)
    requires
        0 <= k < resources.len(),
    ensures
        metadata_table_bytes(resources, legacy).len() == metadata_table_len(resources),
        metadata_table_bytes(resources, legacy).subrange(
            metadata_table_len(resources.take(k)),
            metadata_table_len(resources.take(k + 1)),
        ) == resource_header_bytes(resources[k], legacy),
    decreases resources.len(),
{
    let rest = resources.drop_last();
    let table = metadata_table_bytes(resources, legacy);
    let before = metadata_table_bytes(rest, legacy);
    let last = resource_header_bytes(resources.last(), legacy);
    lemma_metadata_table_len(resources, legacy);
    lemma_metadata_table_len(rest, legacy);
    lemma_table_len_step(resources, k);
    assert(table == before + last);
    lemma_concat_spans(before, last);
    if k == resources.len() - 1 {
        assert(resources.take(k) =~= rest);
        assert(resources.take(k + 1) =~= resources);
    } else {
        lemma_meta_piece(rest, legacy, k);
        assert(rest.take(k) =~= resources.take(k));
        assert(rest.take(k + 1) =~= resources.take(k + 1));
        assert(rest[k] == resources[k]);
        lemma_table_len_step(rest, k);
        lemma_subrange_of_subrange(
            table,
            0,
            before.len() as int,
            metadata_table_len(resources.take(k)),
            metadata_table_len(resources.take(k + 1)),
        );
    }
}

/// One entry of an offset table.
pub open spec fn offset_entry_bytes(
    resources: Seq<PackageResourceBuilder>,
    stored: Seq<StoredBlob>,
    base: int,
    i: int,
) -> Seq<u8> {
    u64_bytes(resources[i].rrid.id) + u64_bytes((base + payload_len(stored.take(i))) as u64)
        + u32_bytes(stored[i].flag_bits())
}

/// An offset table of `count` entries takes twenty bytes for each.
proof fn lemma_offset_table_len(
    resources: Seq<PackageResourceBuilder>,
    stored: Seq<StoredBlob>,
    base: int,
    count: nat,
)
    ensures
        offset_table_bytes(resources, stored, base, count).len() == 20 * count,
    decreases count,
{
    if count > 0 {
        let i = count - 1;
        lemma_offset_table_len(resources, stored, base, i as nat);
        lemma_u64_roundtrip(resources[i].rrid.id);
        lemma_u64_roundtrip((base + payload_len(stored.take(i))) as u64);
        lemma_u32_roundtrip(stored[i].flag_bits());
    }
}

/// The entry at `i` stands in the offset table at twenty times `i`.
proof fn lemma_offset_piece(
    resources: Seq<PackageResourceBuilder>,
    stored: Seq<StoredBlob>,
    base: int,
    count: nat,
    i: int,
)
    requires
        0 <= i < count,
    ensures
        offset_table_bytes(resources, stored, base, count).len() == 20 * count,
        offset_table_bytes(resources, stored, base, count).subrange(20 * i, 20 * i + 20)
            == offset_entry_bytes(resources, stored, base, i),
    decreases count,
{
    let last = count - 1;
    let table = offset_table_bytes(resources, stored, base, count);
    let before = offset_table_bytes(resources, stored, base, last as nat);
    let entry = offset_entry_bytes(resources, stored, base, last);
    lemma_offset_table_len(resources, stored, base, count);
    lemma_offset_table_len(resources, stored, base, last as nat);
    assert(table =~= before + entry);
    lemma_concat_spans(before, entry);
    if i < last {
        lemma_offset_piece(resources, stored, base, last as nat, i);
        lemma_subrange_of_subrange(table, 0, before.len() as int, 20 * i, 20 * i + 20);
    }
}

/// Where an entry of an offset table stands, it is read back.
proof fn lemma_offset_entry_read_back(
    data: Seq<u8>,
    at: int,
    resources: Seq<PackageResourceBuilder>,
    stored: Seq<StoredBlob>,
    base: int,
    i: int,
)
    requires
        0 <= at,
        at + 20 <= data.len(),
        data.subrange(at, at + 20) == offset_entry_bytes(resources, stored, base, i),
    ensures
        offset_entry_at(data, at) == (PackageOffsetInfo {
            runtime_resource_id: resources[i].rrid,
            data_offset: (base + payload_len(stored.take(i))) as u64,
            flags: PackageOffsetFlags { bits: stored[i].flag_bits() },
        }),
{
    let a = u64_bytes(resources[i].rrid.id);
    let b = u64_bytes((base + payload_len(stored.take(i))) as u64);
    let c = u32_bytes(stored[i].flag_bits());
    lemma_u64_roundtrip(resources[i].rrid.id);
    lemma_u64_roundtrip((base + payload_len(stored.take(i))) as u64);
    lemma_u32_roundtrip(stored[i].flag_bits());
    lemma_split_span(data, at, a + b, c);
    lemma_split_span(data, at, a, b);
    lemma_le_u64_at(data, at, resources[i].rrid.id);
    lemma_le_u64_at(data, at + 8, (base + payload_len(stored.take(i))) as u64);
    lemma_le_u32_at(data, at + 16, stored[i].flag_bits());
}

/// The stored bytes of the resource at `i` stand among the payloads behind
/// those of the resources before it.
proof fn lemma_payload_piece(stored: Seq<StoredBlob>, i: int)
    requires
        0 <= i < stored.len(),
    ensures
        payload_bytes(stored).len() == payload_len(stored),
        0 <= payload_len(stored.take(i)),
        payload_len(stored.take(i)) + stored[i].bytes@.len() <= payload_len(stored),
        payload_bytes(stored).subrange(
            payload_len(stored.take(i)),
            payload_len(stored.take(i)) + stored[i].bytes@.len(),
        ) == stored[i].bytes@,
    decreases stored.len(),
{
    let rest = stored.drop_last();
    let all = payload_bytes(stored);
    let before = payload_bytes(rest);
    lemma_payload_len_grows(stored, i);
    lemma_payload_len_grows(stored, i + 1);
    lemma_payload_len_step(stored, i);
    lemma_payload_len_grows(stored, stored.len() as int);
    assert(stored.take(stored.len() as int) =~= stored);
    lemma_payload_len_nonneg(stored);
    lemma_payload_len_nonneg(rest);
    lemma_concat_spans(before, stored.last().bytes@);
    if i == stored.len() - 1 {
        assert(stored.take(i) =~= rest);
    } else {
        lemma_payload_piece(rest, i);
        assert(rest.take(i) =~= stored.take(i));
        assert(rest[i] == stored[i]);
        lemma_subrange_of_subrange(
            all,
            0,
            before.len() as int,
            payload_len(stored.take(i)),
            payload_len(stored.take(i)) + stored[i].bytes@.len(),
        );
    }
}

/// The deleted resource at `i` stands among the deleted resources at eight
/// times `i`.
proof fn lemma_unneeded_piece(ids: Seq<u64>, i: int)
    requires
        0 <= i < ids.len(),
    ensures
        unneeded_bytes(ids).len() == 8 * ids.len(),
        unneeded_bytes(ids).subrange(8 * i, 8 * i + 8) == u64_bytes(ids[i]),
    decreases ids.len(),
{
    let rest = ids.drop_last();
    let a = unneeded_bytes(rest);
    let b = u64_bytes(ids.last());
    lemma_unneeded_len(rest);
    lemma_u64_roundtrip(ids.last());
    if i == ids.len() - 1 {
        assert((a + b).subrange(8 * i, 8 * i + 8) =~= b);
    } else {
        lemma_unneeded_piece(rest, i);
        assert(rest[i] == ids[i]);
        assert((a + b).subrange(8 * i, 8 * i + 8) =~= a.subrange(8 * i, 8 * i + 8));
    }
}

proof fn lemma_unneeded_len(ids: Seq<u64>)
    ensures
        unneeded_bytes(ids).len() == 8 * ids.len(),
    decreases ids.len(),
{
    if ids.len() > 0 {
        lemma_unneeded_len(ids.drop_last());
        lemma_u64_roundtrip(ids.last());
    }
}


/// Where a metadata table stands, its entries are read back one after the
/// other: the entry at `k` stands behind the entries before it.
proof fn lemma_meta_read(
    data: Seq<u8>,
    mp: int,
    resources: Seq<PackageResourceBuilder>,
    legacy: bool,
    k: int,
)
    requires
        0 <= mp,
        0 <= k <= resources.len(),
        mp + metadata_table_len(resources) <= data.len(),
        data.subrange(mp, mp + metadata_table_len(resources)) == metadata_table_bytes(
            resources,
            legacy,
        ),
        forall|i: int|
            0 <= i < resources.len() ==> reference_chunk_size(
                (#[trigger] resources[i]).references@,
            ) <= u32::MAX,
    ensures
        header_pos_of(data, mp, k as nat) == Some(mp + metadata_table_len(resources.take(k))),
        k < resources.len() ==> header_at(data, mp + metadata_table_len(resources.take(k)))
            == written_header(resources[k], legacy),
        0 <= metadata_table_len(resources.take(k)) <= metadata_table_len(resources),
    decreases k,
{
    lemma_metadata_table_len(resources.take(k), legacy);
    if k > 0 {
        lemma_meta_read(data, mp, resources, legacy, k - 1);
        lemma_table_len_step(resources, k - 1);
        lemma_entry_read(data, mp, resources, legacy, k - 1);
    } else {
        assert(metadata_table_len(resources.take(0)) == 0);
        lemma_metadata_table_len(resources, legacy);
    }
    if k < resources.len() {
        lemma_entry_read(data, mp, resources, legacy, k);
    }
}

/// Where a metadata table stands, the entry at `k` is read back in its place.
proof fn lemma_entry_read(
    data: Seq<u8>,
    mp: int,
    resources: Seq<PackageResourceBuilder>,
    legacy: bool,
    k: int,
)
    requires
        0 <= mp,
        0 <= k < resources.len(),
        mp + metadata_table_len(resources) <= data.len(),
        data.subrange(mp, mp + metadata_table_len(resources)) == metadata_table_bytes(
            resources,
            legacy,
        ),
        reference_chunk_size(resources[k].references@) <= u32::MAX,
    ensures
        header_span(data, mp + metadata_table_len(resources.take(k))) == Some(
            24 + reference_chunk_size(resources[k].references@),
        ),
        header_at(data, mp + metadata_table_len(resources.take(k))) == written_header(
            resources[k],
            legacy,
        ),
{
    lemma_table_len_step(resources, k);
    lemma_meta_piece(resources, legacy, k);
    let at = mp + metadata_table_len(resources.take(k));
    lemma_subrange_of_subrange(
        data,
        mp,
        mp + metadata_table_len(resources),
        metadata_table_len(resources.take(k)),
        metadata_table_len(resources.take(k + 1)),
    );
    lemma_header_read_back(data, at, resources[k], legacy);
}

/// Where an offset table stands, the entry at `i` is read back.
proof fn lemma_offset_read(
    data: Seq<u8>,
    tp: int,
    resources: Seq<PackageResourceBuilder>,
    stored: Seq<StoredBlob>,
    base: int,
    count: nat,
    i: int,
)
    requires
        0 <= tp,
        0 <= i < count,
        tp + 20 * count <= data.len(),
        data.subrange(tp, tp + 20 * count) == offset_table_bytes(resources, stored, base, count),
    ensures
        offset_entry_at(data, tp + 20 * i) == (PackageOffsetInfo {
            runtime_resource_id: resources[i].rrid,
            data_offset: (base + payload_len(stored.take(i))) as u64,
            flags: PackageOffsetFlags { bits: stored[i].flag_bits() },
        }),
{
    lemma_offset_piece(resources, stored, base, count, i);
    lemma_subrange_of_subrange(data, tp, tp + 20 * count, 20 * i, 20 * i + 20);
    lemma_offset_entry_read_back(data, tp + 20 * i, resources, stored, base, i);
}

/// The four parts of a package stand one behind the other.
proof fn lemma_regions(head: Seq<u8>, offsets: Seq<u8>, table: Seq<u8>, payloads: Seq<u8>)
    ensures
        ({
            let data = head + offsets + table + payloads;
            let tp = head.len() as int;
            let mp = tp + offsets.len();
            let pp = mp + table.len();
            &&& data.len() == pp + payloads.len()
            &&& data.subrange(0, tp) == head
            &&& data.subrange(tp, mp) == offsets
            &&& data.subrange(mp, pp) == table
            &&& data.subrange(pp, data.len() as int) == payloads
        }),
{
    let data = head + offsets + table + payloads;
    let tp = head.len() as int;
    let mp = tp + offsets.len();
    let pp = mp + table.len();
    assert(data.subrange(0, tp) =~= head);
    assert(data.subrange(tp, mp) =~= offsets);
    assert(data.subrange(mp, pp) =~= table);
    assert(data.subrange(pp, data.len() as int) =~= payloads);
}


/// The magic and, for version 2, the metadata block.
pub open spec fn lead_bytes(b: PackageBuilder, version: PackageVersion) -> Seq<u8> {
    magic_bytes(version) + (if version == PackageVersion::RPKGv2 {
        b.metadata_bytes()
    } else {
        Seq::empty()
    })
}

/// The three words of the header.
pub open spec fn word_bytes(b: PackageBuilder) -> Seq<u8> {
    u32_bytes(b.resources@.len() as u32) + u32_bytes((20 * b.resources@.len()) as u32) + u32_bytes(
        metadata_table_len(b.resources@) as u32,
    )
}

/// The list of deleted resources of a patch.
pub open spec fn tail_bytes(b: PackageBuilder) -> Seq<u8> {
    if b.patch_id != PatchId::Base {
        u32_bytes(b.unneeded().len() as u32) + unneeded_bytes(b.unneeded())
    } else {
        Seq::empty()
    }
}

/// Where the header of a version stands.
pub open spec fn lead_len(version: PackageVersion) -> int {
    if version == PackageVersion::RPKGv2 {
        13
    } else {
        4
    }
}

/// What stands before the tables is the lead, the words and the tail.
proof fn lemma_head_split(b: PackageBuilder, version: PackageVersion)
    ensures
        b.head_bytes(version) == lead_bytes(b, version) + word_bytes(b) + tail_bytes(b),
        lead_bytes(b, version).len() == lead_len(version),
        word_bytes(b).len() == 12,
        tail_bytes(b).len() == if b.patch_id != PatchId::Base {
            4 + 8 * b.unneeded().len()
        } else {
            0
        },
{
    reveal(PackageBuilder::head_bytes);
    lemma_u32_roundtrip(1);
    lemma_u32_roundtrip(b.resources@.len() as u32);
    lemma_u32_roundtrip((20 * b.resources@.len()) as u32);
    lemma_u32_roundtrip(metadata_table_len(b.resources@) as u32);
    lemma_u32_roundtrip(b.unneeded().len() as u32);
    lemma_unneeded_len(b.unneeded());
    let lead = lead_bytes(b, version);
    let a = u32_bytes(b.resources@.len() as u32);
    let c = u32_bytes((20 * b.resources@.len()) as u32);
    let d = u32_bytes(metadata_table_len(b.resources@) as u32);
    let tail = tail_bytes(b);
    assert(lead + a + c + d + tail =~= lead + (a + c + d) + tail);
}

/// Where the lead stands, the magic names the version and the metadata
/// block is read back.
proof fn lemma_lead_read(data: Seq<u8>, b: PackageBuilder, version: PackageVersion)
    requires
        lead_len(version) <= data.len(),
        data.subrange(0, lead_len(version)) == lead_bytes(b, version),
    ensures
        has_magic_v1(data) == (version == PackageVersion::RPKGv1),
        has_magic_v2(data) == (version == PackageVersion::RPKGv2),
        header_pos(data) == lead_len(version),
        version == PackageVersion::RPKGv2 ==> data[9] <= 1 && metadata_of(data) == (
        PackageMetadata {
            unknown: 1,
            chunk_id: (b.partition_id.index % 256) as u8,
            chunk_type: if b.partition_id.part_type@ == PartitionTypeView::Addon {
                ChunkType::Addon
            } else {
                ChunkType::Standard
            },
            patch_id: match b.patch_id {
                PatchId::Base => 0u8,
                PatchId::Patch(n) => (n % 256) as u8,
            },
            language_tag: [0x78u8, 0x78u8],
        }),
{
    let lead = lead_bytes(b, version);
    let piece = data.subrange(0, lead_len(version));
    lemma_u32_roundtrip(1);
    assert(piece[0] == data[0] && piece[1] == data[1] && piece[2] == data[2] && piece[3]
        == data[3]);
    if version == PackageVersion::RPKGv2 {
        let magic = magic_bytes(version);
        let block = b.metadata_bytes();
        assert(lead == magic + block);
        lemma_split_span(data, 0, magic, block);
        let word = u32_bytes(1);
        let fields = seq![
            (b.partition_id.index % 256) as u8,
            if b.partition_id.part_type@ == PartitionTypeView::Addon {
                1u8
            } else {
                0u8
            },
            match b.patch_id {
                PatchId::Base => 0u8,
                PatchId::Patch(n) => (n % 256) as u8,
            },
            0x78u8,
            0x78u8,
        ];
        assert(block =~= word + fields);
        lemma_split_span(data, 4, word, fields);
        lemma_le_u32_at(data, 4, 1);
        let got = data.subrange(8, 13);
        assert(got[0] == data[8] && got[1] == data[9] && got[2] == data[10] && got[3] == data[11]
            && got[4] == data[12]);
        assert(metadata_of(data).language_tag@ =~= seq![0x78u8, 0x78u8]);
        let want: [u8; 2] = [0x78u8, 0x78u8];
        assert(metadata_of(data).language_tag@ =~= want@);
    } else {
        assert(lead =~= magic_bytes(version));
    }
}

/// Where the three words of the header stand, they are read back.
proof fn lemma_words_read(data: Seq<u8>, at: int, b: PackageBuilder)
    requires
        0 <= at,
        at + 12 <= data.len(),
        data.subrange(at, at + 12) == word_bytes(b),
    ensures
        le_u32(data, at) == b.resources@.len() as u32,
        le_u32(data, at + 4) == (20 * b.resources@.len()) as u32,
        le_u32(data, at + 8) == metadata_table_len(b.resources@) as u32,
{
    let a = u32_bytes(b.resources@.len() as u32);
    let c = u32_bytes((20 * b.resources@.len()) as u32);
    let d = u32_bytes(metadata_table_len(b.resources@) as u32);
    lemma_u32_roundtrip(b.resources@.len() as u32);
    lemma_u32_roundtrip((20 * b.resources@.len()) as u32);
    lemma_u32_roundtrip(metadata_table_len(b.resources@) as u32);
    lemma_split_span(data, at, a + c, d);
    lemma_split_span(data, at, a, c);
    lemma_le_u32_at(data, at, b.resources@.len() as u32);
    lemma_le_u32_at(data, at + 4, (20 * b.resources@.len()) as u32);
    lemma_le_u32_at(data, at + 8, metadata_table_len(b.resources@) as u32);
}

/// Where the list of deleted resources stands, it is read back.
proof fn lemma_tail_read(data: Seq<u8>, at: int, ids: Seq<u64>, i: int)
    requires
        0 <= at,
        ids.len() <= u32::MAX,
        at + 4 + 8 * ids.len() <= data.len(),
        data.subrange(at, at + 4 + 8 * ids.len()) == u32_bytes(ids.len() as u32) + unneeded_bytes(
            ids,
        ),
        0 <= i < ids.len(),
    ensures
        le_u32(data, at) == ids.len(),
        le_u64(data, at + 4 + 8 * i) == ids[i],
{
    let word = u32_bytes(ids.len() as u32);
    let list = unneeded_bytes(ids);
    lemma_u32_roundtrip(ids.len() as u32);
    lemma_unneeded_len(ids);
    lemma_split_span(data, at, word, list);
    lemma_le_u32_at(data, at, ids.len() as u32);
    lemma_unneeded_piece(ids, i);
    lemma_subrange_of_subrange(data, at + 4, at + 4 + 8 * ids.len(), 8 * i, 8 * i + 8);
    lemma_le_u64_at(data, at + 4 + 8 * i, ids[i]);
}

/// Where an empty list of deleted resources stands, its count is read back.
proof fn lemma_empty_tail_read(data: Seq<u8>, at: int)
    requires
        0 <= at,
        at + 4 <= data.len(),
        data.subrange(at, at + 4) == u32_bytes(0) + unneeded_bytes(Seq::empty()),
    ensures
        le_u32(data, at) == 0,
{
    assert(u32_bytes(0) + unneeded_bytes(Seq::empty()) =~= u32_bytes(0));
    lemma_le_u32_at(data, at, 0);
}


/// Where the payloads of a package stand.
pub open spec fn payload_start(b: PackageBuilder, version: PackageVersion) -> int {
    b.head_bytes(version).len() + 20 * b.resources@.len() + metadata_table_len(b.resources@)
}

/// What is read back of the resource at `i`: the entry of the offset table
/// with the place of its payload and its packed word, and its metadata
/// entry.
pub open spec fn written_info(
    b: PackageBuilder,
    version: PackageVersion,
    stored: Seq<StoredBlob>,
    i: int,
) -> ResourceInfoView {
    ResourceInfoView {
        entry: PackageOffsetInfo {
            runtime_resource_id: b.resources@[i].rrid,
            data_offset: (payload_start(b, version) + payload_len(stored.take(i))) as u64,
            flags: PackageOffsetFlags { bits: stored[i].flag_bits() },
        },
        header: written_header(b.resources@[i], b.legacy_references),
    }
}

/// The metadata block as it is read back.
pub open spec fn written_metadata(b: PackageBuilder) -> PackageMetadata {
    PackageMetadata {
        unknown: 1,
        chunk_id: (b.partition_id.index % 256) as u8,
        chunk_type: if b.partition_id.part_type@ == PartitionTypeView::Addon {
            ChunkType::Addon
        } else {
            ChunkType::Standard
        },
        patch_id: match b.patch_id {
            PatchId::Base => 0u8,
            PatchId::Patch(n) => (n % 256) as u8,
        },
        language_tag: [0x78u8, 0x78u8],
    }
}

/// Where the parts of a built package stand in it, and what its head reads as.
pub proof fn lemma_built_positions(b: PackageBuilder, version: PackageVersion, stored: Seq<StoredBlob>)
    requires
        b.table_error() is None,
        stored.len() == b.resources@.len(),
    ensures
        ({
            let data = b.archive_bytes(version, stored);
            let is_patch = b.patch_id != PatchId::Base;
            let hp = lead_len(version);
            let tp = b.head_bytes(version).len() as int;
            let mp = tp + 20 * b.resources@.len();
            let pp = payload_start(b, version);
            &&& has_magic_v1(data) == (version == PackageVersion::RPKGv1)
            &&& has_magic_v2(data) == (version == PackageVersion::RPKGv2)
            &&& version == PackageVersion::RPKGv2 ==> data.len() >= 13 && data[9] <= 1
                && metadata_of(data) == written_metadata(b)
            &&& header_pos(data) == hp
            &&& le_u32(data, hp) == b.resources@.len()
            &&& le_u32(data, hp + 4) == 20 * b.resources@.len()
            &&& le_u32(data, hp + 8) == metadata_table_len(b.resources@)
            &&& is_patch ==> hp + 16 <= data.len() && le_u32(data, hp + 12) == b.unneeded().len()
                && forall|i: int|
                0 <= i < b.unneeded().len() ==> #[trigger] le_u64(data, hp + 16 + 8 * i)
                    == b.unneeded()[i]
            &&& tp == if is_patch {
                hp + 16 + 8 * b.unneeded().len()
            } else {
                hp + 12
            }
            &&& hp + 12 <= tp <= mp <= pp
            &&& data.len() == pp + payload_len(stored)
            &&& data.subrange(tp, mp) == offset_table_bytes(
                b.resources@,
                stored,
                pp,
                b.resources@.len(),
            )
            &&& data.subrange(mp, pp) == metadata_table_bytes(b.resources@, b.legacy_references)
            &&& data.subrange(pp, data.len() as int) == payload_bytes(stored)
        }),
{
    let data = b.archive_bytes(version, stored);
    let is_patch = b.patch_id != PatchId::Base;
    let hp = lead_len(version);
    let head = b.head_bytes(version);
    let n = b.resources@.len();
    let pp = payload_start(b, version);
    let offsets = offset_table_bytes(b.resources@, stored, pp, n);
    let table = metadata_table_bytes(b.resources@, b.legacy_references);
    let payloads = payload_bytes(stored);
    b.lemma_tables_fit();
    lemma_offset_table_len(b.resources@, stored, pp, n);
    lemma_metadata_table_len(b.resources@, b.legacy_references);
    lemma_payload_len_nonneg(stored);
    lemma_regions(head, offsets, table, payloads);
    lemma_head_split(b, version);
    let lead = lead_bytes(b, version);
    let words = word_bytes(b);
    let tail = tail_bytes(b);
    let tp = head.len() as int;
    assert(head == lead + words + tail);
    lemma_head_spans(data, head, lead, words, tail);
    lemma_lead_read(data, b, version);
    lemma_words_read(data, hp, b);
    if is_patch {
        if b.unneeded().len() > 0 {
            assert forall|i: int| 0 <= i < b.unneeded().len() implies #[trigger] le_u64(
                data,
                hp + 16 + 8 * i,
            ) == b.unneeded()[i] by {
                lemma_tail_read(data, hp + 12, b.unneeded(), i);
            }
            lemma_tail_read(data, hp + 12, b.unneeded(), 0);
        } else {
            assert(b.unneeded() =~= Seq::empty());
            lemma_empty_tail_read(data, hp + 12);
        }
    }
}

/// Where a head stands, its three parts stand.
proof fn lemma_head_spans(data: Seq<u8>, head: Seq<u8>, lead: Seq<u8>, words: Seq<u8>, tail: Seq<u8>)
    requires
        head == lead + words + tail,
        head.len() <= data.len(),
        data.subrange(0, head.len() as int) == head,
    ensures
        data.subrange(0, lead.len() as int) == lead,
        data.subrange(lead.len() as int, (lead.len() + words.len()) as int) == words,
        data.subrange((lead.len() + words.len()) as int, head.len() as int) == tail,
{
    lemma_split_span(data, 0, lead + words, tail);
    lemma_split_span(data, 0, lead, words);
}


/// The resources that are read back of a built package.
pub open spec fn written_infos(b: PackageBuilder, version: PackageVersion, stored: Seq<StoredBlob>) -> Seq<
    ResourceInfoView,
> {
    Seq::new(b.resources@.len(), |i: int| written_info(b, version, stored, i))
}

/// The deleted resources that are read back of a built package.
pub open spec fn written_unneeded(b: PackageBuilder) -> Seq<RuntimeResourceID> {
    Seq::new(b.unneeded().len(), |i: int| RuntimeResourceID { id: collapsed(b.unneeded()[i]) })
}

/// Where the tables of a built package are found when it is read.
proof fn lemma_built_tables(b: PackageBuilder, version: PackageVersion, stored: Seq<StoredBlob>)
    requires
        b.table_error() is None,
        stored.len() == b.resources@.len(),
    ensures
        ({
            let data = b.archive_bytes(version, stored);
            let is_patch = b.patch_id != PatchId::Base;
            let tp = b.head_bytes(version).len() as int;
            let mp = tp + 20 * b.resources@.len();
            let pp = payload_start(b, version);
            &&& file_count(data) == b.resources@.len()
            &&& offset_table_pos(data, is_patch) == tp
            &&& metadata_table_pos(data, is_patch) == mp
            &&& 0 <= tp <= mp <= pp <= data.len()
            &&& pp == mp + metadata_table_len(b.resources@)
            &&& data.subrange(tp, mp) == offset_table_bytes(
                b.resources@,
                stored,
                pp,
                b.resources@.len(),
            )
            &&& data.subrange(mp, pp) == metadata_table_bytes(b.resources@, b.legacy_references)
        }),
{
    lemma_built_positions(b, version, stored);
    lemma_payload_len_nonneg(stored);
}

/// One entry of the two tables, read where a package holds them.
proof fn lemma_tables_entry(
    data: Seq<u8>,
    tp: int,
    resources: Seq<PackageResourceBuilder>,
    stored: Seq<StoredBlob>,
    legacy: bool,
    i: int,
)
    requires
        0 <= tp,
        0 <= i < resources.len(),
        tp + 20 * resources.len() + metadata_table_len(resources) <= data.len(),
        data.subrange(tp, tp + 20 * resources.len()) == offset_table_bytes(
            resources,
            stored,
            tp + 20 * resources.len() + metadata_table_len(resources),
            resources.len(),
        ),
        data.subrange(
            tp + 20 * resources.len(),
            tp + 20 * resources.len() + metadata_table_len(resources),
        ) == metadata_table_bytes(resources, legacy),
        forall|k: int|
            0 <= k < resources.len() ==> reference_chunk_size(
                (#[trigger] resources[k]).references@,
            ) <= u32::MAX,
    ensures
        offset_entry_at(data, tp + 20 * i) == (PackageOffsetInfo {
            runtime_resource_id: resources[i].rrid,
            data_offset: (tp + 20 * resources.len() + metadata_table_len(resources) + payload_len(
                stored.take(i),
            )) as u64,
            flags: PackageOffsetFlags { bits: stored[i].flag_bits() },
        }),
        header_pos_of(data, tp + 20 * resources.len(), i as nat) is Some,
        header_at(data, header_pos_of(data, tp + 20 * resources.len(), i as nat)->0)
            == written_header(resources[i], legacy),
{
    let mp = tp + 20 * resources.len();
    let pp = mp + metadata_table_len(resources);
    lemma_metadata_table_len(resources, legacy);
    lemma_offset_read(data, tp, resources, stored, pp, resources.len(), i);
    lemma_meta_read(data, mp, resources, legacy, i);
}

/// The tables of a built package are read back entry by entry.
proof fn lemma_built_entries(b: PackageBuilder, version: PackageVersion, stored: Seq<StoredBlob>)
    requires
        b.table_error() is None,
        stored.len() == b.resources@.len(),
    ensures
        ({
            let data = b.archive_bytes(version, stored);
            let is_patch = b.patch_id != PatchId::Base;
            &&& file_count(data) == b.resources@.len()
            &&& metadata_table_pos(data, is_patch) + metadata_table_len(b.resources@)
                == payload_start(b, version)
            &&& header_pos_of(data, metadata_table_pos(data, is_patch), b.resources@.len())
                == Some(payload_start(b, version))
            &&& entries_of(data, is_patch) == written_infos(b, version, stored)
        }),
{
    let data = b.archive_bytes(version, stored);
    let is_patch = b.patch_id != PatchId::Base;
    let n = b.resources@.len() as int;
    let resources = b.resources@;
    let legacy = b.legacy_references;
    let tp = b.head_bytes(version).len() as int;
    let mp = tp + 20 * n;
    b.lemma_tables_fit();
    lemma_built_tables(b, version, stored);
    lemma_meta_read(data, mp, resources, legacy, n);
    assert(resources.take(n) =~= resources);
    let read = entries_of(data, is_patch);
    let want = written_infos(b, version, stored);
    assert(read.len() == want.len());
    assert forall|i: int| 0 <= i < n implies read[i] == want[i] by {
        lemma_tables_entry(data, tp, resources, stored, legacy, i);
    }
    assert(read =~= want);
}

/// What is read back of a built package has the identifiers of its
/// resources, each once.
proof fn lemma_written_distinct(b: PackageBuilder, version: PackageVersion, stored: Seq<StoredBlob>)
    requires
        b.wf(),
    ensures
        distinct_ids(written_infos(b, version, stored)),
{
    let infos = written_infos(b, version, stored);
    let ids = resource_ids(b.resources@);
    assert forall|i: int, j: int| 0 <= i < j < infos.len() implies (#[trigger] infos[i]).id() != (
    #[trigger] infos[j]).id() by {
        assert(ids[i] == b.resources@[i].rrid.id);
        assert(ids[j] == b.resources@[j].rrid.id);
    }
}

/// Whether `data` holds `bytes` from `at` on.
pub open spec fn stored_at(data: Seq<u8>, at: int, bytes: Seq<u8>) -> bool {
    &&& 0 <= at
    &&& at + bytes.len() <= data.len()
    &&& data.subrange(at, at + bytes.len()) == bytes
}

/// A built package holds the stored bytes of each resource at the place
/// that its entry of the offset table names.
proof fn lemma_built_payload(b: PackageBuilder, version: PackageVersion, stored: Seq<StoredBlob>, i: int)
    requires
        b.table_error() is None,
        stored.len() == b.resources@.len(),
        0 <= i < stored.len(),
        b.archive_bytes(version, stored).len() <= u64::MAX,
    ensures
        stored_at(
            b.archive_bytes(version, stored),
            written_info(b, version, stored, i).entry.data_offset as int,
            stored[i].bytes@,
        ),
{
    let data = b.archive_bytes(version, stored);
    let pp = payload_start(b, version);
    b.lemma_tables_fit();
    lemma_built_positions(b, version, stored);
    lemma_payload_piece(stored, i);
    let lo = payload_len(stored.take(i));
    lemma_subrange_of_subrange(data, pp, data.len() as int, lo, lo + stored[i].bytes@.len());
}

/// What a builder writes, the reader reads back: a package that is built
/// from stored forms of its resources, and whose places fit in 64 bits, is
/// readable, as a patch exactly where the builder has a patch id. What is
/// read of it is the magic of the version, the metadata block of the
/// builder for version 2, the sizes of the tables, the deleted resources of
/// a patch, and for each resource, in the order of the builder,
/// `written_info`; and the stored bytes of each resource stand where its
/// entry says.
pub proof fn law_built_is_read_back(b: PackageBuilder, version: PackageVersion, stored: Seq<StoredBlob>)
    requires
        b.wf(),
        b.table_error() is None,
        stored.len() == b.resources@.len(),
        b.offsets_fit(version, stored),
    ensures
        ({
            let data = b.archive_bytes(version, stored);
            let is_patch = b.patch_id != PatchId::Base;
            &&& parsed(data, is_patch) matches Some(content)
            &&& content.magic@ == magic_bytes(version)
            &&& content.metadata == if version == PackageVersion::RPKGv2 {
                Some(written_metadata(b))
            } else {
                None
            }
            &&& content.header == (PackageHeader {
                file_count: b.resources@.len() as u32,
                offset_table_size: (20 * b.resources@.len()) as u32,
                metadata_table_size: metadata_table_len(b.resources@) as u32,
            })
            &&& content.unneeded_resource_count == if is_patch {
                b.unneeded().len()
            } else {
                0
            }
            &&& content.unneeded_resources == if is_patch && b.unneeded().len() > 0 {
                Some(written_unneeded(b))
            } else {
                None
            }
            &&& content.resources == written_infos(b, version, stored)
            &&& forall|i: int|
                0 <= i < stored.len() ==> stored_at(
                    data,
                    (#[trigger] written_infos(b, version, stored)[i]).entry.data_offset as int,
                    stored[i].bytes@,
                )
        }),
{
    let data = b.archive_bytes(version, stored);
    let is_patch = b.patch_id != PatchId::Base;
    b.lemma_tables_fit();
    lemma_built_positions(b, version, stored);
    assert forall|i: int| 0 <= i < stored.len() implies stored_at(
        data,
        (#[trigger] written_infos(b, version, stored)[i]).entry.data_offset as int,
        stored[i].bytes@,
    ) by {
        lemma_built_payload(b, version, stored, i);
    }
    lemma_built_entries(b, version, stored);
    lemma_written_distinct(b, version, stored);
    lemma_keyed_distinct(written_infos(b, version, stored));
    lemma_payload_len_nonneg(stored);
    lemma_built_fields(b, version, stored);
}

/// The fields of what is read back of a built package.
proof fn lemma_built_fields(b: PackageBuilder, version: PackageVersion, stored: Seq<StoredBlob>)
    requires
        b.table_error() is None,
        stored.len() == b.resources@.len(),
        0 <= payload_len(stored),
        ({
            let data = b.archive_bytes(version, stored);
            let is_patch = b.patch_id != PatchId::Base;
            &&& file_count(data) == b.resources@.len()
            &&& metadata_table_pos(data, is_patch) + metadata_table_len(b.resources@)
                == payload_start(b, version)
            &&& header_pos_of(data, metadata_table_pos(data, is_patch), b.resources@.len())
                == Some(payload_start(b, version))
            &&& keyed(entries_of(data, is_patch)) == written_infos(b, version, stored)
        }),
    ensures
        ({
            let data = b.archive_bytes(version, stored);
            let is_patch = b.patch_id != PatchId::Base;
            &&& parsed(data, is_patch) matches Some(content)
            &&& content.magic@ == magic_bytes(version)
            &&& content.metadata == if version == PackageVersion::RPKGv2 {
                Some(written_metadata(b))
            } else {
                None
            }
            &&& content.header == (PackageHeader {
                file_count: b.resources@.len() as u32,
                offset_table_size: (20 * b.resources@.len()) as u32,
                metadata_table_size: metadata_table_len(b.resources@) as u32,
            })
            &&& content.unneeded_resource_count == if is_patch {
                b.unneeded().len()
            } else {
                0
            }
            &&& content.unneeded_resources == if is_patch && b.unneeded().len() > 0 {
                Some(written_unneeded(b))
            } else {
                None
            }
            &&& content.resources == written_infos(b, version, stored)
        }),
{
    let data = b.archive_bytes(version, stored);
    let is_patch = b.patch_id != PatchId::Base;
    lemma_built_readable(b, version, stored);
    lemma_built_magic(b, version, stored);
    lemma_built_header(b, version, stored);
    lemma_built_unneeded(b, version, stored);
    reveal(parsed);
}

/// A built package is readable.
proof fn lemma_built_readable(b: PackageBuilder, version: PackageVersion, stored: Seq<StoredBlob>)
    requires
        b.table_error() is None,
        stored.len() == b.resources@.len(),
        0 <= payload_len(stored),
        ({
            let data = b.archive_bytes(version, stored);
            let is_patch = b.patch_id != PatchId::Base;
            &&& file_count(data) == b.resources@.len()
            &&& header_pos_of(data, metadata_table_pos(data, is_patch), b.resources@.len())
                == Some(payload_start(b, version))
        }),
    ensures
        readable(b.archive_bytes(version, stored), b.patch_id != PatchId::Base),
{
    lemma_built_positions(b, version, stored);
}

/// The magic of a built package.
proof fn lemma_built_magic(b: PackageBuilder, version: PackageVersion, stored: Seq<StoredBlob>)
    requires
        b.table_error() is None,
        stored.len() == b.resources@.len(),
    ensures
        ({
            let data = b.archive_bytes(version, stored);
            &&& [data[0], data[1], data[2], data[3]]@ == magic_bytes(version)
            &&& has_magic_v2(data) == (version == PackageVersion::RPKGv2)
            &&& version == PackageVersion::RPKGv2 ==> metadata_of(data) == written_metadata(b)
        }),
{
    let data = b.archive_bytes(version, stored);
    lemma_built_positions(b, version, stored);
    assert([data[0], data[1], data[2], data[3]]@ =~= magic_bytes(version));
}

/// The header of a built package.
proof fn lemma_built_header(b: PackageBuilder, version: PackageVersion, stored: Seq<StoredBlob>)
    requires
        b.table_error() is None,
        stored.len() == b.resources@.len(),
    ensures
        header_of(b.archive_bytes(version, stored)) == (PackageHeader {
            file_count: b.resources@.len() as u32,
            offset_table_size: (20 * b.resources@.len()) as u32,
            metadata_table_size: metadata_table_len(b.resources@) as u32,
        }),
{
    lemma_built_positions(b, version, stored);
}

/// The deleted resources of a built package.
proof fn lemma_built_unneeded(b: PackageBuilder, version: PackageVersion, stored: Seq<StoredBlob>)
    requires
        b.table_error() is None,
        stored.len() == b.resources@.len(),
    ensures
        ({
            let data = b.archive_bytes(version, stored);
            let is_patch = b.patch_id != PatchId::Base;
            &&& unneeded_count(data, is_patch) == if is_patch {
                b.unneeded().len() as int
            } else {
                0
            }
            &&& is_patch ==> unneeded_of(data, is_patch) == written_unneeded(b)
        }),
{
    let data = b.archive_bytes(version, stored);
    let is_patch = b.patch_id != PatchId::Base;
    b.lemma_tables_fit();
    lemma_built_positions(b, version, stored);
    if is_patch {
        assert(unneeded_of(data, is_patch) =~= written_unneeded(b));
    }
}

/// The packed word of a stored form is read back as its compressed size
/// and its flag.
proof fn lemma_flag_bits(stored: StoredBlob)
    requires
        stored.wf(),
    ensures
        (PackageOffsetFlags { bits: stored.flag_bits() }).size_bits() == match stored.compressed_size {
            Some(n) => n,
            None => 0,
        },
        (PackageOffsetFlags { bits: stored.flag_bits() }).scrambled_bit() == stored.is_scrambled,
{
}

/// In a table that holds each identifier once, looking up the identifier
/// of an entry finds that entry.
proof fn lemma_lookup_at(table: Seq<ResourceInfoView>, i: int)
    requires
        distinct_ids(table),
        0 <= i < table.len(),
    ensures
        lookup(table, table[i].id()) == Some(table[i]),
{
    let id = table[i].id();
    let found = choose|k: int| 0 <= k < table.len() && (#[trigger] table[k]).id() == id;
    assert(0 <= found < table.len() && table[found].id() == id);
    if found < i {
        assert(table[found].id() != table[i].id());
    } else if i < found {
        assert(table[i].id() != table[found].id());
    }
}

/// Bytes that were given to the builder in memory come out of their
/// stored form as they went in: extraction does not fail, and whatever it
/// gives, of the size that the header names, is those bytes.
proof fn lemma_memory_extracts(
    blob: PackageResourceBlob,
    stored: StoredBlob,
    info: ResourceInfoView,
    out: Seq<u8>,
)
    requires
        blob is Memory,
        blob.wf(),
        admissible(blob, stored),
        info.entry.flags.bits == stored.flag_bits(),
        info.header.data_size == blob.data_size(),
    ensures
        info.stored_size() == stored.bytes@.len(),
        !extraction_fails(info, stored.bytes@),
        extracts_to(info, stored.bytes@, out) && out.len() == info.header.data_size ==> out
            == blob->Memory_data@,
{
    let data = blob->Memory_data@;
    assert(stored.wf());
    lemma_flag_bits(stored);
    law_scramble_involutive(data);
    law_scramble_involutive(stored.bytes@);
    if extracts_to(info, stored.bytes@, out) && out.len() == info.header.data_size {
        if info.entry.flags.size_bits() != 0 {
            let decoded = lz4_decoded(
                descrambled(info, stored.bytes@),
                info.header.data_size as nat,
            )->0;
            assert(decoded == data);
            assert(out.take(decoded.len() as int) =~= out);
        } else {
            assert(out =~= data);
        }
    }
}

/// What is built is read back: where a package that was built from
/// resources in memory is read from its bytes, reading a resource gives the
/// bytes that the builder was given for it, whether or not they were
/// compressed or scrambled on the way.
pub proof fn law_built_resource_is_read(
    b: PackageBuilder,
    version: PackageVersion,
    stored: Seq<StoredBlob>,
    package: ResourcePackage,
    i: int,
    r: Result<Vec<u8>, ResourcePackageError>,
)
    requires
        b.wf(),
        b.table_error() is None,
        stored.len() == b.resources@.len(),
        b.offsets_fit(version, stored),
        0 <= i < stored.len(),
        b.resources@[i].blob is Memory,
        admissible(b.resources@[i].blob, stored[i]),
        parsed(b.archive_bytes(version, stored), b.patch_id != PatchId::Base) == Some(package@),
        package.source matches Some(ResourcePackageSource::Memory(kept)) && kept@
            == b.archive_bytes(version, stored),
        package.reads_as(b.resources@[i].rrid.id, r),
    ensures
        r matches Ok(out) && out@ == b.resources@[i].blob->Memory_data@,
{
    let data = b.archive_bytes(version, stored);
    let infos = written_infos(b, version, stored);
    let info = infos[i];
    law_built_is_read_back(b, version, stored);
    lemma_written_distinct(b, version, stored);
    lemma_lookup_at(infos, i);
    assert(info == written_info(b, version, stored, i));
    assert(b.resources@[i].wf());
    assert(stored_at(data, info.entry.data_offset as int, stored[i].bytes@));
    if r is Ok {
        lemma_memory_extracts(b.resources@[i].blob, stored[i], info, r->Ok_0@);
    } else {
        lemma_memory_extracts(b.resources@[i].blob, stored[i], info, Seq::empty());
    }
}

} // verus!
