//! Rebuilding an archive from what was read of it gives the archive back.
//!
//! That holds of archives in the layout in which a builder writes them,
//! which `canonical` describes; the reader accepts more than that.

use crate::resource::package_builder::{
    admissible,
    copied_type,
    copyable,
    deduplicated,
    duplicate_of,
    metadata_table_bytes,
    metadata_table_len,
    offset_table_bytes,
    payload_bound,
    payload_bytes,
    payload_len,
    reference_chunk_bytes,
    reference_chunk_size,
    reference_flag_bytes,
    reference_id_bytes,
    resource_header_bytes,
    stored_as_is,
    stored_most,
    takes_over,
    unneeded_bytes,
    PackageBuilder,
    PackageResourceBlob,
    PackageResourceBuilder,
    StoredBlob,
};
use crate::resource::pdefs::PartitionTypeView;
use crate::resource::reference_flags::ResourceReferenceCountAndFlags;
use crate::resource::resource_info::ResourceInfoView;
use crate::resource::resource_package::{
    distinct_ids,
    entries_of,
    file_count,
    has_magic_v1,
    has_magic_v2,
    header_at,
    header_pos,
    header_pos_of,
    header_span,
    ids_of,
    keyed,
    legacy_layout,
    lemma_keyed_insert_new,
    metadata_table_pos,
    offset_entry_at,
    offset_table_pos,
    parsed,
    readable,
    reference_at,
    references_at,
    stored_bytes,
    unneeded_count,
    unneeded_of,
    PackageVersion,
    ResourcePackage,
    ResourcePackageSource,
};
use crate::resource::resource_partition::PatchId;
use crate::resource::runtime_resource_id::{collapsed, RuntimeResourceID, INVALID_ID};
use crate::wire::{
    le_u32,
    le_u64,
    lemma_u32_bytes_of_le,
    lemma_u64_bytes_of_le,
    u32_bytes,
};
use vstd::prelude::*;
use vstd::utf8::valid_utf8;

verus! {

/// The number of bytes that the first `count` resources take in the
/// archive, one behind the other.
pub open spec fn stored_total(entries: Seq<ResourceInfoView>, count: int) -> int
    decreases count,
{
    if count <= 0 {
        0
    } else {
        stored_total(entries, count - 1) + entries[count - 1].stored_size()
    }
}

/// Where the metadata table of the archive `data` ends and its payloads begin.
pub open spec fn payload_pos(data: Seq<u8>, is_patch: bool) -> int {
    header_pos_of(data, metadata_table_pos(data, is_patch), file_count(data) as nat)->0
}

/// The word that counts `count` references in a layout, with the top bit set.
pub open spec fn count_word(count: int, legacy: bool) -> int {
    if legacy {
        count + 0x8000_0000
    } else {
        count + 0xC000_0000
    }
}

/// Where the identifiers of `count` references start in a chunk at
/// `chunk`: behind the count word in the legacy layout, behind the flag
/// bytes in the new one.
pub open spec fn ids_pos(chunk: int, count: int, legacy: bool) -> int {
    if legacy {
        chunk + 4
    } else {
        chunk + 4 + count
    }
}

/// Whether the metadata entry at `at` is as a builder with the given
/// layout of references writes it: its type is text, it has no states
/// chunk, and its references, where it has any, are counted by a word that
/// names the layout and has the top bit set, take as many bytes as the
/// entry says, and are identifiers in range.
pub open spec fn canonical_header(data: Seq<u8>, at: int, legacy: bool) -> bool {
    &&& valid_utf8(data.subrange(at, at + 4))
    &&& le_u32(data, at + 8) == 0
    &&& le_u32(data, at + 4) != 0 ==> {
        let count = le_u32(data, at + 24) % 0x4000_0000;
        &&& count > 0
        &&& le_u32(data, at + 4) == 4 + 9 * count
        &&& le_u32(data, at + 24) == count_word(count, legacy)
        &&& forall|j: int|
            0 <= j < count ==> #[trigger] le_u64(data, ids_pos(at + 24, count, legacy) + 8 * j)
                < INVALID_ID
    }
}

/// The layout of references of the archive `data`: the legacy one where
/// any of its references is read in it.
pub open spec fn layout_of(data: Seq<u8>, is_patch: bool) -> bool {
    legacy_layout(entries_of(data, is_patch))
}

/// Whether the archive `data` is laid out as a builder lays it out.
///
/// - Version 2 has the word 1 and the language tag `xx` in its metadata
///   block, and the patch number zero where it is no patch.
/// - The header gives the sizes that the two tables have.
/// - No identifier occurs twice, among the resources or among the deleted
///   resources, and every deleted resource is an identifier in range.
/// - Every metadata entry is a `canonical_header` of one layout of
///   references, which is `layout_of` the archive.
/// - The payloads follow the metadata table in the order of the offset
///   table, without gaps, and nothing follows them.
#[verifier::opaque]
pub open spec fn canonical(data: Seq<u8>, is_patch: bool) -> bool {
    let hp = header_pos(data);
    let mp = metadata_table_pos(data, is_patch);
    let n = file_count(data);
    let entries = entries_of(data, is_patch);
    &&& readable(data, is_patch)
    &&& has_magic_v2(data) ==> le_u32(data, 4) == 1 && data[11] == 0x78 && data[12] == 0x78 && (
    !is_patch ==> data[10] == 0)
    &&& le_u32(data, hp + 4) == 20 * n
    &&& le_u32(data, hp + 8) == payload_pos(data, is_patch) - mp
    &&& distinct_ids(entries)
    &&& forall|i: int|
        0 <= i < unneeded_count(data, is_patch) ==> #[trigger] le_u64(data, hp + 16 + 8 * i)
            < INVALID_ID
    &&& forall|i: int, j: int|
        0 <= i < j < unneeded_count(data, is_patch) ==> #[trigger] le_u64(data, hp + 16 + 8 * i)
            != #[trigger] le_u64(data, hp + 16 + 8 * j)
    &&& forall|i: int|
        0 <= i < n ==> canonical_header(
            data,
            (#[trigger] header_pos_of(data, mp, i as nat))->0,
            layout_of(data, is_patch),
        )
    &&& forall|i: int|
        0 <= i < n ==> entries[i].entry.data_offset == payload_pos(data, is_patch)
            + #[trigger] stored_total(entries, i)
    &&& data.len() == payload_pos(data, is_patch) + stored_total(entries, n)
}

/// A table whose identifiers are distinct is filed by identifier as it is.
pub proof fn lemma_keyed_distinct(entries: Seq<ResourceInfoView>)
    requires
        distinct_ids(entries),
    ensures
        keyed(entries) == entries,
    decreases entries.len(),
{
    if entries.len() > 0 {
        let rest = entries.drop_last();
        assert forall|i: int, j: int| 0 <= i < j < rest.len() implies (#[trigger] rest[i]).id() != (
        #[trigger] rest[j]).id() by {
            assert(rest[i] == entries[i]);
            assert(rest[j] == entries[j]);
        }
        lemma_keyed_distinct(rest);
        assert(!ids_of(rest).contains(entries.last().id())) by {
            if ids_of(rest).contains(entries.last().id()) {
                let k = choose|k: int|
                    0 <= k < ids_of(rest).len() && ids_of(rest)[k] == entries.last().id();
                assert(ids_of(rest)[k] == rest[k].id());
                assert(rest[k] == entries[k]);
                assert(entries[k].id() != entries[entries.len() - 1].id());
            }
        }
        lemma_keyed_insert_new(rest, entries.last());
        assert(rest.push(entries.last()) =~= entries);
    } else {
        assert(keyed(entries) =~= entries);
    }
}

/// Identifiers that are distinct stay as they are when repetitions are dropped.
pub proof fn lemma_deduplicated_distinct(ids: Seq<RuntimeResourceID>)
    requires
        forall|i: int, j: int| 0 <= i < j < ids.len() ==> ids[i].id != ids[j].id,
    ensures
        deduplicated(ids) == Seq::new(ids.len(), |i: int| ids[i].id),
    decreases ids.len(),
{
    if ids.len() > 0 {
        let rest = ids.drop_last();
        lemma_deduplicated_distinct(rest);
        let before = deduplicated(rest);
        if before.contains(ids.last().id) {
            let k = choose|k: int| 0 <= k < before.len() && before[k] == ids.last().id;
            assert(before[k] == rest[k].id);
            assert(rest[k] == ids[k]);
            assert(ids[k].id != ids[ids.len() - 1].id);
        }
        assert(before.push(ids.last().id) =~= Seq::new(ids.len(), |i: int| ids[i].id));
    } else {
        assert(deduplicated(ids) =~= Seq::new(ids.len(), |i: int| ids[i].id));
    }
}

/// Two neighbouring spans of a sequence make one.
pub proof fn lemma_subrange_join<T>(s: Seq<T>, a: int, b: int, c: int)
    requires
        0 <= a <= b <= c <= s.len(),
    ensures
        s.subrange(a, b) + s.subrange(b, c) == s.subrange(a, c),
{
    assert(s.subrange(a, b) + s.subrange(b, c) =~= s.subrange(a, c));
}


/// The identifiers of references that were read from identifiers in range
/// are written as they stood.
proof fn lemma_reference_ids(data: Seq<u8>, chunk: int, count: int, legacy: bool, k: int)
    requires
        0 <= chunk,
        0 <= k <= count,
        le_u32(data, chunk) == count_word(count, legacy),
        0 <= count < 0x4000_0000,
        chunk + 4 + 9 * count <= data.len(),
        forall|j: int|
            0 <= j < count ==> #[trigger] le_u64(data, ids_pos(chunk, count, legacy) + 8 * j)
                < INVALID_ID,
    ensures
        reference_id_bytes(references_at(data, chunk).take(k)) == data.subrange(
            ids_pos(chunk, count, legacy),
            ids_pos(chunk, count, legacy) + 8 * k,
        ),
    decreases k,
{
    let refs = references_at(data, chunk);
    let start = ids_pos(chunk, count, legacy);
    lemma_count_word_read(data, chunk, count, legacy);
    if k == 0 {
        assert(reference_id_bytes(refs.take(0)) =~= data.subrange(start, start));
    } else {
        lemma_reference_ids(data, chunk, count, legacy, k - 1);
        assert(refs.take(k).drop_last() =~= refs.take(k - 1));
        let id = refs.take(k).last().0.id;
        assert(refs[k - 1] == reference_at(data, chunk, count, !legacy, k - 1));
        assert(le_u64(data, start + 8 * (k - 1)) < INVALID_ID);
        lemma_u64_bytes_of_le(data, start + 8 * (k - 1));
        assert(id == le_u64(data, start + 8 * (k - 1)));
        lemma_subrange_join(data, start, start + 8 * (k - 1), start + 8 * k);
    }
}

/// What the count word of a layout reads as.
proof fn lemma_count_word_read(data: Seq<u8>, chunk: int, count: int, legacy: bool)
    requires
        le_u32(data, chunk) == count_word(count, legacy),
        0 <= count < 0x4000_0000,
    ensures
        (ResourceReferenceCountAndFlags { bits: le_u32(data, chunk) as u32 }).count_bits() == count,
        (ResourceReferenceCountAndFlags { bits: le_u32(data, chunk) as u32 }).new_format_bit()
            == !legacy,
        references_at(data, chunk).len() == count,
        ResourceReferenceCountAndFlags::packed(count as u32, !legacy, true) == le_u32(data, chunk),
{
}

/// A reference chunk in one layout, with the top bit set and identifiers
/// in range, is written in that layout as it stood.
proof fn lemma_reference_chunk(data: Seq<u8>, chunk: int, legacy: bool)
    requires
        0 <= chunk,
        chunk + 4 <= data.len(),
        le_u32(data, chunk) == count_word(le_u32(data, chunk) % 0x4000_0000, legacy),
        chunk + 4 + 9 * (le_u32(data, chunk) % 0x4000_0000) <= data.len(),
        forall|j: int|
            0 <= j < le_u32(data, chunk) % 0x4000_0000 ==> #[trigger] le_u64(
                data,
                ids_pos(chunk, le_u32(data, chunk) % 0x4000_0000, legacy) + 8 * j,
            ) < INVALID_ID,
    ensures
        reference_chunk_bytes(references_at(data, chunk), legacy) == data.subrange(
            chunk,
            chunk + 4 + 9 * (le_u32(data, chunk) % 0x4000_0000),
        ),
        references_at(data, chunk).len() == le_u32(data, chunk) % 0x4000_0000,
{
    let word = le_u32(data, chunk);
    let count = word % 0x4000_0000;
    let refs = references_at(data, chunk);
    lemma_u32_bytes_of_le(data, chunk);
    lemma_count_word_read(data, chunk, count, legacy);
    lemma_reference_ids(data, chunk, count, legacy, count);
    assert(refs.take(count) =~= refs);
    let flags = reference_flag_bytes(refs, legacy);
    if legacy {
        assert(flags =~= data.subrange(chunk + 4 + 8 * count, chunk + 4 + 9 * count)) by {
            assert forall|j: int| 0 <= j < count implies flags[j] == data[chunk + 4 + 8 * count
                + j] by {
                assert(refs[j] == reference_at(data, chunk, count, false, j));
            }
        }
        lemma_subrange_join(data, chunk + 4, chunk + 4 + 8 * count, chunk + 4 + 9 * count);
    } else {
        assert(flags =~= data.subrange(chunk + 4, chunk + 4 + count)) by {
            assert forall|j: int| 0 <= j < count implies flags[j] == data[chunk + 4 + j] by {
                assert(refs[j] == reference_at(data, chunk, count, true, j));
            }
        }
        lemma_subrange_join(data, chunk + 4, chunk + 4 + count, chunk + 4 + 9 * count);
    }
    lemma_subrange_join(data, chunk, chunk + 4, chunk + 4 + 9 * count);
}

/// A canonical metadata entry is written as it stood.
proof fn lemma_header_bytes(data: Seq<u8>, at: int, r: PackageResourceBuilder, legacy: bool)
    requires
        0 <= at,
        header_span(data, at) is Some,
        canonical_header(data, at, legacy),
        r.resource_type@ == data.subrange(at, at + 4),
        r.references@ == header_at(data, at).references,
        r.blob.data_size() == le_u32(data, at + 12),
        r.system_memory_requirement == le_u32(data, at + 16),
        r.video_memory_requirement == le_u32(data, at + 20),
    ensures
        resource_header_bytes(r, legacy) == data.subrange(at, at + header_span(data, at)->0),
        24 + reference_chunk_size(r.references@) == header_span(data, at)->0,
        reference_chunk_size(r.references@) <= u32::MAX,
{
    lemma_u32_bytes_of_le(data, at + 4);
    lemma_u32_bytes_of_le(data, at + 8);
    lemma_u32_bytes_of_le(data, at + 12);
    lemma_u32_bytes_of_le(data, at + 16);
    lemma_u32_bytes_of_le(data, at + 20);
    let sized = le_u32(data, at + 4);
    if sized != 0 {
        lemma_u32_bytes_of_le(data, at + 24);
        lemma_reference_chunk(data, at + 24, legacy);
    }
    let span = header_span(data, at)->0;
    assert(reference_chunk_size(r.references@) == sized);
    let fixed = r.resource_type@ + u32_bytes(sized as u32) + u32_bytes(0) + u32_bytes(
        r.blob.data_size(),
    ) + u32_bytes(r.system_memory_requirement) + u32_bytes(r.video_memory_requirement);
    lemma_subrange_join(data, at, at + 4, at + 8);
    lemma_subrange_join(data, at, at + 8, at + 12);
    lemma_subrange_join(data, at, at + 12, at + 16);
    lemma_subrange_join(data, at, at + 16, at + 20);
    lemma_subrange_join(data, at, at + 20, at + 24);
    assert(fixed == data.subrange(at, at + 24));
    if sized != 0 {
        lemma_subrange_join(data, at, at + 24, at + span);
    } else {
        assert(fixed + Seq::<u8>::empty() =~= fixed);
    }
}


/// Whether the resource `r` of a builder and its stored form `stored` say
/// what the entry `info` of the archive `data` says.
#[verifier::opaque]
pub open spec fn mirrors(r: PackageResourceBuilder, stored: StoredBlob, info: ResourceInfoView, data: Seq<u8>) -> bool {
    &&& r.rrid == info.entry.runtime_resource_id
    &&& r.resource_type@ == info.header.resource_type@
    &&& r.references@ == info.header.references
    &&& r.blob.data_size() == info.header.data_size
    &&& r.system_memory_requirement == info.header.system_memory_requirement
    &&& r.video_memory_requirement == info.header.video_memory_requirement
    &&& info.entry.data_offset + info.stored_size() <= data.len()
    &&& stored.bytes@ == data.subrange(
        info.entry.data_offset as int,
        info.entry.data_offset + info.stored_size(),
    )
    &&& stored.flag_bits() == info.entry.flags.bits
}

/// Where an entry has a place, every entry before it has one.
proof fn lemma_header_pos_of_defined(data: Seq<u8>, start: int, k: nat, n: nat)
    requires
        k <= n,
        header_pos_of(data, start, n) is Some,
        0 <= start <= data.len(),
    ensures
        header_pos_of(data, start, k) is Some,
        start <= header_pos_of(data, start, k)->0 <= header_pos_of(data, start, n)->0
            <= data.len(),
        k < n ==> header_span(data, header_pos_of(data, start, k)->0) is Some
            && header_pos_of(data, start, (k + 1) as nat) == Some(
            header_pos_of(data, start, k)->0 + header_span(
                data,
                header_pos_of(data, start, k)->0,
            )->0,
        ),
    decreases n - k,
{
    if k < n {
        lemma_header_pos_of_defined(data, start, k + 1, n);
        lemma_header_pos_of_grows(data, start, k);
    } else {
        lemma_header_pos_of_grows(data, start, k);
    }
}

proof fn lemma_header_pos_of_grows(data: Seq<u8>, start: int, k: nat)
    requires
        header_pos_of(data, start, k) is Some,
        0 <= start <= data.len(),
    ensures
        start <= header_pos_of(data, start, k)->0 <= data.len(),
    decreases k,
{
    if k > 0 {
        lemma_header_pos_of_grows(data, start, (k - 1) as nat);
    }
}

/// Whether the resource `r` of a builder says what the metadata entry at
/// `at` says.
pub open spec fn header_mirrors(r: PackageResourceBuilder, data: Seq<u8>, at: int) -> bool {
    &&& r.resource_type@ == data.subrange(at, at + 4)
    &&& r.references@ == header_at(data, at).references
    &&& r.blob.data_size() == le_u32(data, at + 12)
    &&& r.system_memory_requirement == le_u32(data, at + 16)
    &&& r.video_memory_requirement == le_u32(data, at + 20)
}

/// The metadata table of resources that mirror canonical entries is
/// written as it stood.
proof fn lemma_metadata_table(
    data: Seq<u8>,
    mp: int,
    n: nat,
    resources: Seq<PackageResourceBuilder>,
    legacy: bool,
    k: int,
)
    requires
        0 <= mp <= data.len(),
        header_pos_of(data, mp, n) is Some,
        resources.len() == n,
        0 <= k <= n,
        forall|i: int|
            0 <= i < n ==> canonical_header(
                data,
                (#[trigger] header_pos_of(data, mp, i as nat))->0,
                legacy,
            ),
        forall|i: int|
            0 <= i < n ==> header_mirrors(
                #[trigger] resources[i],
                data,
                header_pos_of(data, mp, i as nat)->0,
            ),
    ensures
        header_pos_of(data, mp, k as nat) is Some,
        metadata_table_bytes(resources.take(k), legacy) == data.subrange(
            mp,
            header_pos_of(data, mp, k as nat)->0,
        ),
        metadata_table_len(resources.take(k)) == header_pos_of(data, mp, k as nat)->0 - mp,
    decreases k,
{
    lemma_header_pos_of_defined(data, mp, k as nat, n);
    if k == 0 {
        assert(metadata_table_bytes(resources.take(0), legacy) =~= data.subrange(mp, mp));
    } else {
        lemma_metadata_table(data, mp, n, resources, legacy, k - 1);
        lemma_header_pos_of_defined(data, mp, (k - 1) as nat, n);
        let at = header_pos_of(data, mp, (k - 1) as nat)->0;
        let r = resources[k - 1];
        assert(header_mirrors(r, data, at));
        assert(canonical_header(data, at, legacy));
        lemma_header_bytes(data, at, r, legacy);
        assert(resources.take(k).drop_last() =~= resources.take(k - 1));
        assert(resources.take(k).last() == r);
        lemma_subrange_join(data, mp, at, at + header_span(data, at)->0);
    }
}

/// Stored bytes that are the payloads of an archive, one behind the other
/// from `pp` on, are as many as the archive says and are written as they stood.
proof fn lemma_payloads(
    data: Seq<u8>,
    pp: int,
    entries: Seq<ResourceInfoView>,
    stored: Seq<StoredBlob>,
    k: int,
)
    requires
        0 <= pp <= data.len(),
        stored.len() == entries.len(),
        0 <= k <= entries.len(),
        forall|i: int|
            0 <= i < entries.len() ==> entries[i].entry.data_offset == pp
                + #[trigger] stored_total(entries, i),
        forall|i: int|
            0 <= i < entries.len() ==> entries[i].entry.data_offset + entries[i].stored_size()
                <= data.len() && (#[trigger] stored[i]).bytes@ == data.subrange(
                entries[i].entry.data_offset as int,
                entries[i].entry.data_offset + entries[i].stored_size(),
            ),
    ensures
        payload_len(stored.take(k)) == stored_total(entries, k),
        0 <= stored_total(entries, k),
        pp + stored_total(entries, k) <= data.len(),
        payload_bytes(stored.take(k)) == data.subrange(pp, pp + stored_total(entries, k)),
    decreases k,
{
    if k == 0 {
        assert(payload_bytes(stored.take(0)) =~= data.subrange(pp, pp));
    } else {
        lemma_payloads(data, pp, entries, stored, k - 1);
        let info = entries[k - 1];
        assert(info.entry.data_offset == pp + stored_total(entries, k - 1));
        assert(stored[k - 1].bytes@ == data.subrange(
            info.entry.data_offset as int,
            info.entry.data_offset + info.stored_size(),
        ));
        assert(stored.take(k).drop_last() =~= stored.take(k - 1));
        assert(stored.take(k).last() == stored[k - 1]);
        lemma_subrange_join(
            data,
            pp,
            pp + stored_total(entries, k - 1),
            pp + stored_total(entries, k),
        );
    }
}

/// An offset table whose entries say what the resources and their stored
/// forms say is written as it stood.
proof fn lemma_offset_table(
    data: Seq<u8>,
    tp: int,
    pp: int,
    entries: Seq<ResourceInfoView>,
    resources: Seq<PackageResourceBuilder>,
    stored: Seq<StoredBlob>,
    k: int,
)
    requires
        0 <= tp,
        tp + 20 * entries.len() <= data.len(),
        resources.len() == entries.len(),
        stored.len() == entries.len(),
        0 <= k <= entries.len(),
        forall|i: int|
            0 <= i < entries.len() ==> (#[trigger] entries[i]).entry == offset_entry_at(
                data,
                tp + 20 * i,
            ),
        forall|i: int|
            0 <= i < entries.len() ==> (#[trigger] resources[i]).rrid
                == entries[i].entry.runtime_resource_id,
        forall|i: int|
            0 <= i < entries.len() ==> (#[trigger] stored[i]).flag_bits()
                == entries[i].entry.flags.bits,
        forall|i: int|
            0 <= i < entries.len() ==> (#[trigger] entries[i]).entry.data_offset == pp
                + payload_len(stored.take(i)),
    ensures
        offset_table_bytes(resources, stored, pp, k as nat) == data.subrange(tp, tp + 20 * k),
    decreases k,
{
    if k == 0 {
        assert(offset_table_bytes(resources, stored, pp, 0) =~= data.subrange(tp, tp));
    } else {
        lemma_offset_table(data, tp, pp, entries, resources, stored, k - 1);
        let i = k - 1;
        let at = tp + 20 * i;
        let info = entries[i];
        assert(info.entry == offset_entry_at(data, at));
        assert(resources[i].rrid == info.entry.runtime_resource_id);
        assert(stored[i].flag_bits() == info.entry.flags.bits);
        lemma_u64_bytes_of_le(data, at);
        lemma_u64_bytes_of_le(data, at + 8);
        lemma_u32_bytes_of_le(data, at + 16);
        lemma_subrange_join(data, tp, at, at + 8);
        lemma_subrange_join(data, tp, at + 8, at + 16);
        lemma_subrange_join(data, tp, at + 16, at + 20);
    }
}


/// Deleted resources that are identifiers in range are written as they stood.
proof fn lemma_unneeded_bytes(data: Seq<u8>, at: int, ids: Seq<u64>, k: int)
    requires
        0 <= at,
        0 <= k <= ids.len(),
        at + 8 * ids.len() <= data.len(),
        forall|i: int| 0 <= i < ids.len() ==> #[trigger] ids[i] == le_u64(data, at + 8 * i),
    ensures
        unneeded_bytes(ids.take(k)) == data.subrange(at, at + 8 * k),
    decreases k,
{
    if k == 0 {
        assert(unneeded_bytes(ids.take(0)) =~= data.subrange(at, at));
    } else {
        lemma_unneeded_bytes(data, at, ids, k - 1);
        assert(ids.take(k).drop_last() =~= ids.take(k - 1));
        assert(ids.take(k).last() == ids[k - 1]);
        lemma_u64_bytes_of_le(data, at + 8 * (k - 1));
        lemma_subrange_join(data, at, at + 8 * (k - 1), at + 8 * k);
    }
}

/// The version that the magic of `data` names.
pub open spec fn version_of(data: Seq<u8>) -> PackageVersion {
    if has_magic_v1(data) {
        PackageVersion::RPKGv1
    } else {
        PackageVersion::RPKGv2
    }
}

/// What is canonical is readable, and its header says what its tables are.
proof fn lemma_canonical_basics(data: Seq<u8>, is_patch: bool)
    requires
        canonical(data, is_patch),
    ensures
        has_magic_v1(data) || has_magic_v2(data),
        has_magic_v2(data) ==> data.len() >= 13 && data[9] <= 1 && le_u32(data, 4) == 1
            && data[11] == 0x78 && data[12] == 0x78 && (!is_patch ==> data[10] == 0),
        le_u32(data, header_pos(data) + 4) == 20 * file_count(data),
        le_u32(data, header_pos(data) + 8) == payload_pos(data, is_patch) - metadata_table_pos(
            data,
            is_patch,
        ),
        distinct_ids(entries_of(data, is_patch)),
        data.len() == payload_pos(data, is_patch) + stored_total(
            entries_of(data, is_patch),
            file_count(data),
        ),
        0 <= file_count(data) <= u32::MAX,
        0 <= unneeded_count(data, is_patch) <= u32::MAX,
        0 <= header_pos(data),
        header_pos(data) + 12 <= offset_table_pos(data, is_patch) <= metadata_table_pos(
            data,
            is_patch,
        ) <= payload_pos(data, is_patch) <= data.len(),
        offset_table_pos(data, is_patch) + 20 * file_count(data) == metadata_table_pos(
            data,
            is_patch,
        ),
        header_pos_of(data, metadata_table_pos(data, is_patch), file_count(data) as nat) is Some,
{
    reveal(canonical);
    lemma_header_pos_of_defined(
        data,
        metadata_table_pos(data, is_patch),
        file_count(data) as nat,
        file_count(data) as nat,
    );
}

proof fn lemma_canonical_entry(data: Seq<u8>, is_patch: bool, i: int)
    requires
        canonical(data, is_patch),
        0 <= i < file_count(data),
    ensures
        header_pos_of(data, metadata_table_pos(data, is_patch), i as nat) is Some,
        canonical_header(
            data,
            header_pos_of(data, metadata_table_pos(data, is_patch), i as nat)->0,
            layout_of(data, is_patch),
        ),
        header_span(
            data,
            header_pos_of(data, metadata_table_pos(data, is_patch), i as nat)->0,
        ) is Some,
        0 <= header_pos_of(data, metadata_table_pos(data, is_patch), i as nat)->0,
        entries_of(data, is_patch)[i].entry.data_offset == payload_pos(data, is_patch)
            + stored_total(entries_of(data, is_patch), i),
        entries_of(data, is_patch)[i].header == header_at(
            data,
            header_pos_of(data, metadata_table_pos(data, is_patch), i as nat)->0,
        ),
        entries_of(data, is_patch)[i].entry == offset_entry_at(
            data,
            offset_table_pos(data, is_patch) + 20 * i,
        ),
{
    reveal(canonical);
    lemma_canonical_basics(data, is_patch);
    lemma_header_pos_of_defined(
        data,
        metadata_table_pos(data, is_patch),
        i as nat,
        file_count(data) as nat,
    );
    assert(canonical_header(
        data,
        header_pos_of(data, metadata_table_pos(data, is_patch), i as nat)->0,
        layout_of(data, is_patch),
    ));
}

proof fn lemma_canonical_unneeded(data: Seq<u8>, is_patch: bool, i: int, j: int)
    requires
        canonical(data, is_patch),
        0 <= i < unneeded_count(data, is_patch),
        0 <= j < unneeded_count(data, is_patch),
    ensures
        le_u64(data, header_pos(data) + 16 + 8 * i) < INVALID_ID,
        i != j ==> le_u64(data, header_pos(data) + 16 + 8 * i) != le_u64(
            data,
            header_pos(data) + 16 + 8 * j,
        ),
{
    reveal(canonical);
    let a = le_u64(data, header_pos(data) + 16 + 8 * i);
    let b = le_u64(data, header_pos(data) + 16 + 8 * j);
    if i < j {
        assert(a != b);
    } else if j < i {
        assert(b != a);
    }
}

/// The stored sizes of the resources before a resource of a canonical
/// archive end where the resource begins, inside the archive.
proof fn lemma_stored_total(entries: Seq<ResourceInfoView>, i: int, n: int)
    requires
        0 <= i <= n <= entries.len(),
    ensures
        0 <= stored_total(entries, i) <= stored_total(entries, n),
        i < n ==> stored_total(entries, i) + entries[i].stored_size() <= stored_total(entries, n),
    decreases n - i,
{
    lemma_stored_total_nonneg(entries, i);
    if i < n {
        lemma_stored_total(entries, i + 1, n);
    }
}

proof fn lemma_stored_total_nonneg(entries: Seq<ResourceInfoView>, i: int)
    ensures
        0 <= stored_total(entries, i),
    decreases i,
{
    if i > 0 {
        lemma_stored_total_nonneg(entries, i - 1);
    }
}

/// What a package that was read from `data` holds.
proof fn lemma_parsed_fields(data: Seq<u8>, is_patch: bool, package: ResourcePackage)
    requires
        parsed(data, is_patch) == Some(package@),
    ensures
        readable(data, is_patch),
        package.is_patch == is_patch,
        package@.resources == keyed(entries_of(data, is_patch)),
        package.metadata == if has_magic_v2(data) {
            Some(crate::resource::resource_package::metadata_of(data))
        } else {
            None
        },
        package@.unneeded_resources == if unneeded_count(data, is_patch) == 0 {
            None
        } else {
            Some(unneeded_of(data, is_patch))
        },
{
    reveal(parsed);
}

/// What a builder that duplicates `package` holds of its resource at `i`.
proof fn lemma_duplicate_resource(package: ResourcePackage, builder: PackageBuilder, i: int)
    requires
        package.source is Some,
        duplicate_of(builder, package, package.source->0),
        0 <= i < builder.resources@.len(),
    ensures
        builder.resources@.len() == package@.resources.len(),
        takes_over(builder.resources@[i], package@.resources[i], package.source->0),
{
    reveal(duplicate_of);
}

/// What a builder that duplicates `package` holds besides its resources.
proof fn lemma_duplicate_fields(package: ResourcePackage, builder: PackageBuilder)
    requires
        package.source is Some,
        duplicate_of(builder, package, package.source->0),
    ensures
        builder.resources@.len() == package@.resources.len(),
        builder.legacy_references == legacy_layout(package@.resources),
        builder.partition_id.index == match package.metadata {
            Some(m) => m.chunk_id as usize,
            None => 0,
        },
        builder.partition_id.part_type@ == match package.metadata {
            Some(m) => match m.chunk_type {
                crate::resource::resource_package::ChunkType::Standard => PartitionTypeView::Standard,
                crate::resource::resource_package::ChunkType::Addon => PartitionTypeView::Addon,
            },
            None => PartitionTypeView::Standard,
        },
        builder.patch_id == if package.is_patch {
            PatchId::Patch(
                match package.metadata {
                    Some(m) => m.patch_id as usize,
                    None => 0,
                },
            )
        } else {
            PatchId::Base
        },
        builder.unneeded() == deduplicated(
            match package@.unneeded_resources {
                Some(ids) => ids,
                None => Seq::empty(),
            },
        ),
{
    reveal(duplicate_of);
}

/// A resource that takes over an entry whose type is text and whose bytes
/// lie inside `data`, and its stored form, mirror the entry.
proof fn lemma_mirror_core(
    data: Seq<u8>,
    kept: Vec<u8>,
    info: ResourceInfoView,
    r: PackageResourceBuilder,
    stored: StoredBlob,
)
    requires
        kept@ == data,
        takes_over(r, info, ResourcePackageSource::Memory(kept)),
        admissible(r.blob, stored),
        valid_utf8(info.header.resource_type@),
        info.entry.data_offset + info.stored_size() <= data.len(),
    ensures
        mirrors(r, stored, info, data),
{
    reveal(mirrors);
    assert(stored_bytes(data, info) is Some);
    match r.blob {
        PackageResourceBlob::CompressedMemory { data: d, decompressed_size, is_scrambled } => {
            assert(Some(d@) == stored_bytes(data, info));
            assert(d@.len() == info.stored_size());
            assert(stored_as_is(r.blob) is Some);
            assert(stored.bytes@ == d@);
        },
        _ => {
            assert(false);
        },
    }
}

/// The type of a canonical metadata entry is text.
proof fn lemma_header_is_text(data: Seq<u8>, at: int, legacy: bool)
    requires
        0 <= at,
        at + 4 <= data.len(),
        canonical_header(data, at, legacy),
    ensures
        valid_utf8(header_at(data, at).resource_type@),
{
    assert(header_at(data, at).resource_type@ =~= data.subrange(at, at + 4));
}

/// The bytes of an entry of a canonical archive lie inside the archive.
proof fn lemma_entry_inside(data: Seq<u8>, is_patch: bool, i: int)
    requires
        canonical(data, is_patch),
        0 <= i < file_count(data),
    ensures
        entries_of(data, is_patch)[i].entry.data_offset + entries_of(
            data,
            is_patch,
        )[i].stored_size() <= data.len(),
{
    let entries = entries_of(data, is_patch);
    lemma_canonical_basics(data, is_patch);
    lemma_entry_offsets(data, is_patch);
    lemma_stored_total(entries, i, file_count(data));
}

/// The type of an entry of a canonical archive is text, and its bytes lie
/// inside the archive.
proof fn lemma_entry_is_text(data: Seq<u8>, is_patch: bool, i: int)
    requires
        canonical(data, is_patch),
        0 <= i < file_count(data),
    ensures
        valid_utf8(entries_of(data, is_patch)[i].header.resource_type@),
        entries_of(data, is_patch)[i].entry.data_offset + entries_of(
            data,
            is_patch,
        )[i].stored_size() <= data.len(),
{
    lemma_entry_inside(data, is_patch, i);
    lemma_canonical_entry(data, is_patch, i);
    let at = header_pos_of(data, metadata_table_pos(data, is_patch), i as nat)->0;
    lemma_header_span_inside(data, at);
    lemma_header_is_text(data, at, layout_of(data, is_patch));
}

/// A metadata entry that has a span lies inside the data.
proof fn lemma_header_span_inside(data: Seq<u8>, at: int)
    requires
        header_span(data, at) is Some,
    ensures
        at + 24 <= data.len(),
{
}

/// The resources of a package that was read from a canonical archive are
/// the entries of the archive.
proof fn lemma_parsed_entries(data: Seq<u8>, is_patch: bool, package: ResourcePackage)
    requires
        canonical(data, is_patch),
        parsed(data, is_patch) == Some(package@),
    ensures
        package@.resources == entries_of(data, is_patch),
        package@.resources.len() == file_count(data),
{
    lemma_canonical_basics(data, is_patch);
    lemma_keyed_distinct(entries_of(data, is_patch));
    lemma_parsed_fields(data, is_patch, package);
}

/// The resource at `i` of a builder that duplicates a canonical archive,
/// and its stored form, mirror the entry at `i` of the archive.
proof fn lemma_mirror_one(
    data: Seq<u8>,
    is_patch: bool,
    package: ResourcePackage,
    builder: PackageBuilder,
    stored: Seq<StoredBlob>,
    i: int,
)
    requires
        canonical(data, is_patch),
        parsed(data, is_patch) == Some(package@),
        package.source matches Some(ResourcePackageSource::Memory(kept)) && kept@ == data,
        duplicate_of(builder, package, package.source->0),
        stored.len() == builder.resources@.len(),
        0 <= i < stored.len(),
        admissible(builder.resources@[i].blob, stored[i]),
    ensures
        builder.resources@.len() == file_count(data),
        mirrors(builder.resources@[i], stored[i], entries_of(data, is_patch)[i], data),
{
    lemma_parsed_entries(data, is_patch, package);
    lemma_duplicate_resource(package, builder, i);
    lemma_entry_is_text(data, is_patch, i);
    let kept = package.source->0->Memory_0;
    lemma_mirror_core(
        data,
        kept,
        entries_of(data, is_patch)[i],
        builder.resources@[i],
        stored[i],
    );
}

/// What a builder that duplicates a canonical archive holds mirrors the archive.
proof fn lemma_duplicate_mirrors(
    data: Seq<u8>,
    is_patch: bool,
    package: ResourcePackage,
    builder: PackageBuilder,
    stored: Seq<StoredBlob>,
)
    requires
        canonical(data, is_patch),
        parsed(data, is_patch) == Some(package@),
        package.source matches Some(ResourcePackageSource::Memory(kept)) && kept@ == data,
        duplicate_of(builder, package, package.source->0),
        stored.len() == builder.resources@.len(),
        forall|i: int|
            0 <= i < stored.len() ==> admissible(builder.resources@[i].blob, #[trigger] stored[i]),
    ensures
        builder.resources@.len() == file_count(data),
        forall|i: int|
            0 <= i < builder.resources@.len() ==> mirrors(
                #[trigger] builder.resources@[i],
                stored[i],
                entries_of(data, is_patch)[i],
                data,
            ),
{
    lemma_canonical_basics(data, is_patch);
    lemma_keyed_distinct(entries_of(data, is_patch));
    lemma_parsed_fields(data, is_patch, package);
    lemma_duplicate_fields(package, builder);
    assert forall|i: int| 0 <= i < builder.resources@.len() implies mirrors(
        #[trigger] builder.resources@[i],
        stored[i],
        entries_of(data, is_patch)[i],
        data,
    ) by {
        assert(admissible(builder.resources@[i].blob, stored[i]));
        lemma_mirror_one(data, is_patch, package, builder, stored, i);
    }
}

/// The metadata table that is rebuilt from a canonical archive is that of
/// the archive.
proof fn lemma_rebuilt_metadata(
    data: Seq<u8>,
    is_patch: bool,
    resources: Seq<PackageResourceBuilder>,
    stored: Seq<StoredBlob>,
)
    requires
        canonical(data, is_patch),
        resources.len() == file_count(data),
        stored.len() == resources.len(),
        forall|i: int|
            0 <= i < resources.len() ==> mirrors(
                #[trigger] resources[i],
                stored[i],
                entries_of(data, is_patch)[i],
                data,
            ),
    ensures
        metadata_table_bytes(resources, layout_of(data, is_patch)) == data.subrange(
            metadata_table_pos(data, is_patch),
            payload_pos(data, is_patch),
        ),
        metadata_table_len(resources) == payload_pos(data, is_patch) - metadata_table_pos(
            data,
            is_patch,
        ),
        forall|i: int|
            0 <= i < resources.len() ==> reference_chunk_size(
                (#[trigger] resources[i]).references@,
            ) <= u32::MAX,
{
    let mp = metadata_table_pos(data, is_patch);
    let n = file_count(data);
    lemma_canonical_basics(data, is_patch);
    assert forall|i: int| 0 <= i < n implies header_mirrors(
        #[trigger] resources[i],
        data,
        header_pos_of(data, mp, i as nat)->0,
    ) by {
        lemma_header_mirrored(data, is_patch, resources[i], stored[i], i);
    }
    assert forall|i: int| 0 <= i < n implies canonical_header(
        data,
        (#[trigger] header_pos_of(data, mp, i as nat))->0,
        layout_of(data, is_patch),
    ) by {
        lemma_canonical_entry(data, is_patch, i);
    }
    lemma_metadata_table(data, mp, n as nat, resources, layout_of(data, is_patch), n);
    assert(resources.take(n) =~= resources);
    assert forall|i: int| 0 <= i < resources.len() implies reference_chunk_size(
        (#[trigger] resources[i]).references@,
    ) <= u32::MAX by {
        lemma_header_mirrored(data, is_patch, resources[i], stored[i], i);
    }
}

/// A resource that mirrors an entry of a canonical archive mirrors its
/// metadata entry, and its reference chunk can be counted in 32 bits.
proof fn lemma_header_mirrored(
    data: Seq<u8>,
    is_patch: bool,
    r: PackageResourceBuilder,
    stored: StoredBlob,
    i: int,
)
    requires
        canonical(data, is_patch),
        0 <= i < file_count(data),
        mirrors(r, stored, entries_of(data, is_patch)[i], data),
    ensures
        header_mirrors(
            r,
            data,
            header_pos_of(data, metadata_table_pos(data, is_patch), i as nat)->0,
        ),
        reference_chunk_size(r.references@) <= u32::MAX,
{
    let mp = metadata_table_pos(data, is_patch);
    let at = header_pos_of(data, mp, i as nat)->0;
    let info = entries_of(data, is_patch)[i];
    lemma_canonical_entry(data, is_patch, i);
    lemma_mirrors_header(r, stored, info, data);
    lemma_header_at_fields(data, at);
    lemma_header_bytes(data, at, r, layout_of(data, is_patch));
}

/// What `mirrors` says of the metadata of a resource.
proof fn lemma_mirrors_header(
    r: PackageResourceBuilder,
    stored: StoredBlob,
    info: ResourceInfoView,
    data: Seq<u8>,
)
    requires
        mirrors(r, stored, info, data),
    ensures
        r.resource_type@ == info.header.resource_type@,
        r.references@ == info.header.references,
        r.blob.data_size() == info.header.data_size,
        r.system_memory_requirement == info.header.system_memory_requirement,
        r.video_memory_requirement == info.header.video_memory_requirement,
{
    reveal(mirrors);
}

/// The fields of the metadata entry that is read at `at`.
proof fn lemma_header_at_fields(data: Seq<u8>, at: int)
    requires
        0 <= at,
        header_span(data, at) is Some,
    ensures
        header_at(data, at).resource_type@ == data.subrange(at, at + 4),
        header_at(data, at).data_size == le_u32(data, at + 12),
        header_at(data, at).system_memory_requirement == le_u32(data, at + 16),
        header_at(data, at).video_memory_requirement == le_u32(data, at + 20),
{
    lemma_u32_bytes_of_le(data, at + 12);
    lemma_u32_bytes_of_le(data, at + 16);
    lemma_u32_bytes_of_le(data, at + 20);
    assert(header_at(data, at).resource_type@ =~= data.subrange(at, at + 4));
}

/// What `mirrors` says, spelled out.
proof fn lemma_mirrors_facts(r: PackageResourceBuilder, stored: StoredBlob, info: ResourceInfoView, data: Seq<u8>)
    requires
        mirrors(r, stored, info, data),
    ensures
        r.rrid == info.entry.runtime_resource_id,
        info.entry.data_offset + info.stored_size() <= data.len(),
        stored.bytes@ == data.subrange(
            info.entry.data_offset as int,
            info.entry.data_offset + info.stored_size(),
        ),
        stored.flag_bits() == info.entry.flags.bits,
{
    reveal(mirrors);
}

/// The resources of a canonical archive lie one behind the other.
proof fn lemma_entry_offsets(data: Seq<u8>, is_patch: bool)
    requires
        canonical(data, is_patch),
    ensures
        entries_of(data, is_patch).len() == file_count(data),
        forall|i: int|
            0 <= i < file_count(data) ==> entries_of(data, is_patch)[i].entry.data_offset
                == payload_pos(data, is_patch) + #[trigger] stored_total(
                entries_of(data, is_patch),
                i,
            ),
{
    lemma_canonical_basics(data, is_patch);
    assert forall|i: int| 0 <= i < file_count(data) implies entries_of(
        data,
        is_patch,
    )[i].entry.data_offset == payload_pos(data, is_patch) + #[trigger] stored_total(
        entries_of(data, is_patch),
        i,
    ) by {
        lemma_canonical_entry(data, is_patch, i);
    }
}

/// Stored forms that mirror the entries of an archive are its payloads.
proof fn lemma_stored_spans(
    data: Seq<u8>,
    entries: Seq<ResourceInfoView>,
    resources: Seq<PackageResourceBuilder>,
    stored: Seq<StoredBlob>,
)
    requires
        resources.len() == entries.len(),
        stored.len() == entries.len(),
        forall|i: int|
            0 <= i < resources.len() ==> mirrors(
                #[trigger] resources[i],
                stored[i],
                entries[i],
                data,
            ),
    ensures
        forall|i: int|
            0 <= i < entries.len() ==> entries[i].entry.data_offset + entries[i].stored_size()
                <= data.len() && (#[trigger] stored[i]).bytes@ == data.subrange(
                entries[i].entry.data_offset as int,
                entries[i].entry.data_offset + entries[i].stored_size(),
            ),
        forall|i: int|
            0 <= i < entries.len() ==> (#[trigger] resources[i]).rrid
                == entries[i].entry.runtime_resource_id,
        forall|i: int|
            0 <= i < entries.len() ==> (#[trigger] stored[i]).flag_bits()
                == entries[i].entry.flags.bits,
{
    assert forall|i: int| 0 <= i < entries.len() implies entries[i].entry.data_offset
        + entries[i].stored_size() <= data.len() && (#[trigger] stored[i]).bytes@
        == data.subrange(
        entries[i].entry.data_offset as int,
        entries[i].entry.data_offset + entries[i].stored_size(),
    ) && stored[i].flag_bits() == entries[i].entry.flags.bits by {
        assert(mirrors(resources[i], stored[i], entries[i], data));
        lemma_mirrors_facts(resources[i], stored[i], entries[i], data);
    }
    assert forall|i: int| 0 <= i < entries.len() implies (#[trigger] resources[i]).rrid
        == entries[i].entry.runtime_resource_id by {
        assert(mirrors(resources[i], stored[i], entries[i], data));
        lemma_mirrors_facts(resources[i], stored[i], entries[i], data);
    }
}

/// The payloads that are rebuilt from a canonical archive are those of the archive.
proof fn lemma_rebuilt_payloads(
    data: Seq<u8>,
    is_patch: bool,
    resources: Seq<PackageResourceBuilder>,
    stored: Seq<StoredBlob>,
    k: int,
)
    requires
        canonical(data, is_patch),
        resources.len() == file_count(data),
        stored.len() == resources.len(),
        0 <= k <= resources.len(),
        forall|i: int|
            0 <= i < resources.len() ==> mirrors(
                #[trigger] resources[i],
                stored[i],
                entries_of(data, is_patch)[i],
                data,
            ),
    ensures
        payload_len(stored.take(k)) == stored_total(entries_of(data, is_patch), k),
        payload_bytes(stored.take(k)) == data.subrange(
            payload_pos(data, is_patch),
            payload_pos(data, is_patch) + stored_total(entries_of(data, is_patch), k),
        ),
{
    let entries = entries_of(data, is_patch);
    let pp = payload_pos(data, is_patch);
    lemma_canonical_basics(data, is_patch);
    lemma_entry_offsets(data, is_patch);
    lemma_stored_spans(data, entries, resources, stored);
    lemma_payloads(data, pp, entries, stored, k);
}

/// The offset table that is rebuilt from a canonical archive is that of
/// the archive.
proof fn lemma_rebuilt_offsets(
    data: Seq<u8>,
    is_patch: bool,
    resources: Seq<PackageResourceBuilder>,
    stored: Seq<StoredBlob>,
)
    requires
        canonical(data, is_patch),
        resources.len() == file_count(data),
        stored.len() == resources.len(),
        forall|i: int|
            0 <= i < resources.len() ==> mirrors(
                #[trigger] resources[i],
                stored[i],
                entries_of(data, is_patch)[i],
                data,
            ),
    ensures
        offset_table_bytes(resources, stored, payload_pos(data, is_patch), resources.len())
            == data.subrange(offset_table_pos(data, is_patch), metadata_table_pos(data, is_patch)),
{
    let entries = entries_of(data, is_patch);
    let tp = offset_table_pos(data, is_patch);
    let pp = payload_pos(data, is_patch);
    let n = file_count(data);
    lemma_canonical_basics(data, is_patch);
    assert forall|i: int| 0 <= i < entries.len() implies (#[trigger] entries[i]).entry.data_offset
        == pp + payload_len(stored.take(i)) by {
        lemma_rebuilt_payloads(data, is_patch, resources, stored, i);
        lemma_canonical_entry(data, is_patch, i);
    }
    assert forall|i: int| 0 <= i < entries.len() implies (#[trigger] resources[i]).rrid
        == entries[i].entry.runtime_resource_id by {
        assert(mirrors(resources[i], stored[i], entries[i], data));
        lemma_mirrors_facts(resources[i], stored[i], entries[i], data);
    }
    assert forall|i: int| 0 <= i < entries.len() implies (#[trigger] stored[i]).flag_bits()
        == entries[i].entry.flags.bits by {
        assert(mirrors(resources[i], stored[i], entries[i], data));
        lemma_mirrors_facts(resources[i], stored[i], entries[i], data);
    }
    assert forall|i: int| 0 <= i < entries.len() implies (#[trigger] entries[i]).entry
        == offset_entry_at(data, tp + 20 * i) by {
        lemma_canonical_entry(data, is_patch, i);
    }
    lemma_offset_table(data, tp, pp, entries, resources, stored, n);
}

/// Four neighbouring spans that make up `data` are `data`.
proof fn lemma_assembled(
    data: Seq<u8>,
    builder: PackageBuilder,
    version: PackageVersion,
    stored: Seq<StoredBlob>,
    tp: int,
    mp: int,
    pp: int,
)
    requires
        0 <= tp <= mp <= pp <= data.len(),
        builder.head_bytes(version) == data.subrange(0, tp),
        tp + 20 * builder.resources@.len() + metadata_table_len(builder.resources@) == pp,
        offset_table_bytes(builder.resources@, stored, pp, builder.resources@.len())
            == data.subrange(tp, mp),
        metadata_table_bytes(builder.resources@, builder.legacy_references) == data.subrange(
            mp,
            pp,
        ),
        payload_bytes(stored) == data.subrange(pp, data.len() as int),
    ensures
        builder.archive_bytes(version, stored) == data,
{
    let head = builder.head_bytes(version);
    assert(head.len() == tp);
    lemma_subrange_join(data, 0, tp, mp);
    lemma_subrange_join(data, 0, mp, pp);
    lemma_subrange_join(data, 0, pp, data.len() as int);
    assert(data.subrange(0, data.len() as int) =~= data);
}

/// The deleted resources of a builder that duplicates a canonical archive
/// are those of the archive.
proof fn lemma_rebuilt_unneeded(data: Seq<u8>, is_patch: bool, package: ResourcePackage, builder: PackageBuilder)
    requires
        canonical(data, is_patch),
        parsed(data, is_patch) == Some(package@),
        package.source is Some,
        duplicate_of(builder, package, package.source->0),
    ensures
        builder.unneeded().len() == unneeded_count(data, is_patch),
        is_patch ==> unneeded_bytes(builder.unneeded()) == data.subrange(
            header_pos(data) + 16,
            offset_table_pos(data, is_patch),
        ),
{
    let hp = header_pos(data);
    lemma_canonical_basics(data, is_patch);
    lemma_parsed_fields(data, is_patch, package);
    lemma_duplicate_fields(package, builder);
    let ids = match package@.unneeded_resources {
        Some(ids) => ids,
        None => Seq::empty(),
    };
    let count = unneeded_count(data, is_patch);
    assert(ids.len() == count);
    assert forall|i: int, j: int| 0 <= i < j < ids.len() implies ids[i].id != ids[j].id by {
        lemma_canonical_unneeded(data, is_patch, i, j);
        assert(ids[i].id == collapsed(le_u64(data, hp + 16 + 8 * i) as u64));
        assert(ids[j].id == collapsed(le_u64(data, hp + 16 + 8 * j) as u64));
    }
    lemma_deduplicated_distinct(ids);
    let unneeded = builder.unneeded();
    assert(unneeded.len() == count);
    if is_patch {
        assert forall|i: int| 0 <= i < unneeded.len() implies #[trigger] unneeded[i] == le_u64(
            data,
            hp + 16 + 8 * i,
        ) by {
            lemma_canonical_unneeded(data, is_patch, i, i);
            assert(ids[i].id == collapsed(le_u64(data, hp + 16 + 8 * i) as u64));
        }
        lemma_unneeded_bytes(data, hp + 16, unneeded, count);
        assert(unneeded.take(count) =~= unneeded);
    }
}

/// A metadata block whose fields are those of `data` is written as it stood.
proof fn lemma_metadata_block(data: Seq<u8>, block: Seq<u8>, a: u8, b: u8, c: u8)
    requires
        data.len() >= 13,
        le_u32(data, 4) == 1,
        block == u32_bytes(1) + seq![a, b, c, 0x78u8, 0x78u8],
        data[8] == a,
        data[9] == b,
        data[10] == c,
        data[11] == 0x78,
        data[12] == 0x78,
    ensures
        block == data.subrange(4, 13),
{
    lemma_u32_bytes_of_le(data, 4);
    let tail = seq![a, b, c, 0x78u8, 0x78u8];
    assert(tail =~= data.subrange(8, 13));
    lemma_subrange_join(data, 4, 8, 13);
}

/// The fields of the metadata block of a builder that duplicates a
/// version 2 archive are those of the archive.
proof fn lemma_rebuilt_block_fields(data: Seq<u8>, is_patch: bool, package: ResourcePackage, builder: PackageBuilder)
    requires
        has_magic_v2(data),
        data.len() >= 13,
        data[9] <= 1,
        parsed(data, is_patch) == Some(package@),
        package.source is Some,
        duplicate_of(builder, package, package.source->0),
    ensures
        builder.partition_id.index == data[8],
        (builder.partition_id.part_type@ == PartitionTypeView::Addon) == (data[9] == 1),
        builder.patch_id == if is_patch {
            PatchId::Patch(data[10] as usize)
        } else {
            PatchId::Base
        },
{
    lemma_parsed_fields(data, is_patch, package);
    lemma_duplicate_fields(package, builder);
}

/// A builder that duplicates a version 1 archive builds a patch exactly
/// where the archive was read as one.
proof fn lemma_rebuilt_v1_fields(data: Seq<u8>, is_patch: bool, package: ResourcePackage, builder: PackageBuilder)
    requires
        has_magic_v1(data),
        parsed(data, is_patch) == Some(package@),
        package.source is Some,
        duplicate_of(builder, package, package.source->0),
    ensures
        (builder.patch_id != PatchId::Base) == is_patch,
{
    lemma_parsed_fields(data, is_patch, package);
    lemma_duplicate_fields(package, builder);
}

/// The metadata block of a builder that duplicates a canonical archive of
/// version 2 is that of the archive.
proof fn lemma_rebuilt_block(data: Seq<u8>, is_patch: bool, package: ResourcePackage, builder: PackageBuilder)
    requires
        has_magic_v2(data),
        data.len() >= 13,
        data[9] <= 1,
        le_u32(data, 4) == 1,
        data[11] == 0x78,
        data[12] == 0x78,
        !is_patch ==> data[10] == 0,
        parsed(data, is_patch) == Some(package@),
        package.source is Some,
        duplicate_of(builder, package, package.source->0),
    ensures
        builder.metadata_bytes() == data.subrange(4, 13),
        (builder.patch_id != PatchId::Base) == is_patch,
{
    lemma_rebuilt_block_fields(data, is_patch, package, builder);
    let a = (builder.partition_id.index % 256) as u8;
    let b = if builder.partition_id.part_type@ == PartitionTypeView::Addon {
        1u8
    } else {
        0u8
    };
    let c = match builder.patch_id {
        PatchId::Base => 0u8,
        PatchId::Patch(n) => (n % 256) as u8,
    };
    assert(c == data[10]);
    assert(a == data[8]);
    assert(b == data[9]);
    assert(builder.metadata_bytes() =~= u32_bytes(1) + seq![a, b, c, 0x78u8, 0x78u8]);
    lemma_metadata_block(data, builder.metadata_bytes(), a, b, c);
}

/// The magic and the metadata block of a builder that duplicates a
/// canonical archive are those of the archive.
proof fn lemma_rebuilt_lead(data: Seq<u8>, is_patch: bool, package: ResourcePackage, builder: PackageBuilder)
    requires
        canonical(data, is_patch),
        parsed(data, is_patch) == Some(package@),
        package.source is Some,
        duplicate_of(builder, package, package.source->0),
    ensures
        crate::resource::package_builder::magic_bytes(version_of(data)) + (if version_of(data)
            == PackageVersion::RPKGv2 {
            builder.metadata_bytes()
        } else {
            Seq::empty()
        }) == data.subrange(0, header_pos(data)),
        (builder.patch_id != PatchId::Base) == is_patch,
{
    let version = version_of(data);
    lemma_canonical_basics(data, is_patch);
    let magic = crate::resource::package_builder::magic_bytes(version);
    assert(magic =~= data.subrange(0, 4));
    if has_magic_v2(data) {
        lemma_rebuilt_block(data, is_patch, package, builder);
        lemma_subrange_join(data, 0, 4, 13);
    } else {
        lemma_rebuilt_v1_fields(data, is_patch, package, builder);
        assert(magic + Seq::<u8>::empty() =~= magic);
    }
}

/// What a builder that duplicates a canonical archive writes before the
/// tables is what stands there in the archive.
proof fn lemma_rebuilt_head(data: Seq<u8>, is_patch: bool, package: ResourcePackage, builder: PackageBuilder)
    requires
        canonical(data, is_patch),
        parsed(data, is_patch) == Some(package@),
        package.source is Some,
        duplicate_of(builder, package, package.source->0),
        builder.resources@.len() == file_count(data),
        metadata_table_len(builder.resources@) == payload_pos(data, is_patch)
            - metadata_table_pos(data, is_patch),
    ensures
        builder.head_bytes(version_of(data)) == data.subrange(0, offset_table_pos(data, is_patch)),
        builder.unneeded().len() == unneeded_count(data, is_patch),
        (builder.patch_id != PatchId::Base) == is_patch,
{
    let version = version_of(data);
    let hp = header_pos(data);
    let tp = offset_table_pos(data, is_patch);
    lemma_canonical_basics(data, is_patch);
    lemma_rebuilt_lead(data, is_patch, package, builder);
    lemma_rebuilt_unneeded(data, is_patch, package, builder);
    lemma_u32_bytes_of_le(data, hp);
    lemma_u32_bytes_of_le(data, hp + 4);
    lemma_u32_bytes_of_le(data, hp + 8);
    let lead = data.subrange(0, hp);
    let a = u32_bytes(builder.resources@.len() as u32);
    let b = u32_bytes((20 * builder.resources@.len()) as u32);
    let c = u32_bytes(metadata_table_len(builder.resources@) as u32);
    assert(a == data.subrange(hp, hp + 4));
    assert(b == data.subrange(hp + 4, hp + 8));
    assert(c == data.subrange(hp + 8, hp + 12));
    lemma_subrange_join(data, 0, hp, hp + 4);
    lemma_subrange_join(data, 0, hp + 4, hp + 8);
    lemma_subrange_join(data, 0, hp + 8, hp + 12);
    assert(lead + a + b + c == data.subrange(0, hp + 12));
    reveal(PackageBuilder::head_bytes);
    if is_patch {
        lemma_u32_bytes_of_le(data, hp + 12);
        lemma_subrange_join(data, hp + 12, hp + 16, tp);
        lemma_subrange_join(data, 0, hp + 12, tp);
    } else {
        assert(data.subrange(0, hp + 12) + Seq::<u8>::empty() =~= data.subrange(0, hp + 12));
    }
}

/// Rebuilding an archive gives the archive back: for an archive in the
/// layout of a builder that is read from memory, duplicated by
/// `PackageBuilder::from_resource_package` and built again for its
/// version without any change, the tables fit and the bytes that are built
/// are the bytes that were read.
pub proof fn law_rebuild_is_identity(
    data: Seq<u8>,
    is_patch: bool,
    package: ResourcePackage,
    builder: PackageBuilder,
    stored: Seq<StoredBlob>,
)
    requires
        canonical(data, is_patch),
        parsed(data, is_patch) == Some(package@),
        package.source matches Some(ResourcePackageSource::Memory(kept)) && kept@ == data,
        duplicate_of(builder, package, package.source->0),
        stored.len() == builder.resources@.len(),
        forall|i: int|
            0 <= i < stored.len() ==> admissible(builder.resources@[i].blob, #[trigger] stored[i]),
    ensures
        builder.table_error() is None,
        has_magic_v1(package.magic@) == has_magic_v1(data),
        builder.archive_bytes(version_of(data), stored) == data,
{
    let tp = offset_table_pos(data, is_patch);
    let mp = metadata_table_pos(data, is_patch);
    let pp = payload_pos(data, is_patch);
    let n = file_count(data);
    lemma_canonical_basics(data, is_patch);
    lemma_duplicate_mirrors(data, is_patch, package, builder, stored);
    lemma_rebuilt_metadata(data, is_patch, builder.resources@, stored);
    lemma_rebuilt_payloads(data, is_patch, builder.resources@, stored, n);
    assert(stored.take(n) =~= stored);
    lemma_rebuilt_offsets(data, is_patch, builder.resources@, stored);
    lemma_rebuilt_head(data, is_patch, package, builder);
    lemma_duplicate_fields(package, builder);
    lemma_parsed_entries(data, is_patch, package);
    assert(builder.legacy_references == layout_of(data, is_patch));
    lemma_table_error_none(data, is_patch, builder);
    lemma_assembled(data, builder, version_of(data), stored, tp, mp, pp);
    lemma_parsed_magic(data, is_patch, package);
}

/// The magic of a package that was read from `data` is that of `data`.
proof fn lemma_parsed_magic(data: Seq<u8>, is_patch: bool, package: ResourcePackage)
    requires
        parsed(data, is_patch) == Some(package@),
    ensures
        has_magic_v1(package.magic@) == has_magic_v1(data),
{
    reveal(parsed);
}

/// The tables of a builder whose sizes are those of a canonical archive fit.
proof fn lemma_table_error_none(data: Seq<u8>, is_patch: bool, builder: PackageBuilder)
    requires
        canonical(data, is_patch),
        builder.resources@.len() == file_count(data),
        builder.unneeded().len() == unneeded_count(data, is_patch),
        (builder.patch_id != PatchId::Base) == is_patch,
        metadata_table_len(builder.resources@) == payload_pos(data, is_patch)
            - metadata_table_pos(data, is_patch),
        forall|i: int|
            0 <= i < builder.resources@.len() ==> reference_chunk_size(
                (#[trigger] builder.resources@[i]).references@,
            ) <= u32::MAX,
    ensures
        builder.table_error() is None,
{
    lemma_canonical_basics(data, is_patch);
    lemma_u32_bytes_of_le(data, header_pos(data) + 4);
    lemma_u32_bytes_of_le(data, header_pos(data) + 8);
    reveal(PackageBuilder::table_error);
}

/// The stored form of bytes that are already in stored form.
pub open spec fn kept_form(blob: PackageResourceBlob) -> Option<StoredBlob> {
    match blob {
        PackageResourceBlob::CompressedMemory { data, decompressed_size, is_scrambled } => Some(
            StoredBlob {
                bytes: data,
                compressed_size: if decompressed_size is Some {
                    Some(data@.len() as u32)
                } else {
                    None
                },
                is_scrambled,
            },
        ),
        _ => None,
    }
}

/// The type of an entry whose four bytes are text can be written back.
proof fn lemma_text_type_copies(info: ResourceInfoView)
    requires
        valid_utf8(info.header.resource_type@),
    ensures
        copied_type(info) == Some(info.header.resource_type@),
{
    let bytes = info.header.resource_type@;
    let text = vstd::utf8::decode_utf8(bytes);
    vstd::utf8::decode_utf8_encode_utf8(bytes);
    assert(text.reverse().reverse() =~= text);
    assert(bytes.len() == 4);
}

/// A resource that was taken over from an entry of a canonical archive in
/// memory is written as it is, and `kept_form` is its stored form.
proof fn lemma_taken_over_is_kept(
    data: Seq<u8>,
    kept: Vec<u8>,
    info: ResourceInfoView,
    r: PackageResourceBuilder,
)
    requires
        kept@ == data,
        takes_over(r, info, ResourcePackageSource::Memory(kept)),
        info.entry.data_offset + info.stored_size() <= data.len(),
    ensures
        stored_as_is(r.blob) is Some,
        kept_form(r.blob) is Some,
        admissible(r.blob, kept_form(r.blob)->0),
        kept_form(r.blob)->0.bytes@.len() == stored_most(r.blob),
{
    assert(stored_bytes(data, info) is Some);
}

/// The payloads of stored forms that are as long as `stored_most` says take
/// `payload_bound` bytes.
proof fn lemma_payload_is_bound(
    resources: Seq<PackageResourceBuilder>,
    stored: Seq<StoredBlob>,
    k: int,
)
    requires
        stored.len() == resources.len(),
        0 <= k <= stored.len(),
        forall|i: int|
            0 <= i < stored.len() ==> (#[trigger] stored[i]).bytes@.len() == stored_most(
                resources[i].blob,
            ),
    ensures
        payload_len(stored.take(k)) == payload_bound(resources.take(k)),
    decreases k,
{
    if k > 0 {
        lemma_payload_is_bound(resources, stored, k - 1);
        assert(stored.take(k).drop_last() =~= stored.take(k - 1));
        assert(resources.take(k).drop_last() =~= resources.take(k - 1));
        assert(stored.take(k).last() == stored[k - 1]);
        assert(resources.take(k).last() == resources[k - 1]);
    }
}

/// Duplicating an archive succeeds: for an archive in the layout of a
/// builder that is read from memory, every resource can be taken over, so
/// `PackageBuilder::from_resource_package` gives a builder.
pub proof fn law_duplicate_succeeds(
    data: Seq<u8>,
    is_patch: bool,
    package: ResourcePackage,
    file_len: u64,
)
    requires
        canonical(data, is_patch),
        parsed(data, is_patch) == Some(package@),
        package.source matches Some(ResourcePackageSource::Memory(kept)) && kept@ == data,
    ensures
        forall|i: int|
            0 <= i < package@.resources.len() ==> copyable(
                #[trigger] package@.resources[i],
                package.source->0,
                file_len,
            ),
{
    let entries = entries_of(data, is_patch);
    lemma_parsed_entries(data, is_patch, package);
    assert forall|i: int| 0 <= i < package@.resources.len() implies copyable(
        #[trigger] package@.resources[i],
        package.source->0,
        file_len,
    ) by {
        lemma_entry_is_text(data, is_patch, i);
        lemma_text_type_copies(entries[i]);
    }
}

/// Rebuilding an archive succeeds: of the builder that duplicates an
/// archive in the layout of a builder, read from memory, the tables fit,
/// no resource needs a compressor, and what is built is as long as the
/// archive, so `build_in_memory` for the version of the archive gives the
/// bytes that `law_rebuild_is_identity` names.
pub proof fn law_rebuild_succeeds(
    data: Seq<u8>,
    is_patch: bool,
    package: ResourcePackage,
    builder: PackageBuilder,
)
    requires
        canonical(data, is_patch),
        parsed(data, is_patch) == Some(package@),
        package.source matches Some(ResourcePackageSource::Memory(kept)) && kept@ == data,
        duplicate_of(builder, package, package.source->0),
    ensures
        builder.table_error() is None,
        has_magic_v1(package.magic@) == has_magic_v1(data),
        forall|i: int|
            0 <= i < builder.resources@.len() ==> stored_as_is(
                (#[trigger] builder.resources@[i]).blob,
            ) is Some,
        builder.head_bytes(version_of(data)).len() + 20 * builder.resources@.len()
            + metadata_table_len(builder.resources@) + payload_bound(builder.resources@)
            == data.len(),
{
    let kept = package.source->0->Memory_0;
    let entries = entries_of(data, is_patch);
    lemma_parsed_entries(data, is_patch, package);
    let resources = builder.resources@;
    let n = resources.len() as int;
    assert forall|i: int| 0 <= i < n implies stored_as_is((#[trigger] resources[i]).blob)
        is Some && kept_form(resources[i].blob) is Some && admissible(
        resources[i].blob,
        kept_form(resources[i].blob)->0,
    ) && kept_form(resources[i].blob)->0.bytes@.len() == stored_most(resources[i].blob) by {
        lemma_duplicate_resource(package, builder, i);
        lemma_entry_is_text(data, is_patch, i);
        lemma_taken_over_is_kept(data, kept, entries[i], resources[i]);
    }
    let stored = Seq::new(n as nat, |i: int| kept_form(resources[i].blob)->0);
    law_rebuild_is_identity(data, is_patch, package, builder, stored);
    crate::resource::read_back::lemma_built_positions(builder, version_of(data), stored);
    lemma_payload_is_bound(resources, stored, n);
    assert(stored.take(n) =~= stored);
    assert(resources.take(n) =~= resources);
}

/// An archive in the layout of a builder is readable.
pub proof fn law_canonical_is_read(data: Seq<u8>, is_patch: bool)
    requires
        canonical(data, is_patch),
    ensures
        parsed(data, is_patch) is Some,
{
    reveal(canonical);
    reveal(parsed);
}

} // verus!
