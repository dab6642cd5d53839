//! Building an archive: from scratch, from resources in memory, or as a copy
//! of a parsed one.

use crate::lz4_block::{
    LZ4_MAX_INPUT,
    lz4_bound,
    lz4_compress,
    lz4_decoded,
    lz4_hc_compress,
    lz4_max_compressed_size,
};
use crate::ordered::{ordered_get, ordered_insert, ordered_len, ordered_new, set_items};
use crate::resource::pdefs::{PartitionId, PartitionType, PartitionTypeView};
use crate::resource::reference_flags::{
    PackageOffsetFlags,
    ResourceReferenceCountAndFlags,
    ResourceReferenceFlags,
};
use crate::resource::resource_info::{reversed, shown_text, ResourceInfo, ResourceInfoView};
use crate::resource::resource_package::{
    copy_span,
    ids_of,
    legacy_layout,
    stored_bytes,
    ChunkType,
    PackageVersion,
    ResourcePackage,
    ResourcePackageSource,
};
use crate::resource::resource_partition::PatchId;
use crate::resource::runtime_resource_id::RuntimeResourceID;
use crate::text::{chars_of, string_of};
use crate::wire::{
    law_scramble_involutive,
    lemma_append_assoc,
    lemma_u32_roundtrip,
    lemma_u64_roundtrip,
    push_u32,
    push_u64,
    scramble,
    scrambled,
    u32_bytes,
    u64_bytes,
};
use crate::{GlacierResource, GlacierResourceError, WoaVersion};
use indexmap::IndexSet;
use vstd::prelude::*;
use vstd::utf8::encode_utf8;

verus! {

/// Where the bytes of a resource come from when the archive is built.
#[derive(Debug)]
pub enum PackageResourceBlob {
    /// A whole file, compressed and scrambled at build time as asked.
    File { path: String, size: u32, compression_level: Option<i32>, should_scramble: bool },
    /// A span of a file that is written as it is.
    FileAtOffset {
        path: String,
        offset: u64,
        size: u32,
        compressed_size: Option<u32>,
        is_scrambled: bool,
    },
    /// Bytes in memory, compressed and scrambled at build time as asked.
    Memory { data: Vec<u8>, compression_level: Option<i32>, should_scramble: bool },
    /// Bytes in memory that are written as they are. `decompressed_size` is
    /// there exactly where they are compressed.
    CompressedMemory { data: Vec<u8>, decompressed_size: Option<u32>, is_scrambled: bool },
}

impl PackageResourceBlob {
    /// Whether the bytes held in memory can be counted in 32 bits.
    pub open spec fn wf(&self) -> bool {
        match self {
            PackageResourceBlob::Memory { data, .. } => data@.len() <= u32::MAX,
            PackageResourceBlob::CompressedMemory { data, .. } => data@.len() <= u32::MAX,
            _ => true,
        }
    }

    /// The size of the resource once extracted.
    pub open spec fn data_size(&self) -> u32 {
        match self {
            PackageResourceBlob::File { size, .. } => *size,
            PackageResourceBlob::FileAtOffset { size, .. } => *size,
            PackageResourceBlob::Memory { data, .. } => data@.len() as u32,
            PackageResourceBlob::CompressedMemory { data, decompressed_size, .. } => match decompressed_size {
                Some(size) => *size,
                None => data@.len() as u32,
            },
        }
    }

    /// The (uncompressed) size of the resource blob in bytes.
    #[verifier::when_used_as_spec(data_size)]
    pub fn size(&self) -> (r: u32)
        requires
            self.wf(),
        ensures
            r == self.data_size(),
    {
        match self {
            PackageResourceBlob::File { size, .. } => *size,
            PackageResourceBlob::FileAtOffset { size, .. } => *size,
            PackageResourceBlob::Memory { data, .. } => data.len() as u32,
            PackageResourceBlob::CompressedMemory { data, decompressed_size, .. } => match decompressed_size {
                Some(size) => *size,
                None => data.len() as u32,
            },
        }
    }
}

/// A builder for creating a resource within a ResourcePackage
#[derive(Debug)]
pub struct PackageResourceBuilder {
    pub rrid: RuntimeResourceID,
    pub blob: PackageResourceBlob,
    pub resource_type: [u8; 4],
    pub system_memory_requirement: u32,
    pub video_memory_requirement: u32,
    /// In a vector because their order matters and one may occur twice.
    pub references: Vec<(RuntimeResourceID, ResourceReferenceFlags)>,
}

#[derive(Debug)]
pub enum PackageResourceBuilderError {
    /// The file could not be read.
    IoError(String),
    /// The data has more bytes than 32 bits can count.
    FileTooLarge,
    /// The offset lies at or behind the end of the file.
    InvalidFileOffset,
    /// The span reaches past the end of the file.
    InvalidFileBlobSize,
    /// The type is not exactly four bytes long.
    InvalidResourceType,
    /// The resource could not be written to bytes.
    GlacierResourceError(GlacierResourceError),
}

/// The four bytes that store the type `resource_type`: its UTF-8 bytes after
/// its characters were put last first, where these are four.
pub open spec fn type_bytes(resource_type: Seq<char>) -> Option<Seq<u8>> {
    let bytes = encode_utf8(resource_type.reverse());
    if bytes.len() == 4 {
        Some(bytes)
    } else {
        None
    }
}

/// A memory requirement as 32 bits hold it: what is more becomes `u32::MAX`.
pub open spec fn capped(requirement: u64) -> u32 {
    if requirement > u32::MAX {
        u32::MAX
    } else {
        requirement as u32
    }
}

impl PackageResourceBuilder {
    /// Whether the blob is well formed.
    pub open spec fn wf(&self) -> bool {
        self.blob.wf()
    }

    /// Converts a resource type string to a byte array.
    /// Characters are reversed since everything is little endian.
    pub fn resource_type_to_bytes(resource_type: &str) -> (r: Result<
        [u8; 4],
        PackageResourceBuilderError,
    >)
        ensures
            match type_bytes(resource_type@) {
                Some(bytes) => r matches Ok(tag) && tag@ == bytes,
                None => r matches Err(PackageResourceBuilderError::InvalidResourceType),
            },
    {
        let turned = string_of(&reversed(&chars_of(resource_type)));
        let bytes = turned.as_str().as_bytes();
        if bytes.len() != 4 {
            return Err(PackageResourceBuilderError::InvalidResourceType);
        }
        let tag = [bytes[0], bytes[1], bytes[2], bytes[3]];
        assert(tag@ =~= bytes@);
        Ok(tag)
    }

    /// Create a new resource builder from a file on disk, of which the
    /// caller gives the size. The whole file is the resource; it must have
    /// fewer bytes than `u32::MAX`.
    ///
    /// # Arguments
    /// * `rrid` - The resource ID of the resource.
    /// * `resource_type` - The type of the resource.
    /// * `path` - The path to the file.
    /// * `file_size` - The size of the file.
    /// * `compression_level` - The compression level to use for the file, or None for no compression.
    /// * `should_scramble` - Whether the file data should be scrambled.
    pub fn from_file(
        rrid: RuntimeResourceID,
        resource_type: &str,
        path: &str,
        file_size: u64,
        compression_level: Option<i32>,
        should_scramble: bool,
    ) -> (r: Result<Self, PackageResourceBuilderError>)
        ensures
            file_size >= u32::MAX ==> r matches Err(PackageResourceBuilderError::FileTooLarge),
            file_size < u32::MAX && type_bytes(resource_type@) is None ==> r matches Err(
                PackageResourceBuilderError::InvalidResourceType,
            ),
            file_size < u32::MAX && type_bytes(resource_type@) is Some ==> (r matches Ok(b) && b.wf()
                && b.rrid == rrid && b.resource_type@ == type_bytes(resource_type@)->0
                && b.system_memory_requirement == file_size && b.video_memory_requirement
                == u32::MAX && b.references@.len() == 0 && (b.blob matches PackageResourceBlob::File {
                path: p,
                size,
                compression_level: level,
                should_scramble: scr,
            } && p@ == path@ && size == file_size && level == compression_level && scr
                == should_scramble)),
    {
        if file_size >= u32::MAX as u64 {
            return Err(PackageResourceBuilderError::FileTooLarge);
        }
        let tag = match Self::resource_type_to_bytes(resource_type) {
            Ok(tag) => tag,
            Err(e) => {
                return Err(e);
            },
        };
        Ok(
            Self {
                rrid,
                resource_type: tag,
                system_memory_requirement: file_size as u32,
                video_memory_requirement: u32::MAX,
                references: Vec::new(),
                blob: PackageResourceBlob::File {
                    path: path.to_string(),
                    size: file_size as u32,
                    compression_level,
                    should_scramble,
                },
            },
        )
    }

    /// Create a new resource builder from a file on disk, of which the
    /// caller gives the size, but only reading a part of it. The part must
    /// start inside the file (`InvalidFileOffset`) and end inside it
    /// (`InvalidFileBlobSize`).
    ///
    /// # Arguments
    /// * `rrid` - The resource ID of the resource.
    /// * `resource_type` - The type of the resource.
    /// * `path` - The path to the file.
    /// * `file_size` - The size of the file.
    /// * `offset` - The offset of the file to start reading from.
    /// * `size` - The size of the data.
    /// * `compressed_size` - The compressed size of the data, if the resource is compressed.
    /// * `is_scrambled` - Whether the data is scrambled.
    pub fn from_file_at_offset(
        rrid: RuntimeResourceID,
        resource_type: &str,
        path: &str,
        file_size: u64,
        offset: u64,
        size: u32,
        compressed_size: Option<u32>,
        is_scrambled: bool,
    ) -> (r: Result<Self, PackageResourceBuilderError>)
        ensures
            offset >= file_size ==> r matches Err(PackageResourceBuilderError::InvalidFileOffset),
            offset < file_size && offset + compressed_size.unwrap_or(size) > file_size ==> r matches Err(
                PackageResourceBuilderError::InvalidFileBlobSize,
            ),
            offset + compressed_size.unwrap_or(size) <= file_size && offset < file_size
                && type_bytes(resource_type@) is None ==> r matches Err(
                PackageResourceBuilderError::InvalidResourceType,
            ),
            offset + compressed_size.unwrap_or(size) <= file_size && offset < file_size
                && type_bytes(resource_type@) is Some ==> (r matches Ok(b) && b.wf() && b.rrid
                == rrid && b.resource_type@ == type_bytes(resource_type@)->0
                && b.system_memory_requirement == size && b.video_memory_requirement == u32::MAX
                && b.references@.len() == 0 && (b.blob matches PackageResourceBlob::FileAtOffset {
                path: p,
                offset: o,
                size: s,
                compressed_size: c,
                is_scrambled: scr,
            } && p@ == path@ && o == offset && s == size && c == compressed_size && scr
                == is_scrambled)),
    {
        if offset >= file_size {
            return Err(PackageResourceBuilderError::InvalidFileOffset);
        }
        let read_size = match compressed_size {
            Some(n) => n,
            None => size,
        };
        if read_size as u64 > file_size - offset {
            return Err(PackageResourceBuilderError::InvalidFileBlobSize);
        }
        let tag = match Self::resource_type_to_bytes(resource_type) {
            Ok(tag) => tag,
            Err(e) => {
                return Err(e);
            },
        };
        Ok(
            Self {
                rrid,
                resource_type: tag,
                system_memory_requirement: size,
                video_memory_requirement: u32::MAX,
                references: Vec::new(),
                blob: PackageResourceBlob::FileAtOffset {
                    path: path.to_string(),
                    offset,
                    size,
                    compressed_size,
                    is_scrambled,
                },
            },
        )
    }

    /// Create a new resource builder from a (possibly compressed) in-memory blob.
    ///
    /// # Arguments
    /// * `rrid` - The resource ID of the resource.
    /// * `resource_type` - The type of the resource.
    /// * `data` - The data of the resource.
    /// * `decompressed_size` - The decompressed size of the data, if the resource is compressed.
    /// * `is_scrambled` - Whether the data is scrambled.
    pub fn from_compressed_memory(
        rrid: RuntimeResourceID,
        resource_type: &str,
        data: Vec<u8>,
        decompressed_size: Option<u32>,
        is_scrambled: bool,
    ) -> (r: Result<Self, PackageResourceBuilderError>)
        ensures
            data@.len() > u32::MAX ==> r matches Err(PackageResourceBuilderError::FileTooLarge),
            data@.len() <= u32::MAX && type_bytes(resource_type@) is None ==> r matches Err(
                PackageResourceBuilderError::InvalidResourceType,
            ),
            data@.len() <= u32::MAX && type_bytes(resource_type@) is Some ==> (r matches Ok(b)
                && b.wf() && b.rrid == rrid && b.resource_type@ == type_bytes(resource_type@)->0
                && b.system_memory_requirement == decompressed_size.unwrap_or(data@.len() as u32)
                && b.video_memory_requirement == u32::MAX && b.references@.len() == 0 && (
            b.blob matches PackageResourceBlob::CompressedMemory {
                data: d,
                decompressed_size: s,
                is_scrambled: scr,
            } && d@ == data@ && s == decompressed_size && scr == is_scrambled)),
    {
        if data.len() > u32::MAX as usize {
            return Err(PackageResourceBuilderError::FileTooLarge);
        }
        let real_size = match decompressed_size {
            Some(n) => n,
            None => data.len() as u32,
        };
        let tag = match Self::resource_type_to_bytes(resource_type) {
            Ok(tag) => tag,
            Err(e) => {
                return Err(e);
            },
        };
        Ok(
            Self {
                rrid,
                resource_type: tag,
                system_memory_requirement: real_size,
                video_memory_requirement: u32::MAX,
                references: Vec::new(),
                blob: PackageResourceBlob::CompressedMemory { data, decompressed_size, is_scrambled },
            },
        )
    }

    /// Create a new resource builder from an in-memory blob.
    ///
    /// This is similar to `from_compressed_memory`, but it expects the data to be uncompressed and
    /// can optionally compress and scramble it.
    ///
    /// # Arguments
    /// * `rrid` - The resource ID of the resource.
    /// * `resource_type` - The type of the resource.
    /// * `data` - The data of the resource.
    /// * `compression_level` - The compression level to use for the data, or None for no compression.
    /// * `should_scramble` - Whether the data should be scrambled.
    pub fn from_memory(
        rrid: RuntimeResourceID,
        resource_type: &str,
        data: Vec<u8>,
        compression_level: Option<i32>,
        should_scramble: bool,
    ) -> (r: Result<Self, PackageResourceBuilderError>)
        ensures
            data@.len() > u32::MAX ==> r matches Err(PackageResourceBuilderError::FileTooLarge),
            data@.len() <= u32::MAX && type_bytes(resource_type@) is None ==> r matches Err(
                PackageResourceBuilderError::InvalidResourceType,
            ),
            data@.len() <= u32::MAX && type_bytes(resource_type@) is Some ==> (r matches Ok(b)
                && b.wf() && b.rrid == rrid && b.resource_type@ == type_bytes(resource_type@)->0
                && b.system_memory_requirement == data@.len() && b.video_memory_requirement
                == u32::MAX && b.references@.len() == 0 && (
            b.blob matches PackageResourceBlob::Memory {
                data: d,
                compression_level: level,
                should_scramble: scr,
            } && d@ == data@ && level == compression_level && scr == should_scramble)),
    {
        if data.len() > u32::MAX as usize {
            return Err(PackageResourceBuilderError::FileTooLarge);
        }
        let real_size = data.len() as u32;
        let tag = match Self::resource_type_to_bytes(resource_type) {
            Ok(tag) => tag,
            Err(e) => {
                return Err(e);
            },
        };
        Ok(
            Self {
                rrid,
                resource_type: tag,
                system_memory_requirement: real_size,
                video_memory_requirement: u32::MAX,
                references: Vec::new(),
                blob: PackageResourceBlob::Memory { data, compression_level, should_scramble },
            },
        )
    }

    /// The resource builder for what a glacier resource answered: its
    /// bytes become the data, to be compressed and scrambled at build time
    /// as asked, and its memory requirements are capped at `u32::MAX`.
    /// Where it could not be written to bytes, its error is handed on;
    /// bytes that 32 bits cannot count give `FileTooLarge`.
    ///
    /// # Arguments
    /// * `rrid` - The resource ID of the resource.
    /// * `resource_type` - The type of the resource, as it is written.
    /// * `system_memory_requirement` - The system memory that the resource asks for.
    /// * `video_memory_requirement` - The video memory that the resource asks for.
    /// * `serialized` - The bytes of the resource, or why there are none.
    /// * `should_scramble` - Whether the resource asks to be scrambled.
    /// * `compression_level` - The compression level to use, or None for no compression.
    pub fn from_glacier_answers(
        rrid: RuntimeResourceID,
        resource_type: [u8; 4],
        system_memory_requirement: u64,
        video_memory_requirement: u64,
        serialized: Result<Vec<u8>, GlacierResourceError>,
        should_scramble: bool,
        compression_level: Option<i32>,
    ) -> (r: Result<Self, PackageResourceBuilderError>)
        ensures
            match serialized {
                Err(e) => r == Err::<Self, PackageResourceBuilderError>(
                    PackageResourceBuilderError::GlacierResourceError(e),
                ),
                Ok(data) => if data@.len() > u32::MAX {
                    r matches Err(PackageResourceBuilderError::FileTooLarge)
                } else {
                    &&& r matches Ok(b)
                    &&& b.rrid == rrid
                    &&& b.resource_type == resource_type
                    &&& b.system_memory_requirement == capped(system_memory_requirement)
                    &&& b.video_memory_requirement == capped(video_memory_requirement)
                    &&& b.references@.len() == 0
                    &&& b.blob == (PackageResourceBlob::Memory {
                        data,
                        compression_level,
                        should_scramble,
                    })
                },
            },
    {
        let data = match serialized {
            Ok(data) => data,
            Err(e) => {
                return Err(PackageResourceBuilderError::GlacierResourceError(e));
            },
        };
        if data.len() > u32::MAX as usize {
            return Err(PackageResourceBuilderError::FileTooLarge);
        }
        Ok(
            Self {
                rrid,
                resource_type,
                system_memory_requirement: if system_memory_requirement > u32::MAX as u64 {
                    u32::MAX
                } else {
                    system_memory_requirement as u32
                },
                video_memory_requirement: if video_memory_requirement > u32::MAX as u64 {
                    u32::MAX
                } else {
                    video_memory_requirement as u32
                },
                references: Vec::new(),
                blob: PackageResourceBlob::Memory { data, compression_level, should_scramble },
            },
        )
    }

    /// Create a new resource builder from a a GlacierResource: the resource
    /// is asked for its memory requirements, its bytes, its type and whether
    /// to scramble it, and `from_glacier_answers` makes the builder of what
    /// it answers.
    ///
    /// # Arguments
    /// * `rrid` - The resource ID of the resource.
    /// * `glacier_resource` - A reference to an object implementing the `GlacierResource` trait.
    /// * `woa_version` - The HITMAN game version you want to construct the GlacierResource for
    /// * `compression_level` - The compression level to use for the file, or None for no compression.
    pub fn from_glacier_resource<G: GlacierResource>(
        rrid: RuntimeResourceID,
        glacier_resource: &G,
        woa_version: WoaVersion,
        compression_level: Option<i32>,
    ) -> (r: Result<Self, PackageResourceBuilderError>)
        ensures
            r matches Ok(b) ==> b.wf() && b.rrid == rrid && b.references@.len() == 0 && (
            b.blob matches PackageResourceBlob::Memory { compression_level: level, .. } && level
                == compression_level),
            r matches Err(e) ==> e is GlacierResourceError || e is FileTooLarge,
    {
        let system_memory_requirement = glacier_resource.system_memory_requirement();
        let video_memory_requirement = glacier_resource.video_memory_requirement();
        let serialized = glacier_resource.serialize(woa_version);
        Self::from_glacier_answers(
            rrid,
            G::resource_type(),
            system_memory_requirement,
            video_memory_requirement,
            serialized,
            glacier_resource.should_scramble(),
            compression_level,
        )
    }

    /// Adds a reference to the resource, behind those it has.
    ///
    /// This specifies that this resource depends on / references another resource.
    ///
    /// # Arguments
    /// * `rrid` - The resource ID of the reference.
    /// * `flags` - The flags of the reference.
    pub fn with_reference(&mut self, rrid: RuntimeResourceID, flags: ResourceReferenceFlags)
        ensures
            final(self).references@ == old(self).references@.push((rrid, flags)),
            final(self).rrid == old(self).rrid,
            final(self).blob == old(self).blob,
            final(self).resource_type == old(self).resource_type,
            final(self).system_memory_requirement == old(self).system_memory_requirement,
            final(self).video_memory_requirement == old(self).video_memory_requirement,
    {
        self.references.push((rrid, flags));
    }

    /// Sets the memory requirements of the resource.
    ///
    /// # Arguments
    /// * `system_memory_requirement` - The system memory requirement of the resource.
    /// * `video_memory_requirement` - The video memory requirement of the resource.
    pub fn with_memory_requirements(
        &mut self,
        system_memory_requirement: u32,
        video_memory_requirement: u32,
    )
        ensures
            final(self).system_memory_requirement == system_memory_requirement,
            final(self).video_memory_requirement == video_memory_requirement,
            final(self).references == old(self).references,
            final(self).rrid == old(self).rrid,
            final(self).blob == old(self).blob,
            final(self).resource_type == old(self).resource_type,
    {
        self.system_memory_requirement = system_memory_requirement;
        self.video_memory_requirement = video_memory_requirement;
    }
}


#[derive(Debug)]
pub enum PackageBuilderError {
    /// A resource is backed by a file, and files are read by the caller.
    IoError(String),
    /// A field does not fit the width that the format gives it.
    SerializationError(String),
    /// Unneeded resources are only supported when building a patch package.
    UnneededResourcesNotSupported,
    /// Building patch but no patch ID was provided.
    NoPatchId,
    /// A table of the package takes more bytes than 32 bits can count.
    TooManyResources,
    /// The references of one resource take more bytes than 32 bits can count.
    TooManyReferences,
    /// Resource type is not valid.
    InvalidResourceType,
    /// Cannot build from a resource package without a source.
    NoSource,
    /// A resource of the source package could not be taken over.
    CannotDuplicateResource(RuntimeResourceID, PackageResourceBuilderError),
    /// The compressor failed.
    Lz4CompressionError(lzzzz::Error),
    /// The index of a partition id cannot be greater than 255.
    InvalidPartitionIdIndex,
    /// The patch id cannot be greater than 255.
    InvalidPatchId,
}

/// The bytes of one resource as the archive stores them, with what the
/// offset table says of them.
#[derive(Debug)]
pub struct StoredBlob {
    pub bytes: Vec<u8>,
    /// The number of stored bytes where they are compressed.
    pub compressed_size: Option<u32>,
    pub is_scrambled: bool,
}

impl StoredBlob {
    /// Whether the compressed size fits the 31 bits of its field.
    pub open spec fn wf(&self) -> bool {
        self.compressed_size matches Some(n) ==> n < 0x8000_0000
    }

    /// The packed word of the offset table: a compressed size of zero marks
    /// a resource that is not compressed.
    pub open spec fn flag_bits(&self) -> u32 {
        (self.compressed_size.unwrap_or(0) + (if self.is_scrambled {
            0x8000_0000int
        } else {
            0
        })) as u32
    }
}

/// The identifiers of `resources`, in order.
pub open spec fn resource_ids(resources: Seq<PackageResourceBuilder>) -> Seq<u64> {
    Seq::new(resources.len(), |i: int| resources[i].rrid.id)
}

/// `resources` with `resource` put under its identifier: in place of the
/// resource that has the identifier, or at the end where none has.
pub open spec fn placed(resources: Seq<PackageResourceBuilder>, resource: PackageResourceBuilder) -> Seq<
    PackageResourceBuilder,
> {
    let ids = resource_ids(resources);
    if ids.contains(resource.rrid.id) {
        resources.update(ids.index_of(resource.rrid.id), resource)
    } else {
        resources.push(resource)
    }
}

/// The byte that stores `flags` in the legacy or in the new layout.
pub open spec fn flag_byte(flags: ResourceReferenceFlags, legacy: bool) -> u8 {
    if legacy {
        flags.as_v1().bits
    } else {
        flags.as_v2().bits
    }
}

/// The identifiers of the references, eight bytes each.
pub open spec fn reference_id_bytes(refs: Seq<(RuntimeResourceID, ResourceReferenceFlags)>) -> Seq<
    u8,
>
    decreases refs.len(),
{
    if refs.len() == 0 {
        Seq::empty()
    } else {
        reference_id_bytes(refs.drop_last()) + u64_bytes(refs.last().0.id)
    }
}

/// The flag bytes of the references.
pub open spec fn reference_flag_bytes(
    refs: Seq<(RuntimeResourceID, ResourceReferenceFlags)>,
    legacy: bool,
) -> Seq<u8> {
    Seq::new(refs.len(), |i: int| flag_byte(refs[i].1, legacy))
}

/// The reference chunk of a resource: the word with the count, the layout
/// and the top bit set, then the identifiers and the flag bytes, in the
/// order of the layout.
pub open spec fn reference_chunk_bytes(
    refs: Seq<(RuntimeResourceID, ResourceReferenceFlags)>,
    legacy: bool,
) -> Seq<u8> {
    u32_bytes(ResourceReferenceCountAndFlags::packed(refs.len() as u32, !legacy, true)) + (if legacy {
        reference_id_bytes(refs) + reference_flag_bytes(refs, true)
    } else {
        reference_flag_bytes(refs, false) + reference_id_bytes(refs)
    })
}

/// The size of the reference chunk: nothing without references, else the
/// word and nine bytes for each.
pub open spec fn reference_chunk_size(refs: Seq<(RuntimeResourceID, ResourceReferenceFlags)>) -> int {
    if refs.len() == 0 {
        0
    } else {
        4 + 9 * (refs.len() as int)
    }
}

/// The metadata entry of a resource, with its references.
pub open spec fn resource_header_bytes(r: PackageResourceBuilder, legacy: bool) -> Seq<u8> {
    r.resource_type@ + u32_bytes(reference_chunk_size(r.references@) as u32) + u32_bytes(0)
        + u32_bytes(r.blob.data_size()) + u32_bytes(r.system_memory_requirement) + u32_bytes(
        r.video_memory_requirement,
    ) + (if r.references@.len() == 0 {
        Seq::empty()
    } else {
        reference_chunk_bytes(r.references@, legacy)
    })
}

/// The metadata table.
pub open spec fn metadata_table_bytes(resources: Seq<PackageResourceBuilder>, legacy: bool) -> Seq<u8>
    decreases resources.len(),
{
    if resources.len() == 0 {
        Seq::empty()
    } else {
        metadata_table_bytes(resources.drop_last(), legacy) + resource_header_bytes(
            resources.last(),
            legacy,
        )
    }
}

/// The size of the metadata table.
pub open spec fn metadata_table_len(resources: Seq<PackageResourceBuilder>) -> int
    decreases resources.len(),
{
    if resources.len() == 0 {
        0
    } else {
        metadata_table_len(resources.drop_last()) + 24 + reference_chunk_size(
            resources.last().references@,
        )
    }
}

/// The number of bytes of the payloads.
pub open spec fn payload_len(stored: Seq<StoredBlob>) -> int
    decreases stored.len(),
{
    if stored.len() == 0 {
        0
    } else {
        payload_len(stored.drop_last()) + stored.last().bytes@.len()
    }
}

/// The payloads, one behind the other.
pub open spec fn payload_bytes(stored: Seq<StoredBlob>) -> Seq<u8>
    decreases stored.len(),
{
    if stored.len() == 0 {
        Seq::empty()
    } else {
        payload_bytes(stored.drop_last()) + stored.last().bytes@
    }
}

/// The offset table of `count` resources whose payloads start at `base`:
/// each entry holds the identifier, the place of the payload, which is
/// `base` and the sizes of the payloads before it, and the packed word.
pub open spec fn offset_table_bytes(
    resources: Seq<PackageResourceBuilder>,
    stored: Seq<StoredBlob>,
    base: int,
    count: nat,
) -> Seq<u8>
    decreases count,
{
    if count == 0 {
        Seq::empty()
    } else {
        let i = count - 1;
        offset_table_bytes(resources, stored, base, i as nat) + u64_bytes(resources[i].rrid.id)
            + u64_bytes((base + payload_len(stored.take(i))) as u64) + u32_bytes(
            stored[i].flag_bits(),
        )
    }
}

/// The identifiers that a patch deletes, eight bytes each.
pub open spec fn unneeded_bytes(ids: Seq<u64>) -> Seq<u8>
    decreases ids.len(),
{
    if ids.len() == 0 {
        Seq::empty()
    } else {
        unneeded_bytes(ids.drop_last()) + u64_bytes(ids.last())
    }
}

/// The magic of a version.
pub open spec fn magic_bytes(version: PackageVersion) -> Seq<u8> {
    match version {
        PackageVersion::RPKGv1 => seq![0x47u8, 0x4B, 0x50, 0x52],
        PackageVersion::RPKGv2 => seq![0x32u8, 0x4B, 0x50, 0x52],
    }
}

/// A builder for creating a ResourcePackage.
pub struct PackageBuilder {
    pub partition_id: PartitionId,
    pub patch_id: PatchId,
    pub legacy_references: bool,
    /// The identifiers of `resources`, in the order in which they are written.
    pub index: IndexSet<u64>,
    pub resources: Vec<PackageResourceBuilder>,
    pub unneeded_resources: IndexSet<u64>,
}

impl PackageBuilder {
    /// What holds of every builder: the index lists the identifiers of the
    /// resources, each once, and every resource is well formed.
    pub open spec fn wf(&self) -> bool {
        &&& set_items(self.index) == resource_ids(self.resources@)
        &&& resource_ids(self.resources@).no_duplicates()
        &&& forall|i: int| 0 <= i < self.resources@.len() ==> (#[trigger] self.resources@[i]).wf()
    }

    /// The identifiers that the package will list as deleted.
    pub open spec fn unneeded(&self) -> Seq<u64> {
        set_items(self.unneeded_resources)
    }

    /// The metadata block of a version 2 package: the word 1, the number of
    /// the partition and of the patch, each cut to a byte, the chunk type,
    /// which is 1 for an addon and 0 otherwise, and the language tag `xx`.
    pub open spec fn metadata_bytes(&self) -> Seq<u8> {
        u32_bytes(1) + seq![
            (self.partition_id.index % 256) as u8,
            if self.partition_id.part_type@ == PartitionTypeView::Addon {
                1u8
            } else {
                0u8
            },
            match self.patch_id {
                PatchId::Base => 0u8,
                PatchId::Patch(n) => (n % 256) as u8,
            },
            0x78u8,
            0x78u8,
        ]
    }

    /// What stands before the tables: the magic, for version 2 the metadata
    /// block, the header, and for a patch the list of deleted resources.
    #[verifier::opaque]
    pub open spec fn head_bytes(&self, version: PackageVersion) -> Seq<u8> {
        magic_bytes(version) + (if version == PackageVersion::RPKGv2 {
            self.metadata_bytes()
        } else {
            Seq::empty()
        }) + u32_bytes(self.resources@.len() as u32) + u32_bytes(
            (20 * self.resources@.len()) as u32,
        ) + u32_bytes(metadata_table_len(self.resources@) as u32) + (if self.patch_id
            != PatchId::Base {
            u32_bytes(self.unneeded().len() as u32) + unneeded_bytes(self.unneeded())
        } else {
            Seq::empty()
        })
    }

    /// The package: head, offset table, metadata table, payloads.
    pub open spec fn archive_bytes(&self, version: PackageVersion, stored: Seq<StoredBlob>) -> Seq<
        u8,
    > {
        let head = self.head_bytes(version);
        let base = head.len() + 20 * self.resources@.len() + metadata_table_len(self.resources@);
        head + offset_table_bytes(self.resources@, stored, base, self.resources@.len())
            + metadata_table_bytes(self.resources@, self.legacy_references) + payload_bytes(stored)
    }

    /// Whether the tables of the package cannot be written, and why not:
    /// deleted resources in a base package; more deleted resources, or a
    /// larger offset table, than 32 bits can count; a resource whose
    /// references take more bytes than that; a metadata table that does.
    #[verifier::opaque]
    pub open spec fn table_error(&self) -> Option<PackageBuilderError> {
        if self.unneeded().len() > 0 && self.patch_id == PatchId::Base {
            Some(PackageBuilderError::UnneededResourcesNotSupported)
        } else if self.unneeded().len() > u32::MAX || 20 * self.resources@.len() > u32::MAX {
            Some(PackageBuilderError::TooManyResources)
        } else if exists|i: int|
            0 <= i < self.resources@.len() && reference_chunk_size(
                (#[trigger] self.resources@[i]).references@,
            ) > u32::MAX {
            Some(PackageBuilderError::TooManyReferences)
        } else if metadata_table_len(self.resources@) > u32::MAX {
            Some(PackageBuilderError::TooManyResources)
        } else {
            None
        }
    }

    /// Creates a new package builder.
    ///
    /// # Arguments
    /// * `chunk_id` - The chunk ID of the package. e.g. chunk0
    /// * `chunk_type` - The chunk type of the package.
    pub fn new(chunk_id: u8, chunk_type: ChunkType) -> (r: Self)
        ensures
            r.wf(),
            r.resources@.len() == 0,
            r.unneeded().len() == 0,
            r.patch_id == PatchId::Base,
            !r.legacy_references,
            r.partition_id.index == chunk_id,
            r.partition_id.part_type@ == match chunk_type {
                ChunkType::Standard => PartitionTypeView::Standard,
                ChunkType::Addon => PartitionTypeView::Addon,
            },
    {
        let r = Self {
            partition_id: PartitionId {
                part_type: match chunk_type {
                    ChunkType::Standard => PartitionType::Standard,
                    ChunkType::Addon => PartitionType::Addon,
                },
                index: chunk_id as usize,
            },
            legacy_references: false,
            patch_id: PatchId::Base,
            index: ordered_new(),
            resources: Vec::new(),
            unneeded_resources: ordered_new(),
        };
        assert(resource_ids(r.resources@) =~= Seq::<u64>::empty());
        r
    }

    /// Creates a new package builder using the given partition id and patch id.
    ///
    /// # Arguments
    /// * `partition_id` - The partition id of the package.
    /// * `patch_id` - The patch id of the package.
    pub fn new_with_patch_id(partition_id: PartitionId, patch_id: PatchId) -> (r: Self)
        ensures
            r.wf(),
            r.resources@.len() == 0,
            r.unneeded().len() == 0,
            r.patch_id == patch_id,
            !r.legacy_references,
            r.partition_id == partition_id,
    {
        let r = Self {
            partition_id,
            patch_id,
            legacy_references: false,
            index: ordered_new(),
            resources: Vec::new(),
            unneeded_resources: ordered_new(),
        };
        assert(resource_ids(r.resources@) =~= Seq::<u64>::empty());
        r
    }

    /// Sets the partition ID of the package.
    pub fn with_partition_id(&mut self, partition_id: &PartitionId)
        ensures
            final(self).partition_id@ == partition_id@,
            final(self).patch_id == old(self).patch_id,
            final(self).legacy_references == old(self).legacy_references,
            final(self).index == old(self).index,
            final(self).resources == old(self).resources,
            final(self).unneeded_resources == old(self).unneeded_resources,
    {
        self.partition_id = PartitionId {
            part_type: match &partition_id.part_type {
                PartitionType::Standard => PartitionType::Standard,
                PartitionType::Addon => PartitionType::Addon,
                PartitionType::Dlc => PartitionType::Dlc,
                PartitionType::LanguageStandard(lang) => PartitionType::LanguageStandard(
                    lang.clone(),
                ),
                PartitionType::LanguageDlc(lang) => PartitionType::LanguageDlc(lang.clone()),
            },
            index: partition_id.index,
        };
    }

    /// Sets the patch ID of the package.
    pub fn with_patch_id(&mut self, patch_id: &PatchId)
        ensures
            final(self).patch_id == *patch_id,
            final(self).partition_id == old(self).partition_id,
            final(self).legacy_references == old(self).legacy_references,
            final(self).index == old(self).index,
            final(self).resources == old(self).resources,
            final(self).unneeded_resources == old(self).unneeded_resources,
    {
        self.patch_id = *patch_id;
    }

    /// When this flag is set it will build the reference flags with the legacy format
    pub fn use_legacy_references(&mut self)
        ensures
            final(self).legacy_references,
            final(self).partition_id == old(self).partition_id,
            final(self).patch_id == old(self).patch_id,
            final(self).index == old(self).index,
            final(self).resources == old(self).resources,
            final(self).unneeded_resources == old(self).unneeded_resources,
    {
        self.legacy_references = true;
    }

    /// Adds a resource to the package.
    ///
    /// If a resource with the same resource ID already exists, it will be
    /// overwritten, and keeps its place.
    ///
    /// # Arguments
    /// * `resource` - The resource to add to the package.
    pub fn with_resource(&mut self, resource: PackageResourceBuilder)
        requires
            old(self).wf(),
            resource.wf(),
        ensures
            final(self).wf(),
            final(self).resources@ == placed(old(self).resources@, resource),
            final(self).partition_id == old(self).partition_id,
            final(self).patch_id == old(self).patch_id,
            final(self).legacy_references == old(self).legacy_references,
            final(self).unneeded_resources == old(self).unneeded_resources,
    {
        let ghost before = self.resources@;
        let ghost ids = resource_ids(before);
        let (slot, inserted) = ordered_insert(&mut self.index, resource.rrid.id);
        if inserted {
            self.resources.push(resource);
            proof {
                assert(resource_ids(self.resources@) =~= ids.push(resource.rrid.id));
                assert forall|i: int, j: int|
                    0 <= i < j < ids.len() + 1 implies ids.push(resource.rrid.id)[i] != ids.push(
                    resource.rrid.id,
                )[j] by {
                    if j == ids.len() {
                        assert(ids.contains(ids[i]));
                    }
                }
            }
        } else {
            proof {
                assert(ids.contains(resource.rrid.id));
                let chosen = ids.index_of(resource.rrid.id);
                assert(ids[chosen] == resource.rrid.id);
                assert(chosen == slot);
            }
            self.resources.set(slot, resource);
            proof {
                assert(resource_ids(self.resources@) =~= ids);
            }
        }
    }

    /// Adds an unneeded resource to the package: at the end of the list,
    /// unless the list holds it.
    ///
    /// # Arguments
    /// * `rrid` - The resource ID of the resource.
    pub fn with_unneeded_resource(&mut self, rrid: RuntimeResourceID)
        ensures
            final(self).unneeded() == if old(self).unneeded().contains(rrid.id) {
                old(self).unneeded()
            } else {
                old(self).unneeded().push(rrid.id)
            },
            final(self).partition_id == old(self).partition_id,
            final(self).patch_id == old(self).patch_id,
            final(self).legacy_references == old(self).legacy_references,
            final(self).index == old(self).index,
            final(self).resources == old(self).resources,
    {
        let _ = ordered_insert(&mut self.unneeded_resources, rrid.id);
    }
}


/// The payloads of the first `k + 1` resources are those of the first `k`
/// and one more.
pub proof fn lemma_payload_len_step(stored: Seq<StoredBlob>, k: int)
    requires
        0 <= k < stored.len(),
    ensures
        payload_len(stored.take(k + 1)) == payload_len(stored.take(k)) + stored[k].bytes@.len(),
        payload_bytes(stored.take(k + 1)) == payload_bytes(stored.take(k)) + stored[k].bytes@,
        payload_len(stored.take(k)) >= 0,
{
    assert(stored.take(k + 1).drop_last() =~= stored.take(k));
    lemma_payload_len_nonneg(stored.take(k));
}

pub proof fn lemma_payload_len_nonneg(stored: Seq<StoredBlob>)
    ensures
        payload_len(stored) >= 0,
        payload_bytes(stored).len() == payload_len(stored),
    decreases stored.len(),
{
    if stored.len() > 0 {
        lemma_payload_len_nonneg(stored.drop_last());
    }
}

/// The payloads before a resource take no more than all payloads together.
pub proof fn lemma_payload_len_grows(stored: Seq<StoredBlob>, k: int)
    requires
        0 <= k <= stored.len(),
    ensures
        0 <= payload_len(stored.take(k)) <= payload_len(stored),
    decreases stored.len() - k,
{
    lemma_payload_len_nonneg(stored.take(k));
    if k < stored.len() {
        lemma_payload_len_step(stored, k);
        lemma_payload_len_grows(stored, k + 1);
    } else {
        assert(stored.take(k) =~= stored);
    }
}

/// The metadata table takes as many bytes as `metadata_table_len` says.
pub proof fn lemma_metadata_table_len(resources: Seq<PackageResourceBuilder>, legacy: bool)
    ensures
        metadata_table_bytes(resources, legacy).len() == metadata_table_len(resources),
        metadata_table_len(resources) >= 24 * resources.len(),
    decreases resources.len(),
{
    if resources.len() > 0 {
        lemma_metadata_table_len(resources.drop_last(), legacy);
        let r = resources.last();
        let refs = r.references@;
        lemma_reference_id_bytes_len(refs);
        lemma_u32_roundtrip(reference_chunk_size(refs) as u32);
        lemma_u32_roundtrip(0);
        lemma_u32_roundtrip(r.blob.data_size());
        lemma_u32_roundtrip(r.system_memory_requirement);
        lemma_u32_roundtrip(r.video_memory_requirement);
        lemma_u32_roundtrip(ResourceReferenceCountAndFlags::packed(refs.len() as u32, !legacy, true));
    }
}

proof fn lemma_unneeded_bytes_len(ids: Seq<u64>)
    ensures
        unneeded_bytes(ids).len() == 8 * ids.len(),
    decreases ids.len(),
{
    if ids.len() > 0 {
        lemma_unneeded_bytes_len(ids.drop_last());
        lemma_u64_roundtrip(ids.last());
    }
}

proof fn lemma_reference_id_bytes_len(refs: Seq<(RuntimeResourceID, ResourceReferenceFlags)>)
    ensures
        reference_id_bytes(refs).len() == 8 * refs.len(),
    decreases refs.len(),
{
    if refs.len() > 0 {
        lemma_reference_id_bytes_len(refs.drop_last());
        lemma_u64_roundtrip(refs.last().0.id);
    }
}

proof fn lemma_metadata_table_len_step(resources: Seq<PackageResourceBuilder>, k: int)
    requires
        0 <= k < resources.len(),
    ensures
        metadata_table_len(resources.take(k + 1)) == metadata_table_len(resources.take(k)) + 24
            + reference_chunk_size(resources[k].references@),
        metadata_table_len(resources.take(k)) >= 0,
{
    assert(resources.take(k + 1).drop_last() =~= resources.take(k));
    lemma_metadata_table_len(resources.take(k), true);
}

fn write_references(
    out: &mut Vec<u8>,
    refs: &Vec<(RuntimeResourceID, ResourceReferenceFlags)>,
    legacy: bool,
)
    requires
        refs@.len() < 0x4000_0000,
    ensures
        final(out)@ == old(out)@ + reference_chunk_bytes(refs@, legacy),
{
    let word = ResourceReferenceCountAndFlags::pack(refs.len() as u32, !legacy, true);
    push_u32(out, word.into_bits());
    let ghost start = out@;
    if legacy {
        write_reference_ids(out, refs);
        write_reference_flags(out, refs, true);
        assert(out@ =~= old(out)@ + reference_chunk_bytes(refs@, legacy));
    } else {
        write_reference_flags(out, refs, false);
        write_reference_ids(out, refs);
        assert(out@ =~= old(out)@ + reference_chunk_bytes(refs@, legacy));
    }
}

fn write_reference_ids(out: &mut Vec<u8>, refs: &Vec<(RuntimeResourceID, ResourceReferenceFlags)>)
    ensures
        final(out)@ == old(out)@ + reference_id_bytes(refs@),
{
    let mut i: usize = 0;
    assert(reference_id_bytes(refs@.take(0)) =~= Seq::<u8>::empty());
    while i < refs.len()
        invariant
            i <= refs@.len(),
            out@ == old(out)@ + reference_id_bytes(refs@.take(i as int)),
        decreases refs@.len() - i,
    {
        push_u64(out, refs[i].0.id);
        proof {
            assert(refs@.take(i + 1).drop_last() =~= refs@.take(i as int));
            assert(out@ =~= old(out)@ + reference_id_bytes(refs@.take(i + 1)));
        }
        i += 1;
    }
    assert(refs@.take(refs@.len() as int) =~= refs@);
}

fn write_reference_flags(
    out: &mut Vec<u8>,
    refs: &Vec<(RuntimeResourceID, ResourceReferenceFlags)>,
    legacy: bool,
)
    ensures
        final(out)@ == old(out)@ + reference_flag_bytes(refs@, legacy),
{
    let mut i: usize = 0;
    while i < refs.len()
        invariant
            i <= refs@.len(),
            out@ == old(out)@ + reference_flag_bytes(refs@, legacy).take(i as int),
        decreases refs@.len() - i,
    {
        let byte = if legacy {
            refs[i].1.to_v1().into_bits()
        } else {
            refs[i].1.to_v2().into_bits()
        };
        out.push(byte);
        proof {
            let all = reference_flag_bytes(refs@, legacy);
            assert(all.take(i + 1) =~= all.take(i as int).push(all[i as int]));
            assert(out@ =~= old(out)@ + all.take(i + 1));
        }
        i += 1;
    }
    assert(reference_flag_bytes(refs@, legacy).take(refs@.len() as int) =~= reference_flag_bytes(
        refs@,
        legacy,
    ));
}

/// Appends `bytes` to `out`.
fn push_bytes(out: &mut Vec<u8>, bytes: &[u8])
    ensures
        final(out)@ == old(out)@ + bytes@,
{
    let mut i: usize = 0;
    while i < bytes.len()
        invariant
            i <= bytes@.len(),
            out@ == old(out)@ + bytes@.take(i as int),
        decreases bytes@.len() - i,
    {
        out.push(bytes[i]);
        i += 1;
        assert(bytes@.take(i as int) =~= bytes@.take(i - 1).push(bytes@[i - 1]));
    }
    assert(bytes@.take(bytes@.len() as int) =~= bytes@);
}

/// Appends the payloads, one behind the other.
fn write_payloads(out: &mut Vec<u8>, stored: &Vec<StoredBlob>)
    ensures
        final(out)@ == old(out)@ + payload_bytes(stored@),
{
    let mut i: usize = 0;
    assert(payload_bytes(stored@.take(0)) =~= Seq::<u8>::empty());
    assert(out@ + Seq::<u8>::empty() =~= out@);
    while i < stored.len()
        invariant
            i <= stored@.len(),
            out@ == old(out)@ + payload_bytes(stored@.take(i as int)),
        decreases stored@.len() - i,
    {
        proof {
            lemma_payload_len_step(stored@, i as int);
            lemma_append_assoc(
                old(out)@,
                payload_bytes(stored@.take(i as int)),
                stored@[i as int].bytes@,
            );
        }
        push_bytes(out, stored[i].bytes.as_slice());
        i += 1;
    }
    assert(stored@.take(stored@.len() as int) =~= stored@);
}

impl PackageBuilder {
    /// Checks that the tables can be written and returns the size of the
    /// metadata table.
    pub fn check_tables(&self) -> (r: Result<u32, PackageBuilderError>)
        requires
            self.wf(),
        ensures
            match self.table_error() {
                Some(e) => r == Err::<u32, PackageBuilderError>(e),
                None => r == Ok::<u32, PackageBuilderError>(
                    metadata_table_len(self.resources@) as u32,
                ),
            },
            r matches Ok(n) ==> n == metadata_table_len(self.resources@),
    {
        reveal(PackageBuilder::table_error);
        let unneeded = ordered_len(&self.unneeded_resources);
        if unneeded > 0 && self.patch_id.is_base() {
            return Err(PackageBuilderError::UnneededResourcesNotSupported);
        }
        let n = self.resources.len();
        if unneeded > u32::MAX as usize || n > (u32::MAX / 20) as usize {
            return Err(PackageBuilderError::TooManyResources);
        }
        let mut total: u64 = 0;
        let mut i: usize = 0;
        assert(metadata_table_len(self.resources@.take(0)) == 0);
        while i < n
            invariant
                i <= n,
                n == self.resources@.len(),
                20 * n <= u32::MAX,
                self.unneeded().len() <= u32::MAX,
                !(self.unneeded().len() > 0 && self.patch_id == PatchId::Base),
                total == metadata_table_len(self.resources@.take(i as int)),
                total <= i * 0x1_0000_0020,
                forall|k: int|
                    0 <= k < i ==> reference_chunk_size(
                        (#[trigger] self.resources@[k]).references@,
                    ) <= u32::MAX,
            decreases n - i,
        {
            let count = self.resources[i].references.len();
            if count > 477218587 {
                reveal(PackageBuilder::table_error);
                assert(reference_chunk_size(self.resources@[i as int].references@) > u32::MAX);
                return Err(PackageBuilderError::TooManyReferences);
            }
            let chunk: u64 = if count == 0 {
                0
            } else {
                4 + 9 * (count as u64)
            };
            proof {
                lemma_metadata_table_len_step(self.resources@, i as int);
            }
            total = total + 24 + chunk;
            i += 1;
        }
        assert(self.resources@.take(n as int) =~= self.resources@);
        reveal(PackageBuilder::table_error);
        if total > u32::MAX as u64 {
            return Err(PackageBuilderError::TooManyResources);
        }
        Ok(total as u32)
    }

    /// What a builder without a table error is known to fit.
    pub proof fn lemma_tables_fit(&self)
        requires
            self.table_error() is None,
        ensures
            !(self.unneeded().len() > 0 && self.patch_id == PatchId::Base),
            self.unneeded().len() <= u32::MAX,
            20 * self.resources@.len() <= u32::MAX,
            metadata_table_len(self.resources@) <= u32::MAX,
            forall|i: int|
                0 <= i < self.resources@.len() ==> reference_chunk_size(
                    (#[trigger] self.resources@[i]).references@,
                ) <= u32::MAX,
    {
        reveal(PackageBuilder::table_error);
    }

    /// The head takes at most 29 bytes and eight for each deleted resource.
    pub proof fn lemma_head_len(&self, version: PackageVersion)
        ensures
            self.head_bytes(version).len() <= 29 + 8 * self.unneeded().len(),
    {
        reveal(PackageBuilder::head_bytes);
        lemma_unneeded_bytes_len(self.unneeded());
        lemma_u32_roundtrip(1);
        lemma_u32_roundtrip(self.resources@.len() as u32);
        lemma_u32_roundtrip((20 * self.resources@.len()) as u32);
        lemma_u32_roundtrip(metadata_table_len(self.resources@) as u32);
        lemma_u32_roundtrip(self.unneeded().len() as u32);
    }

    /// Writes what stands before the tables.
    fn write_head(&self, version: PackageVersion) -> (out: Vec<u8>)
        requires
            self.wf(),
            self.table_error() is None,
        ensures
            out@ == self.head_bytes(version),
    {
        reveal(PackageBuilder::head_bytes);
        proof {
            self.lemma_tables_fit();
        }
        let mut out: Vec<u8> = Vec::new();
        match version {
            PackageVersion::RPKGv1 => {
                out.push(0x47);
                out.push(0x4B);
                out.push(0x50);
                out.push(0x52);
            },
            PackageVersion::RPKGv2 => {
                out.push(0x32);
                out.push(0x4B);
                out.push(0x50);
                out.push(0x52);
                push_u32(&mut out, 1);
                out.push((self.partition_id.index % 256) as u8);
                out.push(
                    match self.partition_id.part_type {
                        PartitionType::Addon => 1,
                        _ => 0,
                    },
                );
                out.push(
                    match self.patch_id {
                        PatchId::Base => 0,
                        PatchId::Patch(x) => (x % 256) as u8,
                    },
                );
                out.push(0x78);
                out.push(0x78);
            },
        }
        let ghost lead = out@;
        assert(lead =~= magic_bytes(version) + (if version == PackageVersion::RPKGv2 {
            self.metadata_bytes()
        } else {
            Seq::empty()
        }));
        let meta_size = match self.check_tables() {
            Ok(n) => n,
            Err(_) => 0,
        };
        push_u32(&mut out, self.resources.len() as u32);
        push_u32(&mut out, (20 * self.resources.len()) as u32);
        push_u32(&mut out, meta_size);
        let ghost fixed = out@;
        if self.patch_id.is_patch() {
            let count = ordered_len(&self.unneeded_resources);
            push_u32(&mut out, count as u32);
            let ghost counted = out@;
            let mut i: usize = 0;
            assert(unneeded_bytes(self.unneeded().take(0)) =~= Seq::<u8>::empty());
            while i < count
                invariant
                    i <= count,
                    count == self.unneeded().len(),
                    out@ == counted + unneeded_bytes(self.unneeded().take(i as int)),
                decreases count - i,
            {
                let id = ordered_get(&self.unneeded_resources, i).unwrap();
                push_u64(&mut out, id);
                proof {
                    assert(self.unneeded().take(i + 1).drop_last() =~= self.unneeded().take(
                        i as int,
                    ));
                    assert(out@ =~= counted + unneeded_bytes(self.unneeded().take(i + 1)));
                }
                i += 1;
            }
            assert(self.unneeded().take(count as int) =~= self.unneeded());
            assert(out@ =~= self.head_bytes(version));
        } else {
            assert(out@ =~= self.head_bytes(version));
        }
        out
    }

    /// Writes the offset table, for payloads that start at `base`.
    fn write_offset_table(&self, out: &mut Vec<u8>, stored: &Vec<StoredBlob>, base: u64)
        requires
            stored@.len() == self.resources@.len(),
            base + payload_len(stored@) <= u64::MAX,
            forall|i: int| 0 <= i < stored@.len() ==> (#[trigger] stored@[i]).wf(),
        ensures
            final(out)@ == old(out)@ + offset_table_bytes(
                self.resources@,
                stored@,
                base as int,
                self.resources@.len(),
            ),
    {
        let n = self.resources.len();
        let mut offset: u64 = base;
        let mut i: usize = 0;
        assert(payload_len(stored@.take(0)) == 0);
        while i < n
            invariant
                i <= n,
                n == self.resources@.len(),
                stored@.len() == n,
                base + payload_len(stored@) <= u64::MAX,
                forall|k: int| 0 <= k < stored@.len() ==> (#[trigger] stored@[k]).wf(),
                offset == base + payload_len(stored@.take(i as int)),
                out@ == old(out)@ + offset_table_bytes(
                    self.resources@,
                    stored@,
                    base as int,
                    i as nat,
                ),
            decreases n - i,
        {
            let blob = &stored[i];
            assert(blob.wf());
            let size = match blob.compressed_size {
                Some(n) => n,
                None => 0,
            };
            let flags = PackageOffsetFlags::new().with_compressed_size(size).with_is_scrambled(
                blob.is_scrambled,
            );
            assert(flags.bits == blob.flag_bits());
            let mut entry: Vec<u8> = Vec::new();
            push_u64(&mut entry, self.resources[i].rrid.id);
            push_u64(&mut entry, offset);
            push_u32(&mut entry, flags.into_bits());
            let ghost table = offset_table_bytes(self.resources@, stored@, base as int, i as nat);
            let ghost a = u64_bytes(self.resources@[i as int].rrid.id);
            let ghost b = u64_bytes(offset);
            let ghost c = u32_bytes(flags.bits);
            proof {
                lemma_payload_len_step(stored@, i as int);
                lemma_payload_len_grows(stored@, i + 1);
                assert(Seq::<u8>::empty() + a =~= a);
                assert(entry@ == a + b + c);
                lemma_append_assoc(table, a + b, c);
                lemma_append_assoc(table, a, b);
                assert(offset_table_bytes(self.resources@, stored@, base as int, (i + 1) as nat)
                    == table + entry@);
                lemma_append_assoc(old(out)@, table, entry@);
            }
            push_bytes(out, entry.as_slice());
            offset = offset + blob.bytes.len() as u64;
            i += 1;
        }
    }

    /// Writes the metadata table: for each resource its entry and, where it
    /// has references, the reference chunk in the layout asked for.
    fn write_metadata_table(&self, out: &mut Vec<u8>, legacy_references: bool)
        requires
            self.wf(),
            forall|i: int|
                0 <= i < self.resources@.len() ==> reference_chunk_size(
                    (#[trigger] self.resources@[i]).references@,
                ) <= u32::MAX,
        ensures
            final(out)@ == old(out)@ + metadata_table_bytes(self.resources@, legacy_references),
    {
        let n = self.resources.len();
        let mut i: usize = 0;
        assert(metadata_table_bytes(self.resources@.take(0), legacy_references) =~= Seq::<
            u8,
        >::empty());
        while i < n
            invariant
                i <= n,
                n == self.resources@.len(),
                self.wf(),
                forall|k: int|
                    0 <= k < self.resources@.len() ==> reference_chunk_size(
                        (#[trigger] self.resources@[k]).references@,
                    ) <= u32::MAX,
                out@ == old(out)@ + metadata_table_bytes(
                    self.resources@.take(i as int),
                    legacy_references,
                ),
            decreases n - i,
        {
            let resource = &self.resources[i];
            assert(self.resources@[i as int].wf());
            assert(reference_chunk_size(self.resources@[i as int].references@) <= u32::MAX);
            let count = resource.references.len();
            let chunk: u32 = if count == 0 {
                0
            } else {
                (4 + 9 * count) as u32
            };
            let mut entry: Vec<u8> = Vec::new();
            push_bytes(&mut entry, resource.resource_type.as_slice());
            assert(entry@ =~= resource.resource_type@);
            push_u32(&mut entry, chunk);
            push_u32(&mut entry, 0);
            push_u32(&mut entry, resource.blob.size());
            push_u32(&mut entry, resource.system_memory_requirement);
            push_u32(&mut entry, resource.video_memory_requirement);
            let ghost fixed = entry@;
            if count != 0 {
                write_references(&mut entry, &resource.references, legacy_references);
            } else {
                assert(fixed + Seq::<u8>::empty() =~= fixed);
            }
            assert(entry@ == resource_header_bytes(*resource, legacy_references));
            proof {
                let table = metadata_table_bytes(self.resources@.take(i as int), legacy_references);
                assert(self.resources@.take(i + 1).drop_last() =~= self.resources@.take(i as int));
                assert(metadata_table_bytes(self.resources@.take(i + 1), legacy_references)
                    == table + entry@);
                lemma_append_assoc(old(out)@, table, entry@);
            }
            push_bytes(out, entry.as_slice());
            i += 1;
        }
        assert(self.resources@.take(n as int) =~= self.resources@);
    }

    /// Whether the places of all payloads can be written as 64-bit numbers.
    pub open spec fn offsets_fit(&self, version: PackageVersion, stored: Seq<StoredBlob>) -> bool {
        self.head_bytes(version).len() + 20 * self.resources@.len() + metadata_table_len(
            self.resources@,
        ) + payload_len(stored) <= u64::MAX
    }

    /// Writes the package, once the tables are known to fit.
    fn assemble(&self, version: PackageVersion, stored: &Vec<StoredBlob>, meta_size: u32) -> (out:
        Vec<u8>)
        requires
            self.wf(),
            self.table_error() is None,
            meta_size == metadata_table_len(self.resources@),
            stored@.len() == self.resources@.len(),
            forall|i: int| 0 <= i < stored@.len() ==> (#[trigger] stored@[i]).wf(),
            self.offsets_fit(version, stored@),
        ensures
            out@ == self.archive_bytes(version, stored@),
    {
        proof {
            self.lemma_tables_fit();
        }
        proof {
            lemma_payload_len_grows(stored@, 0);
            lemma_metadata_table_len(self.resources@, self.legacy_references);
        }
        let mut out = self.write_head(version);
        let ghost head = out@;
        let base: u64 = out.len() as u64 + 20 * (self.resources.len() as u64) + meta_size as u64;
        self.write_offset_table(&mut out, stored, base);
        self.write_metadata_table(&mut out, self.legacy_references);
        write_payloads(&mut out, stored);
        out
    }

    /// Builds the package from the stored form of each resource.
    ///
    /// The tables are checked first: where `table_error` names an error, it
    /// is returned. The package is otherwise exactly `archive_bytes`.
    pub fn build_internal(&self, version: PackageVersion, stored: &Vec<StoredBlob>) -> (r: Result<
        Vec<u8>,
        PackageBuilderError,
    >)
        requires
            self.wf(),
            stored@.len() == self.resources@.len(),
            forall|i: int| 0 <= i < stored@.len() ==> (#[trigger] stored@[i]).wf(),
            self.offsets_fit(version, stored@),
        ensures
            match self.table_error() {
                Some(e) => r == Err::<Vec<u8>, PackageBuilderError>(e),
                None => r matches Ok(bytes) && bytes@ == self.archive_bytes(version, stored@),
            },
    {
        match self.check_tables() {
            Ok(meta_size) => Ok(self.assemble(version, stored, meta_size)),
            Err(e) => Err(e),
        }
    }
}


/// What the archive stores for a blob that needs no compressor: bytes in
/// memory as they are, scrambled where asked, and bytes that are already in
/// stored form as they are, their number being the compressed size where
/// they are compressed. `None` for a blob that is compressed at build time,
/// that is backed by a file, or whose compressed size does not fit 31 bits.
pub open spec fn stored_as_is(blob: PackageResourceBlob) -> Option<(Seq<u8>, Option<u32>, bool)> {
    match blob {
        PackageResourceBlob::Memory { data, compression_level: None, should_scramble } => Some(
            (
                if should_scramble {
                    scrambled(data@)
                } else {
                    data@
                },
                None,
                should_scramble,
            ),
        ),
        PackageResourceBlob::CompressedMemory { data, decompressed_size, is_scrambled } => {
            if decompressed_size is Some && data@.len() >= 0x8000_0000 {
                None
            } else {
                Some(
                    (
                        data@,
                        if decompressed_size is Some {
                            Some(data@.len() as u32)
                        } else {
                            None
                        },
                        is_scrambled,
                    ),
                )
            }
        },
        _ => None,
    }
}

/// Whether `stored` is a stored form of `blob`: the one of `stored_as_is`
/// where that is defined; for bytes that are compressed at build time, any
/// block within the compressor's bound that decodes to them, scrambled
/// where asked, with its length as the compressed size.
pub open spec fn admissible(blob: PackageResourceBlob, stored: StoredBlob) -> bool {
    match stored_as_is(blob) {
        Some((bytes, compressed_size, is_scrambled)) => stored.bytes@ == bytes
            && stored.compressed_size == compressed_size && stored.is_scrambled == is_scrambled,
        None => blob matches PackageResourceBlob::Memory {
            data,
            compression_level: Some(_),
            should_scramble,
        } && stored.is_scrambled == should_scramble && stored.compressed_size == Some(
            stored.bytes@.len() as u32,
        ) && stored.bytes@.len() <= lz4_bound(data@.len() as int) && (stored.bytes@.len() == 0
            ==> data@.len() == 0) && (stored.bytes@.len() > 0 ==> lz4_decoded(
            if should_scramble {
                scrambled(stored.bytes@)
            } else {
                stored.bytes@
            },
            data@.len(),
        ) == Some(data@)),
    }
}

/// Whether storing `blob` fails: it is backed by a file, which this crate
/// does not read, it is to be compressed and longer than the format of the
/// compressor can take, or its compressed size does not fit 31 bits.
pub open spec fn store_refused(blob: PackageResourceBlob) -> bool {
    match blob {
        PackageResourceBlob::File { .. } => true,
        PackageResourceBlob::FileAtOffset { .. } => true,
        PackageResourceBlob::Memory { data, compression_level, .. } => compression_level is Some
            && data@.len() > LZ4_MAX_INPUT,
        PackageResourceBlob::CompressedMemory { data, decompressed_size, .. } => decompressed_size is Some
            && data@.len() >= 0x8000_0000,
    }
}

/// The most bytes that the stored form of `blob` takes: their number where
/// `stored_as_is` gives them, the bound of the compressor for bytes that are
/// compressed at build time.
pub open spec fn stored_most(blob: PackageResourceBlob) -> int {
    match stored_as_is(blob) {
        Some((bytes, _, _)) => bytes.len() as int,
        None => match blob {
            PackageResourceBlob::Memory { data, .. } => lz4_bound(data@.len() as int),
            _ => 0,
        },
    }
}

/// The most bytes that the payloads of `resources` take: `stored_most` of
/// each, which is their number where no resource is compressed at build time.
pub open spec fn payload_bound(resources: Seq<PackageResourceBuilder>) -> int
    decreases resources.len(),
{
    if resources.len() == 0 {
        0
    } else {
        payload_bound(resources.drop_last()) + stored_most(resources.last().blob)
    }
}

/// The payloads of the first resources take no more than those of all.
pub proof fn lemma_payload_bound_grows(resources: Seq<PackageResourceBuilder>, k: int)
    requires
        0 <= k <= resources.len(),
    ensures
        0 <= payload_bound(resources.take(k)) <= payload_bound(resources),
        k < resources.len() ==> payload_bound(resources.take(k + 1)) == payload_bound(
            resources.take(k),
        ) + stored_most(resources[k].blob),
    decreases resources.len() - k,
{
    if k < resources.len() {
        assert(resources.take(k + 1).drop_last() =~= resources.take(k));
        lemma_payload_bound_grows(resources, k + 1);
    } else {
        assert(resources.take(k) =~= resources);
    }
    lemma_payload_bound_nonneg(resources.take(k));
}

proof fn lemma_payload_bound_nonneg(resources: Seq<PackageResourceBuilder>)
    ensures
        0 <= payload_bound(resources),
    decreases resources.len(),
{
    if resources.len() > 0 {
        lemma_payload_bound_nonneg(resources.drop_last());
    }
}

/// Whether `r` is `blob` with the bytes `contents` of its file filled in: a
/// whole file becomes bytes in memory that are compressed and scrambled at
/// build time as the blob asks, a span of a file becomes bytes in stored
/// form, and a blob in memory stays as it is.
pub open spec fn is_loaded(blob: PackageResourceBlob, contents: Seq<u8>, r: PackageResourceBlob) -> bool {
    match blob {
        PackageResourceBlob::File {
            compression_level,
            should_scramble,
            ..
        } => r matches PackageResourceBlob::Memory {
            data,
            compression_level: level,
            should_scramble: scr,
        } && data@ == contents && level == compression_level && scr == should_scramble,
        PackageResourceBlob::FileAtOffset {
            size,
            compressed_size,
            is_scrambled,
            ..
        } => r matches PackageResourceBlob::CompressedMemory {
            data,
            decompressed_size,
            is_scrambled: scr,
        } && data@ == contents && scr == is_scrambled && decompressed_size == (
        if compressed_size is Some {
            Some(size)
        } else {
            None
        }),
        _ => r == blob,
    }
}

/// The span of a file that backs `blob`: the path, the offset and the
/// number of bytes, or `None` for a blob in memory.
pub open spec fn file_span(blob: PackageResourceBlob) -> Option<(Seq<char>, u64, u32)> {
    match blob {
        PackageResourceBlob::File { path, size, .. } => Some((path@, 0u64, size)),
        PackageResourceBlob::FileAtOffset { path, offset, size, compressed_size, .. } => Some(
            (
                path@,
                offset,
                match compressed_size {
                    Some(stored) => stored,
                    None => size,
                },
            ),
        ),
        _ => None,
    }
}

impl PackageResourceBlob {
    /// The blob with the bytes of its file filled in: a whole file becomes
    /// bytes in memory that are compressed and scrambled at build time as
    /// the blob asks, a span of a file becomes bytes in stored form. A blob
    /// in memory stays as it is.
    pub fn loaded(self, contents: Vec<u8>) -> (r: PackageResourceBlob)
        ensures
            is_loaded(self, contents@, r),
    {
        match self {
            PackageResourceBlob::File { compression_level, should_scramble, .. } => {
                PackageResourceBlob::Memory { data: contents, compression_level, should_scramble }
            },
            PackageResourceBlob::FileAtOffset { size, compressed_size, is_scrambled, .. } => {
                PackageResourceBlob::CompressedMemory {
                    data: contents,
                    decompressed_size: match compressed_size {
                        Some(_) => Some(size),
                        None => None,
                    },
                    is_scrambled,
                }
            },
            other => other,
        }
    }

    /// Brings the blob into the form in which the archive stores it.
    /// Version 1 compresses with LZ4, version 2 with LZ4-HC, at the level
    /// given, into a buffer of the compressor's bound; compression comes
    /// first, scrambling second. It fails exactly for a blob that
    /// `store_refused` describes.
    pub fn store(&self, version: PackageVersion) -> (r: Result<StoredBlob, PackageBuilderError>)
        requires
            self.wf(),
        ensures
            r matches Ok(stored) ==> admissible(*self, stored) && stored.wf(),
            r is Ok <==> !store_refused(*self),
            r matches Err(e) ==> match self {
                PackageResourceBlob::File { .. } => e is IoError,
                PackageResourceBlob::FileAtOffset { .. } => e is IoError,
                PackageResourceBlob::Memory { .. } => e is Lz4CompressionError,
                PackageResourceBlob::CompressedMemory { .. } => e is SerializationError,
            },
    {
        match self {
            PackageResourceBlob::File { .. } => Err(
                PackageBuilderError::IoError("the file of a resource was not loaded".to_string()),
            ),
            PackageResourceBlob::FileAtOffset { .. } => Err(
                PackageBuilderError::IoError("the file of a resource was not loaded".to_string()),
            ),
            PackageResourceBlob::CompressedMemory { data, decompressed_size, is_scrambled } => {
                let compressed_size = match decompressed_size {
                    Some(_) => {
                        if data.len() >= 0x8000_0000 {
                            return Err(
                                PackageBuilderError::SerializationError(
                                    "the compressed size does not fit 31 bits".to_string(),
                                ),
                            );
                        }
                        Some(data.len() as u32)
                    },
                    None => None,
                };
                Ok(StoredBlob { bytes: data.clone(), compressed_size, is_scrambled: *is_scrambled })
            },
            PackageResourceBlob::Memory { data, compression_level, should_scramble } => {
                match compression_level {
                    Some(level) => {
                        let bound: usize = if data.len() <= LZ4_MAX_INPUT {
                            lz4_max_compressed_size(data.len())
                        } else {
                            0
                        };
                        let mut buffer = vec![0u8; bound];
                        let written = match version {
                            PackageVersion::RPKGv1 => lz4_compress(
                                data.as_slice(),
                                &mut buffer,
                                *level,
                            ),
                            PackageVersion::RPKGv2 => lz4_hc_compress(
                                data.as_slice(),
                                &mut buffer,
                                *level,
                            ),
                        };
                        let n = match written {
                            Ok(n) => n,
                            Err(e) => {
                                return Err(PackageBuilderError::Lz4CompressionError(e));
                            },
                        };
                        buffer.truncate(n);
                        proof {
                            law_scramble_involutive(buffer@);
                        }
                        let bytes = if *should_scramble {
                            scramble(buffer.as_slice())
                        } else {
                            buffer
                        };
                        Ok(
                            StoredBlob {
                                bytes,
                                compressed_size: Some(n as u32),
                                is_scrambled: *should_scramble,
                            },
                        )
                    },
                    None => {
                        let bytes = if *should_scramble {
                            scramble(data.as_slice())
                        } else {
                            data.clone()
                        };
                        Ok(
                            StoredBlob {
                                bytes,
                                compressed_size: None,
                                is_scrambled: *should_scramble,
                            },
                        )
                    },
                }
            },
        }
    }
}

impl PackageBuilder {
    /// The span of the file that backs the resource at `at`, for a caller
    /// that reads it and hands the bytes to `load_resource`: `None` for a
    /// resource in memory, and where there is no such resource.
    pub fn file_span_of(&self, at: usize) -> (r: Option<(String, u64, u32)>)
        ensures
            match r {
                Some((path, offset, size)) => at < self.resources@.len() && file_span(
                    self.resources@[at as int].blob,
                ) == Some((path@, offset, size)),
                None => at >= self.resources@.len() || file_span(self.resources@[at as int].blob)
                    is None,
            },
    {
        if at >= self.resources.len() {
            return None;
        }
        match &self.resources[at].blob {
            PackageResourceBlob::File { path, size, .. } => Some((path.clone(), 0, *size)),
            PackageResourceBlob::FileAtOffset { path, offset, size, compressed_size, .. } => Some(
                (
                    path.clone(),
                    *offset,
                    match compressed_size {
                        Some(stored) => *stored,
                        None => *size,
                    },
                ),
            ),
            _ => None,
        }
    }

    /// The number of resources.
    pub fn resource_count(&self) -> (r: usize)
        ensures
            r == self.resources@.len(),
    {
        self.resources.len()
    }

    /// Fills in the bytes `contents` of the file that backs the resource at
    /// `at`, as `PackageResourceBlob::loaded` does. Nothing changes, and
    /// `false` comes back, where there is no such resource or 32 bits
    /// cannot count the bytes.
    pub fn load_resource(&mut self, at: usize, contents: Vec<u8>) -> (done: bool)
        requires
            old(self).wf(),
        ensures
            final(self).wf(),
            final(self).partition_id == old(self).partition_id,
            final(self).patch_id == old(self).patch_id,
            final(self).legacy_references == old(self).legacy_references,
            final(self).unneeded_resources == old(self).unneeded_resources,
            done == (at < old(self).resources@.len() && contents@.len() <= u32::MAX),
            !done ==> final(self).resources@ == old(self).resources@,
            done ==> {
                let before = old(self).resources@[at as int];
                let after = final(self).resources@[at as int];
                &&& final(self).resources@.len() == old(self).resources@.len()
                &&& forall|k: int|
                    0 <= k < old(self).resources@.len() && k != at ==> final(self).resources@[k]
                        == old(self).resources@[k]
                &&& after.rrid == before.rrid
                &&& after.resource_type == before.resource_type
                &&& after.system_memory_requirement == before.system_memory_requirement
                &&& after.video_memory_requirement == before.video_memory_requirement
                &&& after.references == before.references
                &&& is_loaded(before.blob, contents@, after.blob)
            },
    {
        if at >= self.resources.len() || contents.len() > u32::MAX as usize {
            return false;
        }
        let ghost ids = resource_ids(self.resources@);
        let ghost given = self.resources@;
        let PackageResourceBuilder {
            rrid,
            blob,
            resource_type,
            system_memory_requirement,
            video_memory_requirement,
            references,
        } = self.resources.remove(at);
        let ghost had = blob;
        assert(given[at as int].wf());
        let filled = blob.loaded(contents);
        assert(filled.wf());
        self.resources.insert(
            at,
            PackageResourceBuilder {
                rrid,
                blob: filled,
                resource_type,
                system_memory_requirement,
                video_memory_requirement,
                references,
            },
        );
        proof {
            assert(self.resources@.len() == given.len());
            assert forall|k: int| 0 <= k < given.len() && k != at implies self.resources@[k]
                == given[k] by {}
            assert(resource_ids(self.resources@) =~= ids);
            assert forall|k: int| 0 <= k < self.resources@.len() implies (
            #[trigger] self.resources@[k]).wf() by {
                if k != at {
                    assert(given[k].wf());
                }
            }
        }
        true
    }

    /// Builds the package for the given version and returns it as a byte
    /// vector.
    ///
    /// The tables are checked first; `table_error` says when and how that
    /// fails. Each resource is then brought into its stored form, in order,
    /// which fails exactly for a resource that `store_refused` describes.
    /// The package is `archive_bytes` of the stored forms; should its
    /// payloads reach past what 64 bits can address, the build fails with
    /// `SerializationError`, which cannot happen where `payload_bound` of
    /// the resources fits.
    ///
    /// # Arguments
    /// * `version` - The version of the package to build.
    pub fn build_in_memory(self, version: PackageVersion) -> (r: Result<
        Vec<u8>,
        PackageBuilderError,
    >)
        requires
            self.wf(),
        ensures
            self.table_error() matches Some(e) ==> r == Err::<Vec<u8>, PackageBuilderError>(e),
            r matches Ok(bytes) ==> self.table_error() is None && exists|stored: Seq<StoredBlob>|
                {
                    &&& stored.len() == self.resources@.len()
                    &&& forall|i: int|
                        0 <= i < stored.len() ==> admissible(
                            self.resources@[i].blob,
                            #[trigger] stored[i],
                        )
                    &&& self.offsets_fit(version, stored)
                    &&& bytes@ == self.archive_bytes(version, stored)
                },
            (exists|i: int|
                0 <= i < self.resources@.len() && store_refused(
                    (#[trigger] self.resources@[i]).blob,
                )) ==> r is Err,
            self.table_error() is None && (forall|i: int|
                0 <= i < self.resources@.len() ==> stored_as_is(
                    (#[trigger] self.resources@[i]).blob,
                ) is Some) && r is Err ==> r matches Err(PackageBuilderError::SerializationError(_)),
            self.table_error() is None && (forall|i: int|
                0 <= i < self.resources@.len() ==> stored_as_is(
                    (#[trigger] self.resources@[i]).blob,
                ) is Some) ==> (r is Ok <==> self.head_bytes(version).len() + 20
                * self.resources@.len() + metadata_table_len(self.resources@) + payload_bound(
                self.resources@,
            ) <= u64::MAX),
            self.table_error() is None && (forall|i: int|
                0 <= i < self.resources@.len() ==> !store_refused(
                    (#[trigger] self.resources@[i]).blob,
                )) && self.head_bytes(version).len() + 20 * self.resources@.len()
                + metadata_table_len(self.resources@) + payload_bound(self.resources@) <= u64::MAX
                ==> r is Ok,
    {
        let meta_size = match self.check_tables() {
            Ok(n) => n,
            Err(e) => {
                return Err(e);
            },
        };
        let head = self.write_head(version);
        proof {
            self.lemma_tables_fit();
            self.lemma_head_len(version);
        }
        let mut total: u64 = head.len() as u64 + 20 * (self.resources.len() as u64)
            + meta_size as u64;
        let ghost fixed = total as int;
        let mut stored: Vec<StoredBlob> = Vec::new();
        let mut i: usize = 0;
        assert(payload_len(stored@) == 0);
        assert(payload_bound(self.resources@.take(0)) == 0);
        while i < self.resources.len()
            invariant
                i <= self.resources@.len(),
                self.wf(),
                self.table_error() is None,
                stored@.len() == i,
                fixed == self.head_bytes(version).len() + 20 * self.resources@.len()
                    + metadata_table_len(self.resources@),
                total == fixed + payload_len(stored@),
                forall|k: int|
                    0 <= k < i ==> admissible(self.resources@[k].blob, #[trigger] stored@[k])
                        && stored@[k].wf(),
                forall|k: int|
                    0 <= k < i ==> !store_refused((#[trigger] self.resources@[k]).blob),
                (forall|k: int|
                    0 <= k < self.resources@.len() ==> stored_as_is(
                        (#[trigger] self.resources@[k]).blob,
                    ) is Some) ==> payload_len(stored@) == payload_bound(
                    self.resources@.take(i as int),
                ),
                payload_len(stored@) <= payload_bound(self.resources@.take(i as int)),
            decreases self.resources@.len() - i,
        {
            assert(self.resources@[i as int].wf());
            proof {
                lemma_payload_bound_grows(self.resources@, i as int);
                lemma_payload_bound_grows(self.resources@, i + 1);
            }
            let blob = match self.resources[i].blob.store(version) {
                Ok(blob) => blob,
                Err(e) => {
                    return Err(e);
                },
            };
            let size = blob.bytes.len() as u64;
            if size > u64::MAX - total {
                return Err(
                    PackageBuilderError::SerializationError(
                        "the payloads reach past what 64 bits can address".to_string(),
                    ),
                );
            }
            total = total + size;
            let ghost before = stored@;
            stored.push(blob);
            proof {
                assert(stored@.drop_last() =~= before);
            }
            i += 1;
        }
        assert(self.resources@.take(i as int) =~= self.resources@);
        Ok(self.assemble(version, &stored, meta_size))
    }
}


/// `ids` without repetitions: each identifier once, at the place of its
/// first occurrence.
pub open spec fn deduplicated(ids: Seq<RuntimeResourceID>) -> Seq<u64>
    decreases ids.len(),
{
    if ids.len() == 0 {
        Seq::empty()
    } else {
        let before = deduplicated(ids.drop_last());
        if before.contains(ids.last().id) {
            before
        } else {
            before.push(ids.last().id)
        }
    }
}

/// The type of a parsed resource as the builder stores it again: the text
/// of its four bytes, written back to bytes.
pub open spec fn copied_type(info: ResourceInfoView) -> Option<Seq<u8>> {
    type_bytes(shown_text(info.header.resource_type@).reverse())
}

/// Whether the resource `info` of a parsed package can be taken over from
/// its source: its type can be written back in four bytes, and its bytes
/// lie inside the source, which for a file must also hold their first byte.
pub open spec fn copyable(info: ResourceInfoView, source: ResourcePackageSource, file_len: u64) -> bool {
    &&& copied_type(info) is Some
    &&& match source {
        ResourcePackageSource::File(_) => info.entry.data_offset < file_len
            && info.entry.data_offset + info.stored_size() <= file_len,
        ResourcePackageSource::Memory(data) => info.entry.data_offset + info.stored_size()
            <= data@.len(),
    }
}

/// Whether `resource` takes over the resource `info` of a parsed package
/// with the source `source`: the same identifier, type, memory
/// requirements and references, and the stored bytes as they are, copied
/// for a source in memory and named by their place for a file.
pub open spec fn takes_over(
    resource: PackageResourceBuilder,
    info: ResourceInfoView,
    source: ResourcePackageSource,
) -> bool {
    &&& resource.rrid == info.entry.runtime_resource_id
    &&& Some(resource.resource_type@) == copied_type(info)
    &&& vstd::utf8::valid_utf8(info.header.resource_type@) ==> resource.resource_type@
        == info.header.resource_type@
    &&& resource.system_memory_requirement == info.header.system_memory_requirement
    &&& resource.video_memory_requirement == info.header.video_memory_requirement
    &&& resource.references@ == info.header.references
    &&& match source {
        ResourcePackageSource::File(path) => resource.blob matches PackageResourceBlob::FileAtOffset {
            path: p,
            offset,
            size,
            compressed_size,
            is_scrambled,
        } && p@ == path@ && offset == info.entry.data_offset && size == info.header.data_size
            && compressed_size == info.entry.compressed() && is_scrambled
            == info.entry.flags.scrambled_bit(),
        ResourcePackageSource::Memory(data) => resource.blob matches PackageResourceBlob::CompressedMemory {
            data: d,
            decompressed_size,
            is_scrambled,
        } && Some(d@) == stored_bytes(data@, info) && decompressed_size == (
        if info.entry.flags.size_bits() != 0 {
            Some(info.header.data_size)
        } else {
            None
        }) && is_scrambled == info.entry.flags.scrambled_bit(),
    }
}

/// Whether `builder` is what duplicating `package`, whose source is
/// `source`, gives: the partition number of its metadata block (partition
/// 0 where it has none); a patch, with the patch number of that block,
/// exactly where the package was read as a patch; the layout of references
/// in which its references were read, the legacy one where any of them
/// was; its resources in their order, each taken over as it is; and its
/// deleted resources, each once.
#[verifier::opaque]
pub open spec fn duplicate_of(
    builder: PackageBuilder,
    package: ResourcePackage,
    source: ResourcePackageSource,
) -> bool {
    &&& builder.wf()
    &&& builder.legacy_references == legacy_layout(package@.resources)
    &&& builder.partition_id.index == match package.metadata {
        Some(m) => m.chunk_id as usize,
        None => 0,
    }
    &&& builder.partition_id.part_type@ == match package.metadata {
        Some(m) => match m.chunk_type {
            ChunkType::Standard => PartitionTypeView::Standard,
            ChunkType::Addon => PartitionTypeView::Addon,
        },
        None => PartitionTypeView::Standard,
    }
    &&& builder.patch_id == if package.is_patch {
        PatchId::Patch(
            match package.metadata {
                Some(m) => m.patch_id as usize,
                None => 0,
            },
        )
    } else {
        PatchId::Base
    }
    &&& builder.resources@.len() == package@.resources.len()
    &&& forall|i: int|
        0 <= i < builder.resources@.len() ==> takes_over(
            #[trigger] builder.resources@[i],
            package@.resources[i],
            source,
        )
    &&& builder.unneeded() == deduplicated(
        match package@.unneeded_resources {
            Some(ids) => ids,
            None => Seq::empty(),
        },
    )
}

impl PackageBuilder {
    /// Takes over one resource of a parsed package.
    fn duplicate_resource(info: &ResourceInfo, source: &ResourcePackageSource, file_len: u64) -> (r:
        Result<PackageResourceBuilder, PackageBuilderError>)
        ensures
            copyable(info@, *source, file_len) ==> r is Ok,
            !copyable(info@, *source, file_len) ==> (r matches Err(
                PackageBuilderError::CannotDuplicateResource(id, _),
            ) && id == info.entry.runtime_resource_id),
            r matches Ok(resource) ==> resource.wf() && takes_over(resource, info@, *source),
    {
        let rrid = info.entry.runtime_resource_id;
        let made = match source {
            ResourcePackageSource::File(source_path) => PackageResourceBuilder::from_file_at_offset(
                rrid,
                info.data_type().as_str(),
                source_path.as_str(),
                file_len,
                info.entry.data_offset,
                info.header.data_size,
                info.compressed_size(),
                info.is_scrambled(),
            ),
            ResourcePackageSource::Memory(source_data) => {
                let read_size = match info.compressed_size() {
                    Some(n) => n,
                    None => info.header.data_size,
                };
                let decompressed_size = if info.is_compressed() {
                    Some(info.header.data_size)
                } else {
                    None
                };
                match copy_span(source_data.as_slice(), info.entry.data_offset, read_size) {
                    Some(bytes) => PackageResourceBuilder::from_compressed_memory(
                        rrid,
                        info.data_type().as_str(),
                        bytes,
                        decompressed_size,
                        info.is_scrambled(),
                    ),
                    None => Err(PackageResourceBuilderError::InvalidFileBlobSize),
                }
            },
        };
        let mut builder = match made {
            Ok(builder) => builder,
            Err(e) => {
                return Err(PackageBuilderError::CannotDuplicateResource(rrid, e));
            },
        };
        proof {
            let tag = info.header.resource_type@;
            if vstd::utf8::valid_utf8(tag) {
                let text = vstd::utf8::decode_utf8(tag);
                assert(text.reverse().reverse() =~= text);
                vstd::utf8::decode_utf8_encode_utf8(tag);
            }
        }
        builder.with_memory_requirements(
            info.system_memory_requirement(),
            info.video_memory_requirement(),
        );
        let refs = info.references();
        let mut i: usize = 0;
        while i < refs.len()
            invariant
                i <= refs@.len(),
                refs@ == info@.header.references,
                builder.references@ == refs@.take(i as int),
                builder.rrid == rrid,
                rrid == info.entry.runtime_resource_id,
                builder.wf(),
                Some(builder.resource_type@) == copied_type(info@),
                vstd::utf8::valid_utf8(info.header.resource_type@) ==> builder.resource_type@
                    == info.header.resource_type@,
                builder.system_memory_requirement == info.header.system_memory_requirement,
                builder.video_memory_requirement == info.header.video_memory_requirement,
                takes_over(
                    PackageResourceBuilder {
                        rrid: builder.rrid,
                        blob: builder.blob,
                        resource_type: builder.resource_type,
                        system_memory_requirement: builder.system_memory_requirement,
                        video_memory_requirement: builder.video_memory_requirement,
                        references: *refs,
                    },
                    info@,
                    *source,
                ),
            decreases refs@.len() - i,
        {
            let (id, flags) = refs[i];
            builder.with_reference(id, flags);
            i += 1;
            assert(refs@.take(i as int) =~= refs@.take(i - 1).push(refs@[i - 1]));
        }
        assert(refs@.take(refs@.len() as int) =~= refs@);
        Ok(builder)
    }

    /// Creates a new package builder by duplicating an existing
    /// ResourcePackage: its partition and patch numbers where it has a
    /// metadata block, its resources in their order with their stored bytes
    /// as they are, and its deleted resources. A package that was read as a
    /// patch is built as a patch, and the references are written in the
    /// layout in which they were read, so that what is built of an
    /// unchanged duplicate is the package that was read.
    ///
    /// A package without a source gives `NoSource`. A resource that is not
    /// `copyable` gives `CannotDuplicateResource` with its identifier.
    ///
    /// # Arguments
    /// * `resource_package` - The ResourcePackage to duplicate.
    /// * `file_len` - The size of the file, for a package whose source is a file.
    pub fn from_resource_package(resource_package: &ResourcePackage, file_len: u64) -> (r: Result<
        Self,
        PackageBuilderError,
    >)
        requires
            resource_package.wf(),
        ensures
            resource_package.source is None ==> r matches Err(PackageBuilderError::NoSource),
            resource_package.source matches Some(source) ==> {
                &&& r is Ok <==> forall|i: int|
                    0 <= i < resource_package@.resources.len() ==> copyable(
                        #[trigger] resource_package@.resources[i],
                        source,
                        file_len,
                    )
                &&& r matches Err(e) ==> e is CannotDuplicateResource
                &&& r matches Ok(builder) ==> builder.wf() && duplicate_of(
                    builder,
                    *resource_package,
                    source,
                )
            },
    {
        let source = match &resource_package.source {
            Some(source) => source,
            None => {
                return Err(PackageBuilderError::NoSource);
            },
        };
        let (chunk_type, chunk_id, patch) = match &resource_package.metadata {
            Some(m) => (m.chunk_type, m.chunk_id, m.patch_id),
            None => (ChunkType::Standard, 0u8, 0u8),
        };
        let mut package = Self::new(chunk_id, chunk_type);
        if resource_package.is_patch {
            package.with_patch_id(&PatchId::Patch(patch as usize));
        }
        let legacy = resource_package.has_legacy_references();
        if legacy {
            package.use_legacy_references();
        }
        let table = &resource_package.resources;
        let mut i: usize = 0;
        while i < table.len()
            invariant
                i <= table@.len(),
                resource_package.wf(),
                table@ == resource_package.resources@,
                resource_package.source == Some(*source),
                package.wf(),
                package.legacy_references == legacy_layout(resource_package@.resources),
                package.unneeded().len() == 0,
                package.partition_id.index == chunk_id,
                package.partition_id.part_type@ == match chunk_type {
                    ChunkType::Standard => PartitionTypeView::Standard,
                    ChunkType::Addon => PartitionTypeView::Addon,
                },
                package.patch_id == if resource_package.is_patch {
                    PatchId::Patch(patch as usize)
                } else {
                    PatchId::Base
                },
                package.resources@.len() == i,
                resource_ids(package.resources@) == ids_of(resource_package@.resources).take(
                    i as int,
                ),
                forall|k: int|
                    0 <= k < i ==> takes_over(
                        #[trigger] package.resources@[k],
                        resource_package@.resources[k],
                        *source,
                    ),
                forall|k: int|
                    0 <= k < i ==> copyable(
                        #[trigger] resource_package@.resources[k],
                        *source,
                        file_len,
                    ),
            decreases table@.len() - i,
        {
            let ghost infos = resource_package@.resources;
            assert(infos[i as int] == table@[i as int]@);
            let resource = match Self::duplicate_resource(&table[i], source, file_len) {
                Ok(resource) => resource,
                Err(e) => {
                    return Err(e);
                },
            };
            proof {
                let ids = resource_ids(package.resources@);
                let id = resource.rrid.id;
                assert(id == ids_of(infos)[i as int]);
                if ids.contains(id) {
                    let k = ids.index_of(id);
                    assert(ids[k] == id);
                    assert(ids_of(infos)[k] == infos[k].id());
                    assert(infos[k].id() != infos[i as int].id());
                }
            }
            let ghost before = package.resources@;
            package.with_resource(resource);
            proof {
                assert(package.resources@ == before.push(resource));
                assert(resource_ids(package.resources@) =~= ids_of(infos).take(i + 1));
            }
            i += 1;
        }
        let ids = resource_package.unneeded_resource_ids();
        let mut j: usize = 0;
        assert(deduplicated(ids@.take(0)) =~= Seq::<u64>::empty());
        assert(package.unneeded() =~= Seq::<u64>::empty());
        while j < ids.len()
            invariant
                j <= ids@.len(),
                package.wf(),
                package.legacy_references == legacy_layout(resource_package@.resources),
                package.partition_id.index == chunk_id,
                package.partition_id.part_type@ == match chunk_type {
                    ChunkType::Standard => PartitionTypeView::Standard,
                    ChunkType::Addon => PartitionTypeView::Addon,
                },
                package.patch_id == if resource_package.is_patch {
                    PatchId::Patch(patch as usize)
                } else {
                    PatchId::Base
                },
                package.resources@.len() == resource_package@.resources.len(),
                forall|k: int|
                    0 <= k < package.resources@.len() ==> takes_over(
                        #[trigger] package.resources@[k],
                        resource_package@.resources[k],
                        *source,
                    ),
                package.unneeded() == deduplicated(ids@.take(j as int)),
            decreases ids@.len() - j,
        {
            proof {
                assert(ids@.take(j + 1).drop_last() =~= ids@.take(j as int));
            }
            package.with_unneeded_resource(ids[j]);
            j += 1;
        }
        assert(ids@.take(ids@.len() as int) =~= ids@);
        reveal(duplicate_of);
        Ok(package)
    }
}

} // verus!
