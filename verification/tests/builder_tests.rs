use rpkg_rs::misc::resource_id::ResourceID;
use rpkg_rs::resource::package_builder::{
    PackageBuilder, PackageBuilderError, PackageResourceBlob, PackageResourceBuilder,
    PackageResourceBuilderError,
};
use rpkg_rs::resource::reference_flags::{
    ReferenceType, ResourceReferenceFlags, ResourceReferenceFlagsV1, ResourceReferenceFlagsV2,
};
use rpkg_rs::resource::resource_package::{
    ChunkType, PackageVersion, ParsingFailure, ResourcePackage, ResourcePackageError,
};
use rpkg_rs::resource::pdefs::{PartitionId, PartitionType};
use rpkg_rs::resource::resource_partition::PatchId;
use rpkg_rs::resource::runtime_resource_id::RuntimeResourceID;
use std::str::FromStr;

fn rrid_of(path: &str) -> RuntimeResourceID {
    RuntimeResourceID::from_resource_id(&ResourceID::from_str(path).unwrap())
}

fn test_package_with_resource(
    compression_level: Option<i32>,
    should_scramble: bool,
    version: PackageVersion,
    is_patch: bool,
    legacy_references: bool,
) {
    let resource_id = ResourceID::from_str("[assembly:/res1.brick].pc_entitytype").unwrap();

    let unneeded_resource_ids = vec![
        rrid_of("[assembly:/res2.brick].pc_entitytype"),
        rrid_of("[assembly:/res3.brick].pc_entitytype"),
    ];

    let references = vec![
        rrid_of("[assembly:/ref1.brick].pc_entitytype"),
        rrid_of("[assembly:/ref2.brick].pc_entitytype"),
    ];

    let resource_reference_flags = if legacy_references {
        ResourceReferenceFlags::V1(
            ResourceReferenceFlagsV1::new()
                .with_runtime_acquired(true)
                .with_install_dependency(true),
        )
    } else {
        ResourceReferenceFlags::V2(ResourceReferenceFlagsV2::new().with_language_code(0x1F))
    };

    // Start building the package.
    let mut builder = PackageBuilder::new(69, ChunkType::Standard);

    // Create a fake resource id and data for the resource.
    let rrid: RuntimeResourceID = RuntimeResourceID::from_resource_id(&resource_id);
    let fake_data: Vec<u8> = (0..1024).map(|j| j as u8).collect();

    // Create a resource from memory and add it to the package.
    let mut resource = PackageResourceBuilder::from_memory(
        rrid,
        "TEMP",
        fake_data.clone(),
        compression_level,
        should_scramble,
    )
    .unwrap();

    for reference in &references {
        resource.with_reference(*reference, resource_reference_flags.clone());
    }

    builder.with_resource(resource);

    if is_patch {
        builder.with_patch_id(&PatchId::Patch(1));

        // Add some unneeded resources.
        for rrid in &unneeded_resource_ids {
            builder.with_unneeded_resource(*rrid);
        }
    }
    if legacy_references {
        builder.use_legacy_references();
    }

    // Build the package in memory.
    let package_data = builder.build_in_memory(version).unwrap();

    // Now let's try to parse it again.
    let package = ResourcePackage::from_memory(package_data, is_patch).unwrap();
    assert_eq!(package.version(), version);
    assert_eq!(package.header.file_count, 1);
    assert_eq!(package.has_legacy_references(), legacy_references);

    // Check that its data is what was put in.
    let resource_data = package.read_resource(&rrid).unwrap();
    assert_eq!(resource_data, fake_data, "Resource data doesn't match");

    // Check that the references are correct and in the right order.
    let resource_info = package.get(&rrid).unwrap();
    assert_eq!(resource_info.is_compressed(), compression_level.is_some());
    assert_eq!(resource_info.is_scrambled(), should_scramble);
    assert_eq!(resource_info.data_type(), "TEMP");
    assert_eq!(resource_info.references().len(), references.len());

    for (i, (rrid, flags)) in resource_info.references().iter().enumerate() {
        let reference = references[i];
        assert_eq!(*rrid, reference, "Reference at index {} doesn't match", i);
        assert_eq!(
            *flags, resource_reference_flags,
            "Reference flags at index {} don't match",
            i
        );
        if legacy_references {
            assert_eq!(flags.reference_type(), ReferenceType::INSTALL);
            assert!(flags.is_acquired());
        }
    }

    // Check that the unneeded resources are correct.
    if is_patch {
        let parsed_unneeded_resource_ids = package.unneeded_resource_ids();

        assert_eq!(
            parsed_unneeded_resource_ids.len(),
            unneeded_resource_ids.len(),
            "Number of unneeded resources doesn't match"
        );

        for (i, rrid) in parsed_unneeded_resource_ids.iter().enumerate() {
            let expected_rrid = unneeded_resource_ids[i];
            assert_eq!(
                *rrid, expected_rrid,
                "Unneeded resource at index {} doesn't match",
                i
            );
        }
    }
}

#[test]
fn test_simple_rpkg_v1() {
    test_package_with_resource(None, false, PackageVersion::RPKGv1, false, false)
}

#[test]
fn test_compression_rpkg_v1() {
    test_package_with_resource(Some(4), false, PackageVersion::RPKGv1, false, false)
}

#[test]
fn test_scrambling_rpkg_v1() {
    test_package_with_resource(None, true, PackageVersion::RPKGv1, false, false)
}

#[test]
fn test_compression_and_scrambling_rpkg_v1() {
    test_package_with_resource(Some(4), true, PackageVersion::RPKGv1, false, false)
}

#[test]
fn test_simple_rpkg_v2() {
    test_package_with_resource(None, false, PackageVersion::RPKGv2, false, false)
}

#[test]
fn test_compression_rpkg_v2() {
    test_package_with_resource(Some(4), false, PackageVersion::RPKGv2, false, false)
}

#[test]
fn test_scrambling_rpkg_v2() {
    test_package_with_resource(None, true, PackageVersion::RPKGv2, false, false)
}

#[test]
fn test_compression_and_scrambling_rpkg_v2() {
    test_package_with_resource(Some(4), true, PackageVersion::RPKGv2, false, false)
}

#[test]
fn test_patch_rpkg_v1() {
    test_package_with_resource(None, false, PackageVersion::RPKGv1, true, false)
}

#[test]
fn test_compressed_and_scrambled_patch_rpkg_v1() {
    test_package_with_resource(Some(4), true, PackageVersion::RPKGv1, true, false)
}

#[test]
fn test_legacy_rpkg_v1() {
    test_package_with_resource(None, false, PackageVersion::RPKGv1, false, true)
}

#[test]
fn test_legacy_patch_rpkg_v1() {
    test_package_with_resource(None, false, PackageVersion::RPKGv1, true, true)
}

#[test]
fn test_legacy_compressed_and_scrambled_patch_rpkg_v1() {
    test_package_with_resource(Some(4), true, PackageVersion::RPKGv1, true, true)
}

#[test]
fn test_legacy_rpkg_v2() {
    test_package_with_resource(None, false, PackageVersion::RPKGv2, false, true)
}

#[test]
fn test_legacy_patch_rpkg_v2() {
    test_package_with_resource(None, false, PackageVersion::RPKGv2, true, true)
}

#[test]
fn test_legacy_compressed_and_scrambled_patch_rpkg_v2() {
    test_package_with_resource(Some(4), true, PackageVersion::RPKGv2, true, true)
}

fn rebuild(bytes: &[u8], is_patch: bool) -> Vec<u8> {
    let package = ResourcePackage::from_memory(bytes.to_vec(), is_patch).unwrap();
    let version = package.version();
    let builder = PackageBuilder::from_resource_package(&package, bytes.len() as u64).unwrap();
    builder.build_in_memory(version).unwrap()
}

fn sample(
    version: PackageVersion,
    patch: PatchId,
    legacy_references: bool,
    compression_level: Option<i32>,
    should_scramble: bool,
) -> Vec<u8> {
    let mut builder = PackageBuilder::new(7, ChunkType::Addon);
    builder.with_patch_id(&patch);
    if legacy_references {
        builder.use_legacy_references();
    }
    for n in 0..5u64 {
        let data: Vec<u8> = (0..(100 * n)).map(|i| (i % 7) as u8).collect();
        let mut resource = PackageResourceBuilder::from_memory(
            RuntimeResourceID::from(0x1000 + n),
            "PRIM",
            data,
            compression_level,
            should_scramble,
        )
        .unwrap();
        resource.with_memory_requirements(n as u32, 1000 - n as u32);
        for m in 0..n {
            resource.with_reference(
                RuntimeResourceID::from(0x2000 + m),
                ResourceReferenceFlags::V2(
                    ResourceReferenceFlagsV2::new()
                        .with_reference_type(ReferenceType::WEAK)
                        .with_language_code(m as u8),
                ),
            );
        }
        builder.with_resource(resource);
    }
    if patch.is_patch() {
        builder.with_unneeded_resource(RuntimeResourceID::from(0x3000));
        builder.with_unneeded_resource(RuntimeResourceID::from(0x3001));
    }
    builder.build_in_memory(version).unwrap()
}

#[test]
fn rebuilding_an_archive_gives_the_same_bytes() {
    for version in [PackageVersion::RPKGv1, PackageVersion::RPKGv2] {
        for patch in [PatchId::Base, PatchId::Patch(3)] {
            for legacy in [false, true] {
                for (level, scramble) in
                    [(None, false), (None, true), (Some(4), false), (Some(9), true)]
                {
                    let bytes = sample(version, patch, legacy, level, scramble);
                    assert_eq!(rebuild(&bytes, patch.is_patch()), bytes);
                }
            }
        }
    }
    // A patch that deletes nothing keeps its empty list of deleted resources.
    for version in [PackageVersion::RPKGv1, PackageVersion::RPKGv2] {
        let mut builder = PackageBuilder::new_with_patch_id(
            PartitionId { part_type: PartitionType::Standard, index: 4 },
            PatchId::Patch(1),
        );
        builder.with_resource(
            PackageResourceBuilder::from_memory(RuntimeResourceID::from(5), "TEMP", vec![1, 2], None, false)
                .unwrap(),
        );
        let bytes = builder.build_in_memory(version).unwrap();
        assert_eq!(rebuild(&bytes, true), bytes);
    }
    // The duplicate is a patch, and uses the legacy layout, as the archive does.
    let bytes = sample(PackageVersion::RPKGv1, PatchId::Patch(3), true, None, false);
    let package = ResourcePackage::from_memory(bytes.clone(), true).unwrap();
    assert!(package.is_patch);
    assert!(package.has_legacy_references());
    let builder = PackageBuilder::from_resource_package(&package, bytes.len() as u64).unwrap();
    assert!(builder.legacy_references);
    assert_eq!(builder.patch_id, PatchId::Patch(0));
    let bytes = sample(PackageVersion::RPKGv2, PatchId::Patch(3), false, None, false);
    let package = ResourcePackage::from_memory(bytes.clone(), true).unwrap();
    let builder = PackageBuilder::from_resource_package(&package, bytes.len() as u64).unwrap();
    assert!(!builder.legacy_references);
    assert_eq!(builder.patch_id, PatchId::Patch(3));
}

#[test]
fn archive_layout_is_bit_exact() {
    let mut builder = PackageBuilder::new(2, ChunkType::Standard);
    builder.with_patch_id(&PatchId::Patch(1));
    let mut resource = PackageResourceBuilder::from_memory(
        RuntimeResourceID::from(0x00AABBCCDDEEFF11),
        "TEMP",
        vec![0xAA, 0xBB, 0xCC],
        None,
        true,
    )
    .unwrap();
    resource.with_memory_requirements(0x11, 0x22);
    resource.with_reference(
        RuntimeResourceID::from(0x0000000000000102),
        ResourceReferenceFlags::V1(ResourceReferenceFlagsV1::from_bits(0x80)),
    );
    builder.with_resource(resource);
    builder.with_unneeded_resource(RuntimeResourceID::from(0x0000000000000305));
    let bytes = builder.build_in_memory(PackageVersion::RPKGv2).unwrap();
    let expected: Vec<u8> = vec![
        // magic
        0x32, 0x4B, 0x50, 0x52,
        // metadata: the word 1, chunk 2, standard, patch 1, "xx"
        0x01, 0x00, 0x00, 0x00, 0x02, 0x00, 0x01, 0x78, 0x78,
        // header: one file, offset table of 20 bytes, metadata table of 37 bytes
        0x01, 0x00, 0x00, 0x00, 0x14, 0x00, 0x00, 0x00, 0x25, 0x00, 0x00, 0x00,
        // one deleted resource
        0x01, 0x00, 0x00, 0x00, 0x05, 0x03, 0x00, 0x00, 0x00, 0x00, 0x00, 0x00,
        // offset entry: identifier, offset 94, scrambled and not compressed
        0x11, 0xFF, 0xEE, 0xDD, 0xCC, 0xBB, 0xAA, 0x00,
        0x5E, 0x00, 0x00, 0x00, 0x00, 0x00, 0x00, 0x00,
        0x00, 0x00, 0x00, 0x80,
        // metadata entry: type reversed, 13 bytes of references, no states, 3 bytes of data
        0x50, 0x4D, 0x45, 0x54, 0x0D, 0x00, 0x00, 0x00, 0x00, 0x00, 0x00, 0x00,
        0x03, 0x00, 0x00, 0x00, 0x11, 0x00, 0x00, 0x00, 0x22, 0x00, 0x00, 0x00,
        // references in the new layout: count word, flag byte, identifier
        0x01, 0x00, 0x00, 0xC0, 0x1F, 0x02, 0x01, 0x00, 0x00, 0x00, 0x00, 0x00, 0x00,
        // payload, scrambled with DC 45 A6
        0xAA ^ 0xDC, 0xBB ^ 0x45, 0xCC ^ 0xA6,
    ];
    assert_eq!(bytes, expected);
    let package = ResourcePackage::from_memory(bytes, true).unwrap();
    assert_eq!(
        package.read_resource(&RuntimeResourceID::from(0x00AABBCCDDEEFF11)).unwrap(),
        vec![0xAA, 0xBB, 0xCC]
    );
    let metadata = package.metadata.unwrap();
    assert_eq!(
        (metadata.unknown, metadata.chunk_id, metadata.chunk_type, metadata.patch_id),
        (1, 2, ChunkType::Standard, 1)
    );
    assert_eq!(&metadata.language_tag, b"xx");
}

#[test]
fn builder_keeps_one_resource_for_each_identifier() {
    let mut builder = PackageBuilder::new(0, ChunkType::Standard);
    for (id, byte) in [(1u64, 1u8), (2, 2), (1, 3), (3, 4)] {
        builder.with_resource(
            PackageResourceBuilder::from_memory(
                RuntimeResourceID::from(id),
                "TEMP",
                vec![byte],
                None,
                false,
            )
            .unwrap(),
        );
    }
    assert_eq!(builder.resources.len(), 3);
    let bytes = builder.build_in_memory(PackageVersion::RPKGv1).unwrap();
    let package = ResourcePackage::from_memory(bytes, false).unwrap();
    let ids: Vec<u64> = package.resources().iter().map(|r| r.rrid().id).collect();
    // The first place of an identifier is kept, with what was added last.
    assert_eq!(ids, vec![1, 2, 3]);
    assert_eq!(package.read_resource(&RuntimeResourceID::from(1)).unwrap(), vec![3]);
    assert!(package.contains(&RuntimeResourceID::from(2)));
    assert!(!package.contains(&RuntimeResourceID::from(4)));
    assert!(package.get(&RuntimeResourceID::from(4)).is_none());
}

#[test]
fn builder_refuses_what_it_cannot_write() {
    let mut builder = PackageBuilder::new(0, ChunkType::Standard);
    builder.with_unneeded_resource(RuntimeResourceID::from(5));
    assert!(matches!(
        builder.build_in_memory(PackageVersion::RPKGv2),
        Err(PackageBuilderError::UnneededResourcesNotSupported)
    ));
    for bad in ["", "TMP", "TEMPS", "T\u{e9}MP"] {
        assert!(matches!(
            PackageResourceBuilder::from_memory(RuntimeResourceID::from(1), bad, vec![], None, false),
            Err(PackageResourceBuilderError::InvalidResourceType)
        ));
    }
    assert!(matches!(
        PackageResourceBuilder::from_file(
            RuntimeResourceID::from(1),
            "TEMP",
            "some/file",
            u32::MAX as u64,
            None,
            false
        ),
        Err(PackageResourceBuilderError::FileTooLarge)
    ));
    assert!(matches!(
        PackageResourceBuilder::from_file_at_offset(
            RuntimeResourceID::from(1),
            "TEMP",
            "some/file",
            100,
            100,
            1,
            None,
            false
        ),
        Err(PackageResourceBuilderError::InvalidFileOffset)
    ));
    assert!(matches!(
        PackageResourceBuilder::from_file_at_offset(
            RuntimeResourceID::from(1),
            "TEMP",
            "some/file",
            100,
            90,
            20,
            Some(11),
            false
        ),
        Err(PackageResourceBuilderError::InvalidFileBlobSize)
    ));
    // A resource whose file was not loaded cannot be stored.
    let mut builder = PackageBuilder::new(0, ChunkType::Standard);
    builder.with_resource(
        PackageResourceBuilder::from_file(
            RuntimeResourceID::from(1),
            "TEMP",
            "some/file",
            10,
            None,
            false,
        )
        .unwrap(),
    );
    assert!(matches!(
        builder.build_in_memory(PackageVersion::RPKGv2),
        Err(PackageBuilderError::IoError(_))
    ));
    // A package without a source cannot be duplicated.
    let bytes = PackageBuilder::new(0, ChunkType::Standard)
        .build_in_memory(PackageVersion::RPKGv2)
        .unwrap();
    let package = ResourcePackage::parse(&bytes, false).unwrap();
    assert!(matches!(
        PackageBuilder::from_resource_package(&package, 0),
        Err(PackageBuilderError::NoSource)
    ));
}

#[test]
fn reader_refuses_what_is_no_archive() {
    let good = PackageBuilder::new(0, ChunkType::Standard)
        .build_in_memory(PackageVersion::RPKGv2)
        .unwrap();
    assert_eq!(good.len(), 25);
    assert!(ResourcePackage::from_memory(good.clone(), false).is_ok());
    for cut in 0..good.len() {
        assert!(matches!(
            ResourcePackage::from_memory(good[..cut].to_vec(), false),
            Err(ResourcePackageError::ParsingError(ParsingFailure::UnexpectedEnd))
        ));
    }
    let mut magic = good.clone();
    magic[0] = b'X';
    assert!(matches!(
        ResourcePackage::from_memory(magic, false),
        Err(ResourcePackageError::ParsingError(ParsingFailure::UnknownMagic))
    ));
    let mut chunk = good.clone();
    chunk[9] = 2;
    assert!(matches!(
        ResourcePackage::from_memory(chunk, false),
        Err(ResourcePackageError::ParsingError(ParsingFailure::UnknownChunkType))
    ));
    // A file count that the data cannot hold.
    let mut count = good.clone();
    count[13] = 1;
    assert!(matches!(
        ResourcePackage::from_memory(count, false),
        Err(ResourcePackageError::ParsingError(ParsingFailure::UnexpectedEnd))
    ));
    // A resource whose bytes lie past the end of the source.
    let mut builder = PackageBuilder::new(0, ChunkType::Standard);
    builder.with_resource(
        PackageResourceBuilder::from_memory(RuntimeResourceID::from(1), "TEMP", vec![1; 8], None, false)
            .unwrap(),
    );
    let mut bytes = builder.build_in_memory(PackageVersion::RPKGv1).unwrap();
    bytes.truncate(bytes.len() - 1);
    let package = ResourcePackage::from_memory(bytes.clone(), false).unwrap();
    assert!(matches!(
        package.read_resource(&RuntimeResourceID::from(1)),
        Err(ResourcePackageError::IoError(_))
    ));
    assert!(matches!(
        package.read_resource(&RuntimeResourceID::from(2)),
        Err(ResourcePackageError::ResourceNotFound)
    ));
    let sourceless = ResourcePackage::parse(&bytes, false).unwrap();
    assert!(matches!(
        sourceless.read_resource(&RuntimeResourceID::from(1)),
        Err(ResourcePackageError::NoSource)
    ));
    assert_eq!(sourceless.stored_span(&RuntimeResourceID::from(1)).unwrap(), (16 + 20 + 24, 8));
    assert_eq!(
        sourceless.decode_resource(&RuntimeResourceID::from(1), vec![7; 8]).unwrap(),
        vec![7; 8]
    );
    // A compressed resource whose block does not decode.
    let mut builder = PackageBuilder::new(0, ChunkType::Standard);
    builder.with_resource(
        PackageResourceBuilder::from_memory(
            RuntimeResourceID::from(1),
            "TEMP",
            vec![1; 64],
            Some(1),
            false,
        )
        .unwrap(),
    );
    let mut bytes = builder.build_in_memory(PackageVersion::RPKGv1).unwrap();
    let last = bytes.len() - 1;
    bytes.truncate(last);
    bytes.push(0xFF);
    bytes.push(0xFF);
    let package = ResourcePackage::from_memory(bytes, false).unwrap();
    let stored = package.get(&RuntimeResourceID::from(1)).unwrap().compressed_size().unwrap();
    assert!(stored < 64);
    match package.read_resource(&RuntimeResourceID::from(1)) {
        Err(ResourcePackageError::Lz4DecompressionError(_)) => {}
        Ok(data) => assert_eq!(data.len(), 64),
        Err(other) => panic!("{:?}", other),
    }
}

#[test]
fn what_is_built_is_read_back() {
    for version in [PackageVersion::RPKGv1, PackageVersion::RPKGv2] {
        for (level, scramble) in [(None, false), (None, true), (Some(1), false), (Some(7), true)] {
            for patch in [PatchId::Base, PatchId::Patch(2)] {
                let bytes = sample(version, patch, false, level, scramble);
                let package = ResourcePackage::from_memory(bytes, patch.is_patch()).unwrap();
                assert_eq!(package.resources().len(), 5);
                for n in 0..5u64 {
                    let rrid = RuntimeResourceID::from(0x1000 + n);
                    let data: Vec<u8> = (0..(100 * n)).map(|i| (i % 7) as u8).collect();
                    let info = package.get(&rrid).unwrap();
                    assert_eq!(info.rrid(), &rrid);
                    assert_eq!(info.is_scrambled(), scramble);
                    // An empty resource has no compressed form.
                    assert_eq!(info.is_compressed(), level.is_some() && n > 0);
                    let read = package.read_resource(&rrid).unwrap();
                    // As many bytes as the header names, and those that went in.
                    assert_eq!(read.len(), info.size() as usize);
                    assert_eq!(read, data);
                }
                assert_eq!(
                    package.unneeded_resource_ids().len(),
                    if patch.is_patch() { 2 } else { 0 }
                );
            }
        }
    }
}

#[test]
fn file_backed_resources_are_loaded_by_their_span() {
    let mut builder = PackageBuilder::new(0, ChunkType::Standard);
    builder.with_resource(
        PackageResourceBuilder::from_file(RuntimeResourceID::from(1), "TEMP", "a.bin", 6, None, true)
            .unwrap(),
    );
    builder.with_resource(
        PackageResourceBuilder::from_memory(RuntimeResourceID::from(2), "TEMP", vec![9], None, false)
            .unwrap(),
    );
    builder.with_resource(
        PackageResourceBuilder::from_file_at_offset(
            RuntimeResourceID::from(3),
            "TEMP",
            "b.bin",
            100,
            40,
            30,
            Some(10),
            false,
        )
        .unwrap(),
    );
    assert_eq!(builder.resource_count(), 3);
    assert_eq!(builder.file_span_of(0), Some(("a.bin".to_string(), 0, 6)));
    assert_eq!(builder.file_span_of(1), None);
    assert_eq!(builder.file_span_of(2), Some(("b.bin".to_string(), 40, 10)));
    assert_eq!(builder.file_span_of(3), None);
    // Until its bytes are there, a resource that a file backs cannot be built.
    assert!(!builder.load_resource(3, vec![]));
    assert!(builder.load_resource(0, vec![1, 2, 3, 4, 5, 6]));
    assert!(builder.load_resource(2, vec![7; 10]));
    assert_eq!(builder.file_span_of(0), None);
    assert_eq!(builder.file_span_of(2), None);
    match &builder.resources[0].blob {
        PackageResourceBlob::Memory { data, compression_level, should_scramble } => {
            assert_eq!(data, &vec![1, 2, 3, 4, 5, 6]);
            assert_eq!(*compression_level, None);
            assert!(*should_scramble);
        }
        _ => panic!("a whole file becomes bytes in memory"),
    }
    match &builder.resources[2].blob {
        PackageResourceBlob::CompressedMemory { data, decompressed_size, is_scrambled } => {
            assert_eq!(data, &vec![7; 10]);
            assert_eq!(*decompressed_size, Some(30));
            assert!(!*is_scrambled);
        }
        _ => panic!("a span of a file becomes bytes in stored form"),
    }
}
