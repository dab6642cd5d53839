use rpkg_rs::resource::package_builder::{
    PackageBuilder, PackageBuilderError, PackageResourceBlob, PackageResourceBuilder,
    PackageResourceBuilderError, StoredBlob,
};
use rpkg_rs::resource::pdefs::{PartitionId, PartitionInfo, PartitionType};
use rpkg_rs::resource::reference_flags::{PackageOffsetFlags, ResourceReferenceCountAndFlags};
use rpkg_rs::resource::resource_package::{ChunkType, PackageVersion, ResourcePackage};
use rpkg_rs::resource::resource_partition::{PatchId, ResourcePartition, ResourcePartitionError};
use rpkg_rs::resource::runtime_resource_id::RuntimeResourceID;
use rpkg_rs::wire::{push_u32, push_u64, read_u32, read_u64, scramble};
use rpkg_rs::{GlacierResource, GlacierResourceError, WoaVersion};

struct Text(String);

impl GlacierResource for Text {
    type Output = String;

    fn process_data(_: WoaVersion, data: &[u8]) -> Result<String, GlacierResourceError> {
        String::from_utf8(data.to_vec())
            .map_err(|e| GlacierResourceError::ReadError(e.to_string()))
    }

    fn serialize(&self, _: WoaVersion) -> Result<Vec<u8>, GlacierResourceError> {
        if self.0.is_empty() {
            Err(GlacierResourceError::WriteError("nothing to write".to_string()))
        } else {
            Ok(self.0.as_bytes().to_vec())
        }
    }

    fn resource_type() -> [u8; 4] {
        *b"TXET"
    }

    fn video_memory_requirement(&self) -> u64 {
        u64::MAX
    }

    fn system_memory_requirement(&self) -> u64 {
        self.0.len() as u64
    }

    fn should_scramble(&self) -> bool {
        true
    }

    fn should_compress(&self) -> bool {
        false
    }
}

#[test]
fn glacier_resources_go_through_the_builder_and_the_partition() {
    let rrid = RuntimeResourceID::from(0x77);
    let resource = PackageResourceBuilder::from_glacier_resource(
        rrid,
        &Text("hello, world".to_string()),
        WoaVersion::HM3,
        Some(2),
    )
    .unwrap();
    assert_eq!(resource.resource_type, *b"TXET");
    assert_eq!(resource.system_memory_requirement, 12);
    assert_eq!(resource.video_memory_requirement, u32::MAX);
    assert_eq!(resource.blob.size(), 12);
    assert!(matches!(
        resource.blob,
        PackageResourceBlob::Memory { compression_level: Some(2), should_scramble: true, .. }
    ));
    assert!(matches!(
        PackageResourceBuilder::from_glacier_resource(
            rrid,
            &Text(String::new()),
            WoaVersion::HM3,
            None
        ),
        Err(PackageResourceBuilderError::GlacierResourceError(_))
    ));

    let mut builder = PackageBuilder::new_with_patch_id(
        PartitionId { part_type: PartitionType::Dlc, index: 300 },
        PatchId::Base,
    );
    builder.with_partition_id(&PartitionId { part_type: PartitionType::Addon, index: 258 });
    builder.with_resource(resource);
    let bytes = builder.build_in_memory(PackageVersion::RPKGv2).unwrap();
    let package = ResourcePackage::from_memory(bytes, false).unwrap();
    // The number of the partition is cut to a byte.
    let metadata = package.metadata.unwrap();
    assert_eq!(metadata.chunk_id, 2);
    assert_eq!(metadata.chunk_type, ChunkType::Addon);
    assert_eq!(metadata.patch_id, 0);
    assert_eq!(package.get(&rrid).unwrap().data_type(), "TEXT");
    assert_eq!(package.get(&rrid).unwrap().extension(), "TEXT");
    assert_eq!(package.get(&rrid).unwrap().size(), 12);
    assert_eq!(package.get(&rrid).unwrap().system_memory_requirement(), 12);
    assert_eq!(package.get(&rrid).unwrap().states_chunk_size(), 0);
    assert_eq!(package.get(&rrid).unwrap().reference_chunk_size(), 0);

    let mut partition = ResourcePartition::new(PartitionInfo::from_id("chunk2").unwrap());
    partition.mount_package(package, PatchId::Base);
    assert_eq!(
        partition.read_glacier_resource::<Text>(WoaVersion::HM3, &rrid).unwrap(),
        "hello, world"
    );
    assert!(matches!(
        partition.read_glacier_resource::<Text>(WoaVersion::HM3, &RuntimeResourceID::from(1)),
        Err(ResourcePartitionError::ResourceNotAvailable)
    ));
}

#[test]
fn build_internal_writes_the_stored_forms_it_is_given() {
    let mut builder = PackageBuilder::new(0, ChunkType::Standard);
    builder.with_resource(
        PackageResourceBuilder::from_memory(
            RuntimeResourceID::from(9),
            "TEMP",
            vec![1, 2, 3, 4],
            None,
            false,
        )
        .unwrap(),
    );
    let stored = builder.resources[0].blob.store(PackageVersion::RPKGv1).unwrap();
    assert_eq!(stored.bytes, vec![1, 2, 3, 4]);
    assert_eq!(stored.compressed_size, None);
    assert!(!stored.is_scrambled);
    let direct = builder.build_internal(PackageVersion::RPKGv1, &vec![stored]).unwrap();
    // Stored forms of another shape are written as they are.
    let other = StoredBlob { bytes: vec![9, 9], compressed_size: Some(2), is_scrambled: true };
    let odd = builder.build_internal(PackageVersion::RPKGv1, &vec![other]).unwrap();
    assert_eq!(odd.len() + 2, direct.len());
    assert_eq!(&odd[odd.len() - 2..], &[9, 9]);
    assert_eq!(&odd[16 + 16..16 + 20], &[2, 0, 0, 0x80]);
    assert_eq!(builder.build_in_memory(PackageVersion::RPKGv1).unwrap(), direct);
    assert_eq!(
        builder_with_unneeded().check_tables().unwrap_err_kind(),
        "UnneededResourcesNotSupported"
    );

    let blob = PackageResourceBlob::File {
        path: "a".to_string(),
        size: 4,
        compression_level: None,
        should_scramble: true,
    };
    assert_eq!(blob.size(), 4);
    match blob.loaded(vec![1, 2, 3, 4]) {
        PackageResourceBlob::Memory { data, compression_level: None, should_scramble: true } => {
            assert_eq!(data, vec![1, 2, 3, 4])
        }
        other => panic!("{:?}", other),
    }
    let blob = PackageResourceBlob::FileAtOffset {
        path: "a".to_string(),
        offset: 8,
        size: 40,
        compressed_size: Some(4),
        is_scrambled: false,
    };
    assert_eq!(blob.size(), 40);
    match blob.loaded(vec![1, 2, 3, 4]) {
        PackageResourceBlob::CompressedMemory {
            data,
            decompressed_size: Some(40),
            is_scrambled: false,
        } => assert_eq!(data, vec![1, 2, 3, 4]),
        other => panic!("{:?}", other),
    }
}

trait ErrKind {
    fn unwrap_err_kind(self) -> &'static str;
}

impl ErrKind for Result<u32, PackageBuilderError> {
    fn unwrap_err_kind(self) -> &'static str {
        match self {
            Err(PackageBuilderError::UnneededResourcesNotSupported) => {
                "UnneededResourcesNotSupported"
            }
            Err(_) => "another error",
            Ok(_) => "no error",
        }
    }
}

fn builder_with_unneeded() -> PackageBuilder {
    let mut builder = PackageBuilder::new(0, ChunkType::Standard);
    builder.with_unneeded_resource(RuntimeResourceID::from(1));
    builder
}

#[test]
fn wire_integers_are_little_endian() {
    let mut out = Vec::new();
    push_u32(&mut out, 0x11223344);
    push_u64(&mut out, 0x0102030405060708);
    assert_eq!(out, vec![0x44, 0x33, 0x22, 0x11, 8, 7, 6, 5, 4, 3, 2, 1]);
    assert_eq!(read_u32(&out, 0), Some(0x11223344));
    assert_eq!(read_u64(&out, 4), Some(0x0102030405060708));
    assert_eq!(read_u32(&out, 8), Some(0x01020304));
    assert_eq!(read_u32(&out, 9), None);
    assert_eq!(read_u64(&out, 5), None);
    assert_eq!(read_u32(&out, usize::MAX), None);
}

#[test]
fn scramble_is_its_own_inverse() {
    let data: Vec<u8> = (0..100u32).map(|i| (i * 7 % 256) as u8).collect();
    let once = scramble(&data);
    assert_ne!(once, data);
    let key = [0xDC, 0x45, 0xA6, 0x9C, 0xD3, 0x72, 0x4C, 0xAB];
    for (i, byte) in once.iter().enumerate() {
        assert_eq!(*byte, data[i] ^ key[i % 8]);
    }
    assert_eq!(scramble(&once), data);
    assert!(scramble(&[]).is_empty());
}

#[test]
fn packed_words() {
    let flags = PackageOffsetFlags::new().with_compressed_size(0x1234).with_is_scrambled(true);
    assert_eq!(flags.into_bits(), 0x8000_1234);
    assert_eq!(flags.compressed_size(), 0x1234);
    assert!(flags.is_scrambled());
    assert_eq!(flags.with_is_scrambled(false).into_bits(), 0x1234);
    assert_eq!(PackageOffsetFlags::from_bits(0x7FFF_FFFF).compressed_size(), 0x7FFF_FFFF);
    assert!(!PackageOffsetFlags::from_bits(0x7FFF_FFFF).is_scrambled());

    let word = ResourceReferenceCountAndFlags::pack(5, true, true);
    assert_eq!(word.into_bits(), 0xC000_0005);
    assert_eq!(word.reference_count(), 5);
    assert!(word.is_new_format());
    assert!(word.always_true());
    let word = ResourceReferenceCountAndFlags::from_bits(0x0000_0003);
    assert_eq!(word.reference_count(), 3);
    assert!(!word.is_new_format());
    assert!(!word.always_true());
    assert_eq!(ResourceReferenceCountAndFlags::new().into_bits(), 0);
}

#[test]
fn glacier_answers_decide_the_builder() {
    let rrid = RuntimeResourceID::from(0x55);
    let made = PackageResourceBuilder::from_glacier_answers(
        rrid,
        *b"TXET",
        u32::MAX as u64 + 1,
        7,
        Ok(vec![1, 2, 3]),
        false,
        None,
    )
    .unwrap();
    assert_eq!(made.rrid, rrid);
    assert_eq!(made.resource_type, *b"TXET");
    assert_eq!(made.system_memory_requirement, u32::MAX);
    assert_eq!(made.video_memory_requirement, 7);
    assert!(made.references.is_empty());
    match made.blob {
        PackageResourceBlob::Memory { data, compression_level, should_scramble } => {
            assert_eq!(data, vec![1, 2, 3]);
            assert_eq!(compression_level, None);
            assert!(!should_scramble);
        }
        _ => panic!("the bytes of a glacier resource are held in memory"),
    }
    match PackageResourceBuilder::from_glacier_answers(
        rrid,
        *b"TXET",
        0,
        0,
        Err(GlacierResourceError::WriteError("no".to_string())),
        true,
        Some(1),
    ) {
        Err(PackageResourceBuilderError::GlacierResourceError(GlacierResourceError::WriteError(
            why,
        ))) => assert_eq!(why, "no"),
        _ => panic!("the error of the resource is handed on"),
    }
}

#[test]
fn glacier_outcome_hands_the_answer_on() {
    assert_eq!(
        ResourcePartition::glacier_outcome::<Text>(Ok("read".to_string())).unwrap(),
        "read"
    );
    match ResourcePartition::glacier_outcome::<Text>(Err(GlacierResourceError::ReadError(
        "bad".to_string(),
    ))) {
        Err(ResourcePartitionError::ResourceError(GlacierResourceError::ReadError(why))) => {
            assert_eq!(why, "bad")
        }
        other => panic!("{:?}", other),
    }
}
