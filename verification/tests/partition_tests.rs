use rpkg_rs::resource::package_builder::{PackageBuilder, PackageResourceBuilder};
use rpkg_rs::resource::partition_manager::{PartitionManager, PartitionManagerError};
use rpkg_rs::resource::pdefs::{
    PackageDefinitionSource, PartitionId, PartitionIdError, PartitionInfo, PartitionType,
};
use rpkg_rs::resource::resource_package::{
    ChunkType, PackageVersion, ResourcePackage, ResourcePackageError,
};
use rpkg_rs::resource::resource_partition::{
    ChangeKind, PatchId, ResourceChange, ResourcePartition, ResourcePartitionError,
};
use rpkg_rs::resource::runtime_resource_id::RuntimeResourceID;

fn rrid(id: u64) -> RuntimeResourceID {
    RuntimeResourceID::from(id)
}

fn data_of(id: u64, patch: u8) -> Vec<u8> {
    (0..32u64).map(|i| (i + id) as u8 ^ patch).collect()
}

fn archive(patch: PatchId, present: &[u64], unneeded: &[u64]) -> ResourcePackage {
    let mut builder = PackageBuilder::new(0, ChunkType::Standard);
    builder.with_patch_id(&patch);
    let tag = match patch {
        PatchId::Base => 0,
        PatchId::Patch(n) => n as u8,
    };
    for id in present {
        builder.with_resource(
            PackageResourceBuilder::from_memory(rrid(*id), "TEMP", data_of(*id, tag), None, false)
                .unwrap(),
        );
    }
    for id in unneeded {
        builder.with_unneeded_resource(rrid(*id));
    }
    let bytes = builder.build_in_memory(PackageVersion::RPKGv2).unwrap();
    ResourcePackage::from_memory(bytes, patch.is_patch()).unwrap()
}

fn info(name: &str, id: &str, parent: Option<&str>) -> PartitionInfo {
    let mut info = PartitionInfo::from_id(id).unwrap();
    info.name = Some(name.to_string());
    info.parent = parent.map(|p| PartitionId::parse(p).unwrap());
    info
}

const R1: u64 = 0x0011;
const R2: u64 = 0x0022;
const R3: u64 = 0x0033;
const R4: u64 = 0x0044;

fn layered_partition() -> ResourcePartition {
    let mut partition = ResourcePartition::new(PartitionInfo::from_id("chunk0").unwrap());
    partition.mount_resource_packages_in_partition(vec![
        (PatchId::Base, archive(PatchId::Base, &[R1, R2, R3], &[])),
        (PatchId::Patch(1), archive(PatchId::Patch(1), &[R4], &[R2])),
        (PatchId::Patch(2), archive(PatchId::Patch(2), &[R2], &[R4])),
    ]);
    partition
}

#[test]
fn patch_layering() {
    let partition = layered_partition();
    assert_eq!(partition.num_patches(), 2);
    assert_eq!(partition.resources.get(&R1), Some(&PatchId::Base));
    assert_eq!(partition.resources.get(&R2), Some(&PatchId::Patch(2)));
    assert_eq!(partition.resources.get(&R3), Some(&PatchId::Base));
    assert_eq!(partition.resources.get(&R4), None);
    assert!(partition.contains(&rrid(R1)));
    assert!(!partition.contains(&rrid(R4)));

    assert_eq!(
        partition.resource_patch_indices(&rrid(R2)),
        vec![PatchId::Base, PatchId::Patch(2)]
    );
    assert_eq!(partition.resource_removal_indices(&rrid(R2)), vec![PatchId::Patch(1)]);
    assert_eq!(partition.resource_patch_indices(&rrid(R4)), vec![PatchId::Patch(1)]);
    assert_eq!(partition.resource_removal_indices(&rrid(R4)), vec![PatchId::Patch(2)]);
    assert_eq!(partition.resource_removal_indices(&rrid(R1)), vec![]);

    // The data comes from the archive that owns the resource.
    assert_eq!(partition.read_resource(&rrid(R2)).unwrap(), data_of(R2, 2));
    assert_eq!(partition.read_resource(&rrid(R1)).unwrap(), data_of(R1, 0));
    assert_eq!(
        partition.read_resource_from(&rrid(R2), PatchId::Base).unwrap(),
        data_of(R2, 0)
    );
    assert!(matches!(
        partition.read_resource(&rrid(R4)),
        Err(ResourcePartitionError::ResourceNotAvailable)
    ));
    assert!(matches!(
        partition.read_resource_from(&rrid(R4), PatchId::Patch(7)),
        Err(ResourcePartitionError::NotMounted)
    ));
    match partition.read_resource_from(&rrid(R4), PatchId::Base) {
        Err(ResourcePartitionError::ReadResourcePackageError(
            ResourcePackageError::ResourceNotFound,
            name,
        )) => assert_eq!(name, "chunk0.rpkg"),
        other => panic!("{:?}", other),
    }
    assert_eq!(
        partition.get_resource_info(&rrid(R2)).unwrap().data_offset(),
        partition
            .resource_info_from(&rrid(R2), PatchId::Patch(2))
            .unwrap()
            .data_offset()
    );
    assert!(matches!(
        partition.resource_info_from(&rrid(R4), PatchId::Base),
        Err(ResourcePartitionError::ResourceNotAvailable)
    ));

    let mut latest: Vec<(u64, PatchId)> = partition
        .latest_resources()
        .into_iter()
        .map(|(info, patch)| (info.rrid().id, patch))
        .collect();
    latest.sort();
    assert_eq!(
        latest,
        vec![(R1, PatchId::Base), (R2, PatchId::Patch(2)), (R3, PatchId::Base)]
    );
}

#[test]
fn patch_that_deletes_and_readds_owns_the_resource() {
    let mut partition = ResourcePartition::new(PartitionInfo::from_id("chunk0").unwrap());
    partition.mount_package(archive(PatchId::Base, &[R1], &[]), PatchId::Base);
    partition.mount_package(archive(PatchId::Patch(1), &[R1, R2], &[R1, R3]), PatchId::Patch(1));
    assert_eq!(partition.resources.get(&R1), Some(&PatchId::Patch(1)));
    assert_eq!(partition.resources.get(&R2), Some(&PatchId::Patch(1)));
    assert_eq!(partition.resources.len(), 2);
    assert_eq!(partition.read_resource(&rrid(R1)).unwrap(), data_of(R1, 1));
}

#[test]
fn layering_is_deterministic() {
    let a = layered_partition();
    let b = layered_partition();
    assert_eq!(a.resources, b.resources);
}

#[test]
fn base_archive_has_no_unneeded_block() {
    let mut builder = PackageBuilder::new(0, ChunkType::Standard);
    builder.with_patch_id(&PatchId::Patch(1));
    builder.with_resource(
        PackageResourceBuilder::from_memory(rrid(R1), "TEMP", vec![1, 2, 3], None, false).unwrap(),
    );
    builder.with_unneeded_resource(rrid(R2));
    let bytes = builder.build_in_memory(PackageVersion::RPKGv1).unwrap();
    let as_patch = ResourcePackage::from_memory(bytes.clone(), true).unwrap();
    assert_eq!(as_patch.unneeded_resource_ids(), vec![rrid(R2)]);
    assert!(as_patch.has_unneeded_resource(&rrid(R2)));
    assert!(!as_patch.has_unneeded_resource(&rrid(R1)));
    assert_eq!(as_patch.read_resource(&rrid(R1)).unwrap(), vec![1, 2, 3]);
    // Read as a base archive, the same bytes have no list of deleted
    // resources: what stands there is taken for the offset table.
    match ResourcePackage::from_memory(bytes, false) {
        Ok(as_base) => {
            assert!(as_base.unneeded_resource_ids().is_empty());
            assert_eq!(as_base.unneeded_resource_count, 0);
            assert!(!as_base.has_unneeded_resource(&rrid(R2)));
        }
        Err(ResourcePackageError::ParsingError(_)) => {}
        Err(other) => panic!("{:?}", other),
    }
    assert!(ResourcePackage::is_patch_file("chunk0patch1.rpkg"));
    assert!(!ResourcePackage::is_patch_file("chunk0.rpkg"));
}

#[test]
fn patch_indices_come_from_file_names() {
    let mut info = PartitionInfo::from_id("chunk1").unwrap();
    info.set_max_patch_level(9);
    let partition = ResourcePartition::new(info);
    let names: Vec<String> = [
        "chunk1patch3.rpkg",
        "chunk1.rpkg",
        "chunk1patch12.rpkg",
        "chunk1patch1.rpkg",
        "chunk10patch2.rpkg",
        "chunk1patch2.rpkg.bak",
        "dlc1patch4.rpkg",
        "chunk1patch9.rpkg",
        "thumbs.dat",
    ]
    .iter()
    .map(|s| s.to_string())
    .collect();
    assert_eq!(
        partition.read_patch_indices(&names).unwrap(),
        vec![PatchId::Patch(1), PatchId::Patch(3), PatchId::Patch(9)]
    );
    let without_base: Vec<String> = vec!["chunk1patch3.rpkg".to_string()];
    match partition.read_patch_indices(&without_base) {
        Err(ResourcePartitionError::BasePackageNotFound(name)) => assert_eq!(name, "chunk1.rpkg"),
        other => panic!("{:?}", other),
    }
    let too_large: Vec<String> = vec![
        "chunk1.rpkg".to_string(),
        "chunk1patch99999999999999999999999.rpkg".to_string(),
    ];
    assert!(matches!(
        partition.read_patch_indices(&too_large),
        Err(ResourcePartitionError::ParsePatchIndexError(_))
    ));
}

#[test]
fn patch_ids_are_ordered() {
    assert!(PatchId::Base < PatchId::Patch(0));
    assert!(PatchId::Patch(1) < PatchId::Patch(2));
    assert!(PatchId::Base.precedes(&PatchId::Patch(1)));
    assert!(PatchId::Patch(1).precedes(&PatchId::Patch(2)));
    assert!(!PatchId::Patch(2).precedes(&PatchId::Patch(2)));
    assert!(!PatchId::Patch(1).precedes(&PatchId::Base));
    assert!(PatchId::Base.is_base() && !PatchId::Base.is_patch());
    assert!(PatchId::Patch(3).is_patch() && !PatchId::Patch(3).is_base());
}

#[test]
fn partition_ids_parse_and_format() {
    let id = PartitionId::parse("chunk9").unwrap();
    assert_eq!(id, PartitionId { part_type: PartitionType::Standard, index: 9 });
    assert_eq!(id.to_string(), "chunk9");
    assert_eq!(id.to_filename(PatchId::Base), "chunk9.rpkg");
    assert_eq!(id.to_filename(PatchId::Patch(3)), "chunk9patch3.rpkg");

    let id = PartitionId::parse("dlc12").unwrap();
    assert_eq!(id, PartitionId { part_type: PartitionType::Dlc, index: 12 });
    assert_eq!(id.to_string(), "dlc12");

    let id = PartitionId::parse("dlc5langjp").unwrap();
    assert_eq!(
        id,
        PartitionId { part_type: PartitionType::LanguageDlc("jp".to_string()), index: 5 }
    );
    assert_eq!(id.to_string(), "dlc5langjp");
    assert_eq!(id.to_filename(PatchId::Patch(10)), "dlc5langjppatch10.rpkg");

    let id = PartitionId::parse("chunk0langfr").unwrap();
    assert_eq!(
        id,
        PartitionId { part_type: PartitionType::LanguageStandard("fr".to_string()), index: 0 }
    );
    // A pattern of the crate: the patch suffix is accepted and dropped.
    assert_eq!(PartitionId::parse("chunk3patch2").unwrap().to_string(), "chunk3");
    assert_eq!(
        PartitionId { part_type: PartitionType::Addon, index: 4 }.to_string(),
        "chunk4"
    );
    assert_eq!(PartitionId::default().to_string(), "chunk0");
    assert!(id.same_as(&PartitionId::parse("chunk0langfr").unwrap()));
    assert!(!id.same_as(&PartitionId::parse("chunk0langde").unwrap()));

    for bad in ["", "chunk", "part1", "chunk1.rpkg", " chunk1", "chunk99999999999999999999999"] {
        assert!(
            matches!(PartitionId::parse(bad), Err(PartitionIdError::ParsingError(_))),
            "{:?}",
            bad
        );
    }
    assert!(PartitionInfo::from_id("nothing").is_err());
    let info = PartitionInfo::from_id("dlc2").unwrap();
    assert_eq!(info.filename(PatchId::Patch(1)), "dlc2patch1.rpkg");
    assert_eq!(info.max_patch_level(), 0);
    assert!(info.name().is_none() && info.parent().is_none() && info.roots().is_empty());
    assert_eq!(info.id(), PartitionId { part_type: PartitionType::Dlc, index: 2 });
}

fn manager() -> PartitionManager {
    let definitions = PackageDefinitionSource::Custom(vec![
        info("parent", "chunk0", None),
        info("child", "chunk1", Some("chunk0")),
        info("orphan", "chunk2", Some("chunk7")),
    ]);
    let mut manager = PartitionManager::new("runtime".to_string(), &definitions).unwrap();
    manager.mount_partition(
        info("parent", "chunk0", None),
        vec![(PatchId::Base, archive(PatchId::Base, &[R1], &[]))],
    );
    manager.mount_partition(
        info("child", "chunk1", Some("chunk0")),
        vec![(PatchId::Base, archive(PatchId::Base, &[R2], &[]))],
    );
    manager.mount_partition(
        info("orphan", "chunk2", Some("chunk7")),
        vec![(PatchId::Base, archive(PatchId::Base, &[R3], &[]))],
    );
    manager
}

#[test]
fn resolver_parent_walk() {
    let manager = manager();
    let chunk0 = PartitionId::parse("chunk0").unwrap();
    let chunk1 = PartitionId::parse("chunk1").unwrap();
    let chunk2 = PartitionId::parse("chunk2").unwrap();

    let (found, at) = manager.resolve_resource_from(chunk1.clone(), &rrid(R1)).unwrap();
    assert_eq!(found.rrid().id, R1);
    assert_eq!(at, chunk0);
    let (found, at) = manager.resolve_resource_from(chunk1.clone(), &rrid(R2)).unwrap();
    assert_eq!(found.rrid().id, R2);
    assert_eq!(at, chunk1);
    assert!(matches!(
        manager.resolve_resource_from(chunk1.clone(), &rrid(R4)),
        Err(PartitionManagerError::ResourceNotFound(_))
    ));
    // The parent does not look into its children.
    assert!(matches!(
        manager.resolve_resource_from(chunk0.clone(), &rrid(R2)),
        Err(PartitionManagerError::ResourceNotFound(_))
    ));
    // A parent that is not mounted ends the walk.
    match manager.resolve_resource_from(chunk2.clone(), &rrid(R1)) {
        Err(PartitionManagerError::PartitionNotFound(name)) => assert_eq!(name, "chunk7"),
        other => panic!("{:?}", other.map(|(_, id)| id)),
    }
    assert!(manager.resolve_resource_from(chunk2.clone(), &rrid(R3)).is_ok());
    match manager.resolve_resource_from(PartitionId::parse("dlc9").unwrap(), &rrid(R1)) {
        Err(PartitionManagerError::PartitionNotFound(name)) => assert_eq!(name, "dlc9"),
        other => panic!("{:?}", other.map(|(_, id)| id)),
    }

    assert_eq!(manager.partitions_with_resource(&rrid(R1)), vec![chunk0.clone()]);
    assert_eq!(manager.partitions_with_resource(&rrid(R4)), vec![]);
    assert!(manager.resource_mounted(&rrid(R3)));
    assert!(!manager.resource_mounted(&rrid(R4)));
    assert_eq!(manager.resource_infos(&rrid(R2)).len(), 1);
    assert_eq!(manager.resource_infos(&rrid(R2))[0].0, chunk1);
    assert_eq!(manager.root_partition().unwrap(), chunk0);
    assert!(manager.find_partition(&chunk1).is_some());
    assert!(manager.find_partition(&PartitionId::parse("dlc0").unwrap()).is_none());
    assert_eq!(manager.partitions().len(), 3);

    assert_eq!(
        manager.read_resource_from(chunk0.clone(), rrid(R1)).unwrap(),
        data_of(R1, 0)
    );
    assert!(matches!(
        manager.read_resource_from(chunk0.clone(), rrid(R2)),
        Err(PartitionManagerError::PartitionError(
            _,
            ResourcePartitionError::ResourceNotAvailable
        ))
    ));
    assert!(matches!(
        manager.read_resource_from(PartitionId::parse("dlc0").unwrap(), rrid(R2)),
        Err(PartitionManagerError::PartitionNotFound(_))
    ));
    assert!(manager.resource_info_from(&chunk1, &rrid(R2)).is_ok());
    assert!(manager.resource_info_from(&chunk1, &rrid(R1)).is_err());
}

#[test]
fn resolver_gives_up_on_a_circle_of_parents() {
    let definitions = PackageDefinitionSource::Custom(vec![]);
    let mut manager = PartitionManager::new("runtime".to_string(), &definitions).unwrap();
    manager.mount_partition(
        info("a", "chunk0", Some("chunk1")),
        vec![(PatchId::Base, archive(PatchId::Base, &[R1], &[]))],
    );
    manager.mount_partition(
        info("b", "chunk1", Some("chunk0")),
        vec![(PatchId::Base, archive(PatchId::Base, &[R2], &[]))],
    );
    assert!(matches!(
        manager.resolve_resource_from(PartitionId::parse("chunk0").unwrap(), &rrid(R4)),
        Err(PartitionManagerError::ResourceNotFound(_))
    ));
    assert!(manager
        .resolve_resource_from(PartitionId::parse("chunk0").unwrap(), &rrid(R2))
        .is_ok());
    assert!(matches!(
        manager.root_partition(),
        Err(PartitionManagerError::NoRootPartition)
    ));
}

#[test]
fn changelog_is_in_the_order_of_layering() {
    let partition = layered_partition();
    assert_eq!(
        partition.resource_changelog(&rrid(R2)),
        vec![
            ResourceChange { patch: PatchId::Base, kind: ChangeKind::Addition { size: 32 } },
            ResourceChange { patch: PatchId::Patch(1), kind: ChangeKind::Removal },
            ResourceChange { patch: PatchId::Patch(2), kind: ChangeKind::Addition { size: 32 } },
        ]
    );
    assert_eq!(
        partition.resource_changelog(&rrid(R4)),
        vec![
            ResourceChange { patch: PatchId::Patch(1), kind: ChangeKind::Addition { size: 32 } },
            ResourceChange { patch: PatchId::Patch(2), kind: ChangeKind::Removal },
        ]
    );
    assert!(partition.resource_changelog(&rrid(0x99)).is_empty());

    // Mounted out of order, the archives are still told in the order of layering.
    let mut partition = ResourcePartition::new(PartitionInfo::from_id("chunk0").unwrap());
    partition.mount_package(archive(PatchId::Patch(2), &[R1], &[R1]), PatchId::Patch(2));
    partition.mount_package(archive(PatchId::Base, &[R1], &[]), PatchId::Base);
    partition.mount_package(archive(PatchId::Patch(1), &[R1], &[]), PatchId::Patch(1));
    assert_eq!(
        partition.resource_changelog(&rrid(R1)),
        vec![
            ResourceChange { patch: PatchId::Base, kind: ChangeKind::Addition { size: 32 } },
            ResourceChange {
                patch: PatchId::Patch(1),
                kind: ChangeKind::Modification { from: 32, to: 32 }
            },
            ResourceChange { patch: PatchId::Patch(2), kind: ChangeKind::Removal },
            ResourceChange { patch: PatchId::Patch(2), kind: ChangeKind::Addition { size: 32 } },
        ]
    );
    // Mounting an archive again puts it in the place of the one before.
    partition.mount_package(archive(PatchId::Patch(1), &[R2], &[]), PatchId::Patch(1));
    assert_eq!(partition.num_patches(), 2);
    assert_eq!(partition.resource_patch_indices(&rrid(R2)), vec![PatchId::Patch(1)]);
}

#[test]
fn latest_resources_come_archive_by_archive() {
    let partition = layered_partition();
    let latest: Vec<(u64, PatchId)> = partition
        .latest_resources()
        .into_iter()
        .map(|(info, patch)| (info.rrid().id, patch))
        .collect();
    assert_eq!(
        latest,
        vec![(R1, PatchId::Base), (R3, PatchId::Base), (R2, PatchId::Patch(2))]
    );
}

#[test]
fn patch_indices_name_the_first_file_they_cannot_count() {
    let mut info = PartitionInfo::from_id("dlc2").unwrap();
    info.set_max_patch_level(5);
    let partition = ResourcePartition::new(info);
    let names: Vec<String> = [
        "dlc2patch4.rpkg",
        "dlc2patch99999999999999999999999.rpkg",
        "dlc2.rpkg",
        "dlc2patch88888888888888888888888.rpkg",
    ]
    .iter()
    .map(|s| s.to_string())
    .collect();
    match partition.read_patch_indices(&names) {
        Err(ResourcePartitionError::ParsePatchIndexError(name)) => {
            assert_eq!(name, "dlc2patch99999999999999999999999.rpkg")
        }
        other => panic!("{:?}", other),
    }
    // The base is looked for before any patch is counted.
    match partition.read_patch_indices(&names[..2].to_vec()) {
        Err(ResourcePartitionError::BasePackageNotFound(name)) => assert_eq!(name, "dlc2.rpkg"),
        other => panic!("{:?}", other),
    }
    // A file that is named twice is counted twice, and a level above the
    // maximum is left out.
    let twice: Vec<String> = ["dlc2patch2.rpkg", "dlc2.rpkg", "dlc2patch6.rpkg", "dlc2patch2.rpkg"]
        .iter()
        .map(|s| s.to_string())
        .collect();
    assert_eq!(
        partition.read_patch_indices(&twice).unwrap(),
        vec![PatchId::Patch(2), PatchId::Patch(2)]
    );
    assert_eq!(
        partition.read_patch_indices(&vec!["dlc2.rpkg".to_string()]).unwrap(),
        vec![]
    );
}

#[test]
fn resource_infos_name_each_partition_that_holds_the_resource() {
    let manager = manager();
    let found: Vec<(String, u64)> = manager
        .resource_infos(&rrid(R1))
        .into_iter()
        .map(|(id, info)| (id.to_string(), info.rrid().id))
        .collect();
    let holders: Vec<String> = manager
        .partitions_with_resource(&rrid(R1))
        .iter()
        .map(|id| id.to_string())
        .collect();
    assert_eq!(found.len(), holders.len());
    for (i, (name, id)) in found.iter().enumerate() {
        assert_eq!(name, &holders[i]);
        assert_eq!(*id, R1);
    }
    assert!(manager.resource_infos(&rrid(0x7777)).is_empty());
}

#[test]
fn mount_order_starts_with_the_base() {
    let mut info = PartitionInfo::from_id("chunk3").unwrap();
    info.set_max_patch_level(4);
    let partition = ResourcePartition::new(info);
    let names: Vec<String> = ["chunk3patch2.rpkg", "chunk3patch1.rpkg", "chunk3.rpkg"]
        .iter()
        .map(|s| s.to_string())
        .collect();
    assert_eq!(
        partition.mount_order(&names),
        Some(vec![PatchId::Base, PatchId::Patch(1), PatchId::Patch(2)])
    );
    assert_eq!(partition.mount_order(&vec!["chunk3.rpkg".to_string()]), Some(vec![PatchId::Base]));
    // Without its base a partition is left unmounted.
    assert_eq!(partition.mount_order(&names[..2].to_vec()), None);
    assert_eq!(partition.mount_order(&vec![]), None);
    let uncounted: Vec<String> =
        vec!["chunk3.rpkg".to_string(), "chunk3patch99999999999999999999999.rpkg".to_string()];
    assert_eq!(partition.mount_order(&uncounted), None);
}

#[test]
fn mounting_keeps_each_archive_under_its_patch_id() {
    let partition = layered_partition();
    let mounted: Vec<PatchId> = partition.packages.iter().map(|(patch, _)| *patch).collect();
    assert_eq!(mounted, vec![PatchId::Base, PatchId::Patch(1), PatchId::Patch(2)]);
    assert_eq!(partition.num_patches(), 2);

    // An archive that is mounted again takes the place of the one before.
    let mut partition = layered_partition();
    partition.mount_resource_packages_in_partition(vec![(
        PatchId::Patch(1),
        archive(PatchId::Patch(1), &[R3], &[]),
    )]);
    let mounted: Vec<PatchId> = partition.packages.iter().map(|(patch, _)| *patch).collect();
    assert_eq!(mounted, vec![PatchId::Base, PatchId::Patch(1), PatchId::Patch(2)]);
    assert_eq!(partition.resources.get(&R3), Some(&PatchId::Patch(1)));

    let manager = manager();
    assert_eq!(manager.partitions()[0].packages.len(), 1);
    assert_eq!(manager.partitions()[0].packages[0].0, PatchId::Base);
}

#[test]
fn patch_files_end_in_a_dot_and_rpkg() {
    let mut info = PartitionInfo::from_id("chunk4").unwrap();
    info.set_max_patch_level(9);
    let partition = ResourcePartition::new(info);
    let names: Vec<String> = ["chunk4.rpkg", "chunk4patch1xrpkg", "chunk4patch2.rpkg", "chunk4patch3rpkg"]
        .iter()
        .map(|s| s.to_string())
        .collect();
    assert_eq!(partition.read_patch_indices(&names).unwrap(), vec![PatchId::Patch(2)]);
}

#[test]
fn stored_place_names_the_span_in_the_owner() {
    let partition = layered_partition();
    let (slot, name, offset, size) = partition.stored_place(&rrid(R2)).unwrap();
    assert_eq!(slot, 2);
    assert_eq!(name, "chunk0patch2.rpkg");
    assert_eq!(size, 32);
    let info = partition.get_resource_info(&rrid(R2)).unwrap();
    assert_eq!(offset, info.data_offset());
    assert_eq!(partition.decode_owned(&rrid(R2), data_of(R2, 2)).unwrap(), data_of(R2, 2));
    assert!(matches!(
        partition.stored_place(&rrid(R4)),
        Err(ResourcePartitionError::ResourceNotAvailable)
    ));
    assert!(matches!(
        partition.decode_owned(&rrid(R4), vec![]),
        Err(ResourcePartitionError::ResourceNotAvailable)
    ));
}

#[test]
fn all_runtime_resource_ids_come_partition_by_partition() {
    let mut manager = manager();
    assert_eq!(manager.iter_all_runtime_resource_ids(), vec![rrid(R1), rrid(R2), rrid(R3)]);
    manager.add_partition(layered_partition());
    assert_eq!(manager.partitions().len(), 4);
    assert_eq!(
        manager.iter_all_runtime_resource_ids(),
        vec![rrid(R1), rrid(R2), rrid(R3), rrid(R1), rrid(R3), rrid(R2)]
    );
}
