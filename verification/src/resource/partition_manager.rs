//! The mounted partitions of a game and the lookup of resources across them.

use crate::resource::pdefs::{
    infos_view,
    Definitions,
    PackageDefinitionError,
    PackageDefinitionSource,
    PartitionId,
    PartitionIdView,
    PartitionInfo,
    PartitionInfoView,
};
use crate::resource::resource_info::{ResourceInfo, ResourceInfoView};
use crate::resource::resource_package::{lookup, ResourcePackage};
use crate::resource::resource_partition::{
    archives_view,
    latest_in,
    layered_all,
    mounted_all,
    owned_view,
    slot_of,
    PatchId,
    ResourcePartition,
    ResourcePartitionError,
};
use crate::resource::runtime_resource_id::RuntimeResourceID;
use vstd::prelude::*;

verus! {

#[derive(Debug)]
pub enum PartitionManagerError {
    /// Cannot use the packagedefinition config.
    PackageDefinitionError(PackageDefinitionError),
    /// An error of the given partition.
    PartitionError(PartitionId, ResourcePartitionError),
    /// The named partition could not be found.
    PartitionNotFound(String),
    /// The resource with the given identifier could not be found.
    ResourceNotFound(String),
    /// Could not find a root partition.
    NoRootPartition,
}

pub struct PartitionManager {
    /// The directory that holds the archives.
    pub runtime_directory: String,
    /// All potential partitions which could be mounted with this manager.
    pub partition_infos: Vec<PartitionInfo>,
    /// All mounted partitions.
    pub partitions: Vec<ResourcePartition>,
}

/// The place among the first `count` partitions of the first whose
/// identifier is `id`, or `count` where none has it.
pub open spec fn partition_at(partitions: Seq<ResourcePartition>, id: PartitionIdView, count: int) -> int
    decreases count,
{
    if count <= 0 {
        0
    } else {
        let before = partition_at(partitions, id, count - 1);
        if before < count - 1 {
            before
        } else if partitions[count - 1].info@.id == id {
            count - 1
        } else {
            count
        }
    }
}

/// `partition_at` points at a partition with the identifier, or at the end.
pub proof fn lemma_partition_at(partitions: Seq<ResourcePartition>, id: PartitionIdView, count: int)
    requires
        0 <= count <= partitions.len(),
    ensures
        0 <= partition_at(partitions, id, count) <= count,
        partition_at(partitions, id, count) < count ==> partitions[partition_at(
            partitions,
            id,
            count,
        )].info@.id == id,
        forall|i: int|
            0 <= i < partition_at(partitions, id, count) ==> (#[trigger] partitions[i]).info@.id
                != id,
    decreases count,
{
    if count > 0 {
        lemma_partition_at(partitions, id, count - 1);
    }
}

proof fn lemma_partition_at_stays(
    partitions: Seq<ResourcePartition>,
    id: PartitionIdView,
    from: int,
    count: int,
)
    requires
        1 <= from <= count,
        partition_at(partitions, id, from) == from - 1,
    ensures
        partition_at(partitions, id, count) == from - 1,
    decreases count - from,
{
    if from < count {
        lemma_partition_at_stays(partitions, id, from, count - 1);
    }
}

/// Where the search for a resource ends.
pub enum Resolution {
    /// In the partition at this place, which holds the resource.
    Found(int),
    /// At a partition that is not mounted.
    PartitionNotFound(PartitionIdView),
    /// At a partition without a parent, or after more steps than there are partitions.
    ResourceNotFound,
}

/// The search for `rrid` from the partition `id` up the chain of parents,
/// for at most `fuel` steps to a parent: the first partition on the way
/// that holds the resource.
pub open spec fn resolution(
    partitions: Seq<ResourcePartition>,
    id: PartitionIdView,
    rrid: u64,
    fuel: nat,
) -> Resolution
    decreases fuel,
{
    let at = partition_at(partitions, id, partitions.len() as int);
    if at >= partitions.len() {
        Resolution::PartitionNotFound(id)
    } else if partitions[at].resources@.dom().contains(rrid) {
        Resolution::Found(at)
    } else {
        match partitions[at].info@.parent {
            Some(parent) => if fuel == 0 {
                Resolution::ResourceNotFound
            } else {
                resolution(partitions, parent, rrid, (fuel - 1) as nat)
            },
            None => Resolution::ResourceNotFound,
        }
    }
}

/// The identifiers of the partitions among the first `count` that hold `rrid`.
pub open spec fn holders_of(partitions: Seq<ResourcePartition>, rrid: u64, count: int) -> Seq<
    PartitionIdView,
>
    decreases count,
{
    if count <= 0 {
        Seq::empty()
    } else if partitions[count - 1].resources@.dom().contains(rrid) {
        holders_of(partitions, rrid, count - 1).push(partitions[count - 1].info@.id)
    } else {
        holders_of(partitions, rrid, count - 1)
    }
}

/// What the first partition with the identifier `id` says about `rrid`,
/// where it holds the resource in its layered view.
pub open spec fn info_in(partitions: Seq<ResourcePartition>, id: PartitionIdView, rrid: u64) -> Option<
    ResourceInfoView,
> {
    let at = partition_at(partitions, id, partitions.len() as int);
    if at >= partitions.len() || !partitions[at].resources@.dom().contains(rrid) {
        None
    } else {
        let slot = slot_of(partitions[at].packages@, partitions[at].resources@[rrid]);
        lookup(partitions[at].packages@[slot].1@.resources, rrid)
    }
}

/// For each of the first `count` partitions that holds `rrid`, in order,
/// its identifier and what `info_in` gives for it, where that is anything.
pub open spec fn infos_of(partitions: Seq<ResourcePartition>, rrid: u64, count: int) -> Seq<
    (PartitionIdView, ResourceInfoView),
>
    decreases count,
{
    if count <= 0 {
        Seq::empty()
    } else {
        let before = infos_of(partitions, rrid, count - 1);
        let id = partitions[count - 1].info@.id;
        if partitions[count - 1].resources@.dom().contains(rrid) {
            match info_in(partitions, id, rrid) {
                Some(info) => before.push((id, info)),
                None => before,
            }
        } else {
            before
        }
    }
}

/// The contents of what was found for a resource.
pub open spec fn found_view(found: Seq<(PartitionId, &ResourceInfo)>) -> Seq<
    (PartitionIdView, ResourceInfoView),
> {
    Seq::new(found.len(), |k: int| (found[k].0@, found[k].1@))
}

/// The identifiers of resources that are named with their owners.
pub open spec fn owned_ids(owned: Seq<(ResourceInfoView, PatchId)>) -> Seq<RuntimeResourceID> {
    Seq::new(owned.len(), |k: int| owned[k].0.entry.runtime_resource_id)
}

/// The identifiers of the resources that the archives of the first `count`
/// partitions own, partition by partition.
pub open spec fn all_ids(partitions: Seq<ResourcePartition>, count: int) -> Seq<RuntimeResourceID>
    decreases count,
{
    if count <= 0 {
        Seq::empty()
    } else {
        all_ids(partitions, count - 1) + owned_ids(
            latest_in(
                archives_view(partitions[count - 1].packages@),
                partitions[count - 1].resources@,
                partitions[count - 1].packages@.len() as int,
            ),
        )
    }
}

/// The contents of a sequence of partition ids.
pub open spec fn ids_view(ids: Seq<PartitionId>) -> Seq<PartitionIdView> {
    Seq::new(ids.len(), |i: int| ids[i]@)
}

/// Where the walk from a partition up to its root ends.
pub enum RootWalk {
    Root(PartitionIdView),
    PartitionNotFound(PartitionIdView),
    /// The chain of parents does not end within as many steps as there are partitions.
    NoRoot,
}

/// The walk from `info` up the chain of parents, through the mounted
/// partitions, for at most `fuel` steps.
pub open spec fn root_walk(partitions: Seq<ResourcePartition>, info: PartitionInfoView, fuel: nat) -> RootWalk
    decreases fuel,
{
    match info.parent {
        None => RootWalk::Root(info.id),
        Some(parent) => {
            let at = partition_at(partitions, parent, partitions.len() as int);
            if at >= partitions.len() {
                RootWalk::PartitionNotFound(parent)
            } else if fuel == 0 {
                RootWalk::NoRoot
            } else {
                root_walk(partitions, partitions[at].info@, (fuel - 1) as nat)
            }
        },
    }
}

impl PartitionManager {
    /// What holds of every manager: its partitions are well formed.
    pub open spec fn wf(&self) -> bool {
        forall|i: int| 0 <= i < self.partitions@.len() ==> (#[trigger] self.partitions@[i]).wf()
    }

    /// Create a new PartitionManager for the game at the given path, and a custom package definition.
    ///
    /// # Arguments
    /// - `runtime_directory` - The path to the game's runtime directory.
    /// - `package_definition` - The package definition to use.
    pub fn new(runtime_directory: String, package_definition: &PackageDefinitionSource) -> (r: Result<
        Self,
        PartitionManagerError,
    >)
        ensures
            match package_definition.definitions() {
                Definitions::Partitions(partitions) => r matches Ok(manager) && manager.wf()
                    && manager.runtime_directory == runtime_directory && infos_view(
                    manager.partition_infos@,
                ) == partitions && manager.partitions@.len() == 0,
                _ => r matches Err(PartitionManagerError::PackageDefinitionError(_)),
            },
    {
        match package_definition.read() {
            Ok(partition_infos) => Ok(
                Self { runtime_directory, partition_infos, partitions: Vec::new() },
            ),
            Err(e) => Err(PartitionManagerError::PackageDefinitionError(e)),
        }
    }

    /// Mounts a single partition from its archives, given in the order of
    /// layering, and adds it to the mounted partitions.
    ///
    /// # Arguments
    /// - `partition_info` - The partition info to mount.
    /// - `archives` - The archives of the partition: the base, then its patches by number.
    pub fn mount_partition(
        &mut self,
        partition_info: PartitionInfo,
        archives: Vec<(PatchId, ResourcePackage)>,
    )
        requires
            old(self).wf(),
            forall|i: int| 0 <= i < archives@.len() ==> (#[trigger] archives@[i]).1.wf(),
        ensures
            final(self).wf(),
            final(self).runtime_directory == old(self).runtime_directory,
            final(self).partition_infos == old(self).partition_infos,
            final(self).partitions@.len() == old(self).partitions@.len() + 1,
            final(self).partitions@.drop_last() == old(self).partitions@,
            final(self).partitions@.last().info == partition_info,
            final(self).partitions@.last().resources@ == layered_all(
                Map::empty(),
                archives_view(archives@),
                archives@.len() as int,
            ),
            final(self).partitions@.last().packages@ == mounted_all(
                Seq::empty(),
                archives@,
                archives@.len() as int,
            ),
    {
        let mut partition = ResourcePartition::new(partition_info);
        assert(partition.packages@ =~= Seq::empty());
        partition.mount_resource_packages_in_partition(archives);
        let ghost before = self.partitions@;
        self.partitions.push(partition);
        assert(self.partitions@.drop_last() =~= before);
    }

    /// Adds a partition that was mounted by the caller, archive by archive,
    /// behind the mounted partitions.
    pub fn add_partition(&mut self, partition: ResourcePartition)
        requires
            old(self).wf(),
            partition.wf(),
        ensures
            final(self).wf(),
            final(self).runtime_directory == old(self).runtime_directory,
            final(self).partition_infos == old(self).partition_infos,
            final(self).partitions@ == old(self).partitions@.push(partition),
    {
        self.partitions.push(partition);
    }

    /// Finds the mounted partition with the given identifier.
    pub fn find_partition(&self, partition_id: &PartitionId) -> (r: Option<&ResourcePartition>)
        ensures
            ({
                let at = partition_at(
                    self.partitions@,
                    partition_id@,
                    self.partitions@.len() as int,
                );
                if at < self.partitions@.len() {
                    r == Some(&self.partitions@[at])
                } else {
                    r is None
                }
            }),
    {
        match self.position_of(partition_id) {
            Some(i) => Some(&self.partitions[i]),
            None => None,
        }
    }

    /// Finds the place of the mounted partition with the given identifier.
    pub fn position_of(&self, partition_id: &PartitionId) -> (r: Option<usize>)
        ensures
            match r {
                Some(i) => i < self.partitions@.len() && i == partition_at(
                    self.partitions@,
                    partition_id@,
                    self.partitions@.len() as int,
                ) && self.partitions@[i as int].info@.id == partition_id@,
                None => partition_at(
                    self.partitions@,
                    partition_id@,
                    self.partitions@.len() as int,
                ) >= self.partitions@.len(),
            },
    {
        let mut i: usize = 0;
        while i < self.partitions.len()
            invariant
                i <= self.partitions@.len(),
                partition_at(self.partitions@, partition_id@, i as int) == i,
            decreases self.partitions@.len() - i,
        {
            if self.partitions[i].info.id.same_as(partition_id) {
                proof {
                    lemma_partition_at_stays(
                        self.partitions@,
                        partition_id@,
                        i + 1,
                        self.partitions@.len() as int,
                    );
                }
                return Some(i);
            }
            i += 1;
        }
        None
    }

    /// Reads the resource `rrid` from the layered view of the partition
    /// `partition_id`; the partition must be mounted.
    pub fn read_resource_from(&self, partition_id: PartitionId, rrid: RuntimeResourceID) -> (r: Result<
        Vec<u8>,
        PartitionManagerError,
    >)
        requires
            self.wf(),
        ensures
            ({
                let at = partition_at(
                    self.partitions@,
                    partition_id@,
                    self.partitions@.len() as int,
                );
                if at >= self.partitions@.len() {
                    r matches Err(PartitionManagerError::PartitionNotFound(name)) && name@
                        == partition_id@.name()
                } else {
                    let partition = self.partitions@[at];
                    match r {
                        Ok(data) => partition.resources@.dom().contains(rrid.id)
                            && partition.reads_from(rrid.id, partition.resources@[rrid.id], Ok(data)),
                        Err(PartitionManagerError::PartitionError(id, e)) => id@ == partition_id@
                            && if partition.resources@.dom().contains(rrid.id) {
                            partition.reads_from(rrid.id, partition.resources@[rrid.id], Err(e))
                        } else {
                            e is ResourceNotAvailable
                        },
                        Err(_) => false,
                    }
                }
            }),
    {
        match self.position_of(&partition_id) {
            Some(i) => {
                assert(self.partitions@[i as int].wf());
                match self.partitions[i].read_resource(&rrid) {
                    Ok(data) => Ok(data),
                    Err(e) => Err(PartitionManagerError::PartitionError(partition_id, e)),
                }
            },
            None => Err(PartitionManagerError::PartitionNotFound(partition_id.to_string())),
        }
    }

    /// Walks from the first partition of the definitions up the chain of
    /// parents and returns the partition at its top.
    pub fn root_partition(&self) -> (r: Result<PartitionId, PartitionManagerError>)
        ensures
            self.partition_infos@.len() == 0 ==> r matches Err(
                PartitionManagerError::NoRootPartition,
            ),
            self.partition_infos@.len() > 0 ==> match root_walk(
                self.partitions@,
                self.partition_infos@[0]@,
                self.partitions@.len(),
            ) {
                RootWalk::Root(id) => r matches Ok(found) && found@ == id,
                RootWalk::PartitionNotFound(id) => r matches Err(
                    PartitionManagerError::PartitionNotFound(name),
                ) && name@ == id.name(),
                RootWalk::NoRoot => r matches Err(PartitionManagerError::NoRootPartition),
            },
    {
        if self.partition_infos.len() == 0 {
            return Err(PartitionManagerError::NoRootPartition);
        }
        let mut partition: &PartitionInfo = &self.partition_infos[0];
        let mut fuel: usize = self.partitions.len();
        loop
            invariant
                fuel <= self.partitions@.len(),
                self.partition_infos@.len() > 0,
                root_walk(
                    self.partitions@,
                    self.partition_infos@[0]@,
                    self.partitions@.len(),
                ) == root_walk(self.partitions@, partition@, fuel as nat),
            decreases fuel,
        {
            match &partition.parent {
                Some(parent) => {
                    match self.position_of(parent) {
                        Some(at) => {
                            if fuel == 0 {
                                return Err(PartitionManagerError::NoRootPartition);
                            }
                            partition = &self.partitions[at].info;
                            fuel -= 1;
                        },
                        None => {
                            return Err(
                                PartitionManagerError::PartitionNotFound(parent.to_string()),
                            );
                        },
                    }
                },
                None => {
                    return Ok(partition.id.duplicate());
                },
            }
        }
    }

    /// The mounted partitions whose layered view holds `rrid`, in order.
    pub fn partitions_with_resource(&self, rrid: &RuntimeResourceID) -> (r: Vec<PartitionId>)
        ensures
            ids_view(r@) == holders_of(self.partitions@, rrid.id, self.partitions@.len() as int),
    {
        let mut r: Vec<PartitionId> = Vec::new();
        let mut i: usize = 0;
        assert(ids_view(r@) =~= holders_of(self.partitions@, rrid.id, 0));
        while i < self.partitions.len()
            invariant
                i <= self.partitions@.len(),
                ids_view(r@) == holders_of(self.partitions@, rrid.id, i as int),
            decreases self.partitions@.len() - i,
        {
            if self.partitions[i].contains(rrid) {
                let ghost before = ids_view(r@);
                let id = self.partitions[i].info.id.duplicate();
                r.push(id);
                assert(ids_view(r@) =~= before.push(id@));
            }
            i += 1;
        }
        r
    }

    /// The identifiers of the resources of all mounted partitions: for each
    /// partition, in the order of mounting, those of the resources that its
    /// archives own, as `ResourcePartition::latest_resources` lists them. An
    /// identifier that several partitions hold comes once for each.
    pub fn iter_all_runtime_resource_ids(&self) -> (r: Vec<RuntimeResourceID>)
        ensures
            r@ == all_ids(self.partitions@, self.partitions@.len() as int),
    {
        let mut r: Vec<RuntimeResourceID> = Vec::new();
        let mut i: usize = 0;
        while i < self.partitions.len()
            invariant
                i <= self.partitions@.len(),
                r@ == all_ids(self.partitions@, i as int),
            decreases self.partitions@.len() - i,
        {
            let owned = self.partitions[i].latest_resources();
            let ghost done = r@;
            let ghost ids = owned_ids(owned_view(owned@));
            let mut j: usize = 0;
            while j < owned.len()
                invariant
                    j <= owned@.len(),
                    ids == owned_ids(owned_view(owned@)),
                    r@ == done + ids.take(j as int),
                decreases owned@.len() - j,
            {
                r.push(owned[j].0.entry.runtime_resource_id);
                assert(r@ =~= done + ids.take(j + 1)) by {
                    assert(ids.take(j + 1) =~= ids.take(j as int).push(ids[j as int]));
                }
                j += 1;
            }
            assert(ids.take(owned@.len() as int) =~= ids);
            i += 1;
        }
        r
    }

    /// Whether any mounted partition holds `rrid` in its layered view.
    pub fn resource_mounted(&self, rrid: &RuntimeResourceID) -> (r: bool)
        ensures
            r == exists|i: int|
                0 <= i < self.partitions@.len() && (#[trigger] self.partitions@[i]).resources@.dom().contains(
                    rrid.id,
                ),
    {
        let mut i: usize = 0;
        while i < self.partitions.len()
            invariant
                i <= self.partitions@.len(),
                forall|k: int|
                    0 <= k < i ==> !(#[trigger] self.partitions@[k]).resources@.dom().contains(
                        rrid.id,
                    ),
            decreases self.partitions@.len() - i,
        {
            if self.partitions[i].contains(rrid) {
                return true;
            }
            i += 1;
        }
        false
    }

    /// What the partition `partition_id` says about `rrid` in its layered view.
    pub fn resource_info_from(&self, partition_id: &PartitionId, rrid: &RuntimeResourceID) -> (r:
        Result<&ResourceInfo, PartitionManagerError>)
        requires
            self.wf(),
        ensures
            ({
                let at = partition_at(
                    self.partitions@,
                    partition_id@,
                    self.partitions@.len() as int,
                );
                if at >= self.partitions@.len() {
                    r matches Err(PartitionManagerError::PartitionNotFound(name)) && name@
                        == partition_id@.name()
                } else {
                    let partition = self.partitions@[at];
                    if !partition.resources@.dom().contains(rrid.id) {
                        r matches Err(PartitionManagerError::PartitionError(id, e)) && id@
                            == partition_id@ && e is ResourceNotAvailable
                    } else {
                        let slot = slot_of(partition.packages@, partition.resources@[rrid.id]);
                        match lookup(partition.packages@[slot].1@.resources, rrid.id) {
                            Some(info) => r matches Ok(found) && found@ == info,
                            None => r matches Err(PartitionManagerError::PartitionError(id, e))
                                && id@ == partition_id@ && e is ResourceNotAvailable,
                        }
                    }
                }
            }),
    {
        match self.position_of(partition_id) {
            Some(i) => {
                assert(self.partitions@[i as int].wf());
                match self.partitions[i].get_resource_info(rrid) {
                    Ok(info) => Ok(info),
                    Err(e) => Err(
                        PartitionManagerError::PartitionError(partition_id.duplicate(), e),
                    ),
                }
            },
            None => Err(PartitionManagerError::PartitionNotFound(partition_id.to_string())),
        }
    }

    /// What the mounted partitions that hold `rrid` say about it, each with
    /// the identifier of the partition, in the order of mounting. Where
    /// several partitions have one identifier, the first of them answers
    /// for each.
    pub fn resource_infos(&self, rrid: &RuntimeResourceID) -> (r: Vec<(PartitionId, &ResourceInfo)>)
        requires
            self.wf(),
        ensures
            found_view(r@) == infos_of(self.partitions@, rrid.id, self.partitions@.len() as int),
    {
        let mut r: Vec<(PartitionId, &ResourceInfo)> = Vec::new();
        let mut i: usize = 0;
        while i < self.partitions.len()
            invariant
                i <= self.partitions@.len(),
                self.wf(),
                found_view(r@) == infos_of(self.partitions@, rrid.id, i as int),
            decreases self.partitions@.len() - i,
        {
            if self.partitions[i].contains(rrid) {
                let id = self.partitions[i].info.id.duplicate();
                match self.resource_info_from(&id, rrid) {
                    Ok(info) => {
                        let ghost before = found_view(r@);
                        r.push((id, info));
                        assert(found_view(r@) =~= before.push((id@, info@)));
                    },
                    Err(_) => {},
                }
            }
            i += 1;
        }
        r
    }

    /// Resolves a resource by traversing the partition hierarchy: the
    /// search starts at `partition_id` and goes up the chain of parents
    /// until a partition holds the resource in its layered view.
    ///
    /// A partition on the way that is not mounted gives `PartitionNotFound`.
    /// A chain that ends without the resource gives `ResourceNotFound`, as
    /// does one that runs in a circle.
    ///
    /// # Arguments
    /// - `partition_id` - The ID of the partition to start resolving from.
    /// - `resource_id` - The ID of the resource to resolve.
    pub fn resolve_resource_from(&self, partition_id: PartitionId, resource_id: &RuntimeResourceID) -> (r:
        Result<(&ResourceInfo, PartitionId), PartitionManagerError>)
        requires
            self.wf(),
        ensures
            match resolution(
                self.partitions@,
                partition_id@,
                resource_id.id,
                self.partitions@.len(),
            ) {
                Resolution::Found(at) => {
                    let partition = self.partitions@[at];
                    let slot = slot_of(partition.packages@, partition.resources@[resource_id.id]);
                    match lookup(partition.packages@[slot].1@.resources, resource_id.id) {
                        Some(info) => r matches Ok((found, id)) && found@ == info && id@
                            == partition.info@.id,
                        None => r matches Err(PartitionManagerError::ResourceNotFound(_)),
                    }
                },
                Resolution::PartitionNotFound(id) => r matches Err(
                    PartitionManagerError::PartitionNotFound(name),
                ) && name@ == id.name(),
                Resolution::ResourceNotFound => r matches Err(
                    PartitionManagerError::ResourceNotFound(_),
                ),
            },
    {
        let mut current = partition_id;
        let mut fuel: usize = self.partitions.len();
        loop
            invariant
                fuel <= self.partitions@.len(),
                self.wf(),
                resolution(
                    self.partitions@,
                    partition_id@,
                    resource_id.id,
                    self.partitions@.len(),
                ) == resolution(self.partitions@, current@, resource_id.id, fuel as nat),
            decreases fuel,
        {
            let at = match self.position_of(&current) {
                Some(at) => at,
                None => {
                    return Err(PartitionManagerError::PartitionNotFound(current.to_string()));
                },
            };
            let partition = &self.partitions[at];
            assert(self.partitions@[at as int].wf());
            if partition.contains(resource_id) {
                return match partition.get_resource_info(resource_id) {
                    Ok(info) => {
                        proof {
                            lemma_partition_at(
                                self.partitions@,
                                current@,
                                self.partitions@.len() as int,
                            );
                        }
                        Ok((info, current))
                    },
                    Err(_) => Err(
                        PartitionManagerError::ResourceNotFound(resource_id.to_hex_string()),
                    ),
                };
            }
            match &partition.info.parent {
                Some(parent_id) => {
                    if fuel == 0 {
                        return Err(
                            PartitionManagerError::ResourceNotFound(resource_id.to_hex_string()),
                        );
                    }
                    current = parent_id.duplicate();
                    fuel -= 1;
                },
                None => {
                    return Err(
                        PartitionManagerError::ResourceNotFound(resource_id.to_hex_string()),
                    );
                },
            }
        }
    }

    /// The mounted partitions.
    pub fn partitions(&self) -> (r: &Vec<ResourcePartition>)
        ensures
            r == &self.partitions,
    {
        &self.partitions
    }
}

} // verus!
