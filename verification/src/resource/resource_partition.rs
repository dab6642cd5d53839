//! A partition: a base archive and its patches, layered into one view.

use crate::pattern::{captures, first_match, group, group_text, groups_view};
use crate::resource::pdefs::PartitionInfo;
use crate::text::{chars_of, parse_u64, parsed_u64, push_str, same_chars, string_of};
use crate::resource::resource_info::{ResourceInfo, ResourceInfoView};
use crate::resource::resource_package::{
    extraction_fails,
    extracts_to,
    lookup,
    table_view,
    PackageView,
    ResourcePackage,
    ResourcePackageError,
};
use crate::resource::runtime_resource_id::RuntimeResourceID;
use crate::{GlacierResource, GlacierResourceError, WoaVersion};
use std::collections::HashMap;
use vstd::prelude::*;

verus! {

/// Which archive of a partition: the base, or the patch with the given number.
#[derive(Clone, Copy, Debug, Eq, Hash, PartialEq, Structural, PartialOrd, Ord)]
pub enum PatchId {
    Base,
    Patch(usize),
}

impl PatchId {
    /// The place of the archive in the order of layering: the base first,
    /// then the patches by number.
    pub open spec fn rank(self) -> int {
        match self {
            PatchId::Base => -1,
            PatchId::Patch(n) => n as int,
        }
    }

    pub fn is_base(&self) -> (r: bool)
        ensures
            r == (*self == PatchId::Base),
    {
        match self {
            PatchId::Base => true,
            PatchId::Patch(_) => false,
        }
    }

    pub fn is_patch(&self) -> (r: bool)
        ensures
            r == (*self != PatchId::Base),
    {
        match self {
            PatchId::Base => false,
            PatchId::Patch(_) => true,
        }
    }

    /// Whether this archive is layered before `other`.
    pub fn precedes(&self, other: &PatchId) -> (r: bool)
        ensures
            r == (self.rank() < other.rank()),
    {
        match (*self, *other) {
            (PatchId::Base, PatchId::Base) => false,
            (PatchId::Base, PatchId::Patch(_)) => true,
            (PatchId::Patch(_), PatchId::Base) => false,
            (PatchId::Patch(a), PatchId::Patch(b)) => a < b,
        }
    }
}


broadcast use vstd::std_specs::hash::group_hash_axioms;

#[derive(Debug)]
pub enum ResourcePartitionError {
    /// Failed to open file.
    IoError(String),
    /// Error while reading the ResourcePackage with the given file name.
    ReadResourcePackageError(ResourcePackageError, String),
    /// Failed to parse the patch index in the given file name.
    ParsePatchIndexError(String),
    /// Base package not found.
    BasePackageNotFound(String),
    /// Failed to read package.
    ReadPackageError(String),
    /// No partition mounted.
    NotMounted,
    /// Resource not available.
    ResourceNotAvailable,
    /// Internal resource error.
    ResourceError(GlacierResourceError),
}

/// Whether `package` lists `id` as deleted.
pub open spec fn deletes(package: PackageView, id: u64) -> bool {
    match package.unneeded_resources {
        Some(ids) => ids.contains(RuntimeResourceID { id }),
        None => false,
    }
}

/// Whether `package` holds `id`.
pub open spec fn holds(package: PackageView, id: u64) -> bool {
    lookup(package.resources, id) is Some
}

/// The index after `package` is layered on top as the archive `patch`:
/// first every resource that the package deletes leaves the index, then
/// every resource that it holds enters it, owned by `patch`.
pub open spec fn layered(index: Map<u64, PatchId>, package: PackageView, patch: PatchId) -> Map<
    u64,
    PatchId,
> {
    Map::new(
        |id: u64| holds(package, id) || (index.dom().contains(id) && !deletes(package, id)),
        |id: u64|
            if holds(package, id) {
                patch
            } else {
                index[id]
            },
    )
}

/// The index after the first `count` of `archives` are layered, in order.
pub open spec fn layered_all(
    index: Map<u64, PatchId>,
    archives: Seq<(PatchId, PackageView)>,
    count: int,
) -> Map<u64, PatchId>
    decreases count,
{
    if count <= 0 {
        index
    } else {
        layered(layered_all(index, archives, count - 1), archives[count - 1].1, archives[count - 1].0)
    }
}

/// A patch that both deletes a resource and holds it leaves the resource in
/// the index, owned by that patch.
pub proof fn law_delete_and_readd(index: Map<u64, PatchId>, package: PackageView, patch: PatchId, id: u64)
    requires
        deletes(package, id),
        holds(package, id),
    ensures
        layered(index, package, patch).dom().contains(id),
        layered(index, package, patch)[id] == patch,
{
}

/// Layering is a function of the archives and their order, and of nothing
/// else: two indexes that start equal and take, in the same order, archives
/// with the same patch ids that hold and delete the same resources, end
/// equal after each of them.
pub proof fn law_layering_deterministic(
    first: Map<u64, PatchId>,
    second: Map<u64, PatchId>,
    one: Seq<(PatchId, PackageView)>,
    other: Seq<(PatchId, PackageView)>,
    count: int,
)
    requires
        first == second,
        0 <= count <= one.len(),
        one.len() == other.len(),
        forall|i: int| 0 <= i < one.len() ==> (#[trigger] one[i]).0 == other[i].0,
        forall|i: int, id: u64|
            0 <= i < one.len() ==> #[trigger] holds(one[i].1, id) == holds(other[i].1, id),
        forall|i: int, id: u64|
            0 <= i < one.len() ==> #[trigger] deletes(one[i].1, id) == deletes(other[i].1, id),
    ensures
        layered_all(first, one, count) == layered_all(second, other, count),
    decreases count,
{
    if count > 0 {
        law_layering_deterministic(first, second, one, other, count - 1);
        let before = layered_all(first, one, count - 1);
        let (patch, package) = one[count - 1];
        let (twin_patch, twin) = other[count - 1];
        assert(patch == twin_patch);
        assert forall|id: u64|
            holds(package, id) == holds(twin, id) && deletes(package, id) == deletes(
                twin,
                id,
            ) by {
            assert(holds(one[count - 1].1, id) == holds(other[count - 1].1, id));
            assert(deletes(one[count - 1].1, id) == deletes(other[count - 1].1, id));
        }
        assert(layered(before, package, patch) =~= layered(before, twin, patch));
    }
}

/// After layering, a resource is in the index exactly if the last archive
/// that mentions it holds it, and it is then owned by that archive; a
/// resource that no archive mentions stays as it was.
pub proof fn law_latest_mention(
    index: Map<u64, PatchId>,
    archives: Seq<(PatchId, PackageView)>,
    count: int,
    id: u64,
)
    requires
        0 <= count <= archives.len(),
    ensures
        ({
            let result = layered_all(index, archives, count);
            if exists|i: int|
                0 <= i < count && (holds(archives[i].1, id) || deletes(archives[i].1, id)) {
                let last = last_mention(archives, count, id);
                &&& 0 <= last < count
                &&& result.dom().contains(id) == holds(archives[last].1, id)
                &&& holds(archives[last].1, id) ==> result[id] == archives[last].0
            } else {
                &&& result.dom().contains(id) == index.dom().contains(id)
                &&& index.dom().contains(id) ==> result[id] == index[id]
            }
        }),
    decreases count,
{
    if count > 0 {
        law_latest_mention(index, archives, count - 1, id);
        let package = archives[count - 1].1;
        if holds(package, id) || deletes(package, id) {
            assert(last_mention(archives, count, id) == count - 1);
        } else {
            if exists|i: int|
                0 <= i < count && (holds(archives[i].1, id) || deletes(archives[i].1, id)) {
                let i = choose|i: int|
                    0 <= i < count && (holds(archives[i].1, id) || deletes(archives[i].1, id));
                assert(i < count - 1);
            }
        }
    }
}

/// The place of the last of the first `count` archives that holds or
/// deletes `id`, or -1 where none does.
pub open spec fn last_mention(archives: Seq<(PatchId, PackageView)>, count: int, id: u64) -> int
    decreases count,
{
    if count <= 0 {
        -1
    } else if holds(archives[count - 1].1, id) || deletes(archives[count - 1].1, id) {
        count - 1
    } else {
        last_mention(archives, count - 1, id)
    }
}

/// A base archive and its patches, with the index that says which of them
/// owns each resource.
pub struct ResourcePartition {
    pub info: PartitionInfo,
    /// The mounted archives, each patch id once, in the order of mounting.
    pub packages: Vec<(PatchId, ResourcePackage)>,
    /// For each resource of the layered view, the archive that owns it.
    pub resources: HashMap<u64, PatchId>,
}

/// The archives of a partition, as mathematical values.
pub open spec fn archives_view(packages: Seq<(PatchId, ResourcePackage)>) -> Seq<
    (PatchId, PackageView),
> {
    Seq::new(packages.len(), |i: int| (packages[i].0, packages[i].1@))
}

/// The archives after `package` is mounted as `patch`: it takes the place
/// of the one mounted under the same patch id, or goes to the end.
pub open spec fn mounted(
    packages: Seq<(PatchId, ResourcePackage)>,
    patch: PatchId,
    package: ResourcePackage,
) -> Seq<(PatchId, ResourcePackage)> {
    if slot_of(packages, patch) >= 0 {
        packages.update(slot_of(packages, patch), (patch, package))
    } else {
        packages.push((patch, package))
    }
}

/// The archives after the first `count` of `archives` are mounted, in order.
pub open spec fn mounted_all(
    packages: Seq<(PatchId, ResourcePackage)>,
    archives: Seq<(PatchId, ResourcePackage)>,
    count: int,
) -> Seq<(PatchId, ResourcePackage)>
    decreases count,
{
    if count <= 0 {
        packages
    } else {
        mounted(
            mounted_all(packages, archives, count - 1),
            archives[count - 1].0,
            archives[count - 1].1,
        )
    }
}

/// Archives with a patch id each of its own, mounted on a partition that
/// has none, are the mounted archives, in their order.
pub proof fn law_mounted_fresh(archives: Seq<(PatchId, ResourcePackage)>, count: int)
    requires
        0 <= count <= archives.len(),
        forall|i: int, j: int|
            0 <= i < j < archives.len() ==> (#[trigger] archives[i]).0 != (#[trigger] archives[j]).0,
    ensures
        mounted_all(Seq::empty(), archives, count) == archives.take(count),
    decreases count,
{
    if count > 0 {
        law_mounted_fresh(archives, count - 1);
        let before = archives.take(count - 1);
        lemma_slot_absent(before, archives[count - 1].0);
        assert(before.push(archives[count - 1]) =~= archives.take(count));
    } else {
        assert(archives.take(0) =~= Seq::<(PatchId, ResourcePackage)>::empty());
    }
}

/// A patch id that no archive is mounted under has no place.
pub proof fn lemma_slot_absent(packages: Seq<(PatchId, ResourcePackage)>, patch: PatchId)
    requires
        forall|i: int| 0 <= i < packages.len() ==> (#[trigger] packages[i]).0 != patch,
    ensures
        slot_of(packages, patch) < 0,
    decreases packages.len(),
{
    if packages.len() > 0 {
        let rest = packages.drop_last();
        assert forall|i: int| 0 <= i < rest.len() implies (#[trigger] rest[i]).0 != patch by {
            assert(rest[i] == packages[i]);
        }
        lemma_slot_absent(rest, patch);
        assert(packages.last() == packages[packages.len() - 1]);
    }
}

/// The place of the archive `patch` among `packages`, or -1 where it is not mounted.
pub open spec fn slot_of(packages: Seq<(PatchId, ResourcePackage)>, patch: PatchId) -> int
    decreases packages.len(),
{
    if packages.len() == 0 {
        -1
    } else if packages.last().0 == patch {
        packages.len() - 1
    } else {
        slot_of(packages.drop_last(), patch)
    }
}

/// Where `slot_of` points, the archive is mounted; where it points
/// nowhere, it is not.
pub proof fn lemma_slot_of(packages: Seq<(PatchId, ResourcePackage)>, patch: PatchId)
    ensures
        -1 <= slot_of(packages, patch) < packages.len(),
        slot_of(packages, patch) >= 0 ==> packages[slot_of(packages, patch)].0 == patch,
        slot_of(packages, patch) < 0 ==> forall|i: int|
            0 <= i < packages.len() ==> (#[trigger] packages[i]).0 != patch,
    decreases packages.len(),
{
    if packages.len() > 0 && packages.last().0 != patch {
        let rest = packages.drop_last();
        lemma_slot_of(rest, patch);
        if slot_of(packages, patch) < 0 {
            assert forall|i: int| 0 <= i < packages.len() implies (#[trigger] packages[i]).0
                != patch by {
                if i < rest.len() {
                    assert(rest[i] == packages[i]);
                }
            }
        }
    }
}

impl ResourcePartition {
    /// What holds of every partition: each archive is well formed and
    /// mounted under a patch id of its own, and every resource of the index
    /// is owned by a mounted archive.
    pub open spec fn wf(&self) -> bool {
        &&& forall|i: int| 0 <= i < self.packages@.len() ==> (#[trigger] self.packages@[i]).1.wf()
        &&& forall|i: int, j: int|
            0 <= i < j < self.packages@.len() ==> (#[trigger] self.packages@[i]).0 != (
            #[trigger] self.packages@[j]).0
        &&& forall|id: u64| #[trigger]
            self.resources@.dom().contains(id) ==> slot_of(self.packages@, self.resources@[id])
                >= 0
    }

    /// A partition with nothing mounted.
    pub fn new(info: PartitionInfo) -> (r: Self)
        ensures
            r.wf(),
            r.info == info,
            r.packages@.len() == 0,
            r.resources@ == Map::<u64, PatchId>::empty(),
    {
        Self { info, packages: Vec::new(), resources: HashMap::new() }
    }

    /// Finds the archive mounted as `patch`.
    pub fn find_package(&self, patch: PatchId) -> (r: Option<usize>)
        ensures
            match r {
                Some(i) => i == slot_of(self.packages@, patch) && i < self.packages@.len(),
                None => slot_of(self.packages@, patch) < 0,
            },
    {
        let mut i: usize = self.packages.len();
        assert(self.packages@.take(i as int) =~= self.packages@);
        while i > 0
            invariant
                i <= self.packages@.len(),
                slot_of(self.packages@, patch) == slot_of(self.packages@.take(i as int), patch),
            decreases i,
        {
            assert(self.packages@.take(i as int).drop_last() =~= self.packages@.take(i - 1));
            i -= 1;
            match (self.packages[i].0, patch) {
                (PatchId::Base, PatchId::Base) => {
                    return Some(i);
                },
                (PatchId::Patch(a), PatchId::Patch(b)) => {
                    if a == b {
                        return Some(i);
                    }
                },
                _ => {},
            }
        }
        None
    }

    /// Mounts `package` as the archive `patch_index`, on top of what is
    /// mounted: the index becomes `layered`, and the archive takes the
    /// place of the one mounted under the same patch id, or goes to the end.
    pub fn mount_package(&mut self, package: ResourcePackage, patch_index: PatchId)
        requires
            old(self).wf(),
            package.wf(),
        ensures
            final(self).wf(),
            final(self).info == old(self).info,
            final(self).resources@ == layered(old(self).resources@, package@, patch_index),
            final(self).packages@ == mounted(old(self).packages@, patch_index, package),
    {
        let ghost start = self.resources@;
        // remove the deletions if there are any
        let deletions = package.unneeded_resource_ids();
        let mut i: usize = 0;
        while i < deletions.len()
            invariant
                i <= deletions@.len(),
                self.info == old(self).info,
                self.packages == old(self).packages,
                self.resources@ == Map::new(
                    |id: u64|
                        start.dom().contains(id) && !deletions@.take(i as int).contains(
                            RuntimeResourceID { id },
                        ),
                    |id: u64| start[id],
                ),
            decreases deletions@.len() - i,
        {
            let id = deletions[i].id;
            let ghost before = self.resources@;
            self.resources.remove(&id);
            proof {
                let done = deletions@.take(i as int);
                let next = deletions@.take(i + 1);
                assert(next =~= done.push(deletions@[i as int]));
                assert forall|k: u64| next.contains(RuntimeResourceID { id: k }) <==> (
                done.contains(RuntimeResourceID { id: k }) || k == id) by {
                    if done.contains(RuntimeResourceID { id: k }) {
                        let j = choose|j: int|
                            0 <= j < done.len() && done[j] == (RuntimeResourceID { id: k });
                        assert(next[j] == done[j]);
                    }
                    if k == id {
                        assert(next[i as int] == (RuntimeResourceID { id: k }));
                    }
                    if next.contains(RuntimeResourceID { id: k }) {
                        let j = choose|j: int|
                            0 <= j < next.len() && next[j] == (RuntimeResourceID { id: k });
                        if j < i {
                            assert(done[j] == next[j]);
                        }
                    }
                }
                assert(self.resources@ =~= Map::new(
                    |id: u64|
                        start.dom().contains(id) && !next.contains(RuntimeResourceID { id }),
                    |id: u64| start[id],
                ));
            }
            i += 1;
        }
        assert(deletions@.take(deletions@.len() as int) =~= deletions@);
        let ghost cleared = self.resources@;
        let table = &package.resources;
        let mut j: usize = 0;
        while j < table.len()
            invariant
                j <= table@.len(),
                package.wf(),
                table@ == package.resources@,
                self.info == old(self).info,
                self.packages == old(self).packages,
                self.resources@ == Map::new(
                    |id: u64|
                        cleared.dom().contains(id) || exists|k: int|
                            0 <= k < j && (#[trigger] package@.resources[k]).id() == id,
                    |id: u64|
                        if exists|k: int|
                            0 <= k < j && (#[trigger] package@.resources[k]).id() == id {
                            patch_index
                        } else {
                            cleared[id]
                        },
                ),
            decreases table@.len() - j,
        {
            let id = table[j].entry.runtime_resource_id.id;
            self.resources.insert(id, patch_index);
            proof {
                assert(package@.resources[j as int].id() == id);
                assert(self.resources@ =~= Map::new(
                    |id: u64|
                        cleared.dom().contains(id) || exists|k: int|
                            0 <= k < j + 1 && (#[trigger] package@.resources[k]).id() == id,
                    |id: u64|
                        if exists|k: int|
                            0 <= k < j + 1 && (#[trigger] package@.resources[k]).id() == id {
                            patch_index
                        } else {
                            cleared[id]
                        },
                ));
            }
            j += 1;
        }
        proof {
            assert(self.resources@ =~= layered(start, package@, patch_index));
            lemma_slot_of(self.packages@, patch_index);
        }
        match self.find_package(patch_index) {
            Some(slot) => {
                self.packages.set(slot, (patch_index, package));
            },
            None => {
                self.packages.push((patch_index, package));
            },
        }
        proof {
            let after = self.packages@;
            let before = old(self).packages@;
            assert forall|id: u64| #[trigger]
                self.resources@.dom().contains(id) implies slot_of(after, self.resources@[id])
                >= 0 by {
                let owner = self.resources@[id];
                lemma_slot_of(after, owner);
                if owner == patch_index {
                    if slot_of(before, patch_index) >= 0 {
                        assert(after[slot_of(before, patch_index)].0 == patch_index);
                    } else {
                        assert(after[after.len() - 1].0 == patch_index);
                    }
                } else {
                    assert(start.dom().contains(id));
                    lemma_slot_of(before, owner);
                    let at = slot_of(before, owner);
                    assert(after[at].0 == owner);
                }
            }
        }
    }
}


/// The patch ids of the first `count` archives that hold `id`, in order.
pub open spec fn holders(archives: Seq<(PatchId, PackageView)>, id: u64, count: int) -> Seq<PatchId>
    decreases count,
{
    if count <= 0 {
        Seq::empty()
    } else if holds(archives[count - 1].1, id) {
        holders(archives, id, count - 1).push(archives[count - 1].0)
    } else {
        holders(archives, id, count - 1)
    }
}

/// The patch ids of the first `count` archives that delete `id`, in order.
pub open spec fn removers(archives: Seq<(PatchId, PackageView)>, id: u64, count: int) -> Seq<
    PatchId,
>
    decreases count,
{
    if count <= 0 {
        Seq::empty()
    } else if deletes(archives[count - 1].1, id) {
        removers(archives, id, count - 1).push(archives[count - 1].0)
    } else {
        removers(archives, id, count - 1)
    }
}

/// Whether the levels stand in ascending order.
pub open spec fn ascending(levels: Seq<usize>) -> bool {
    forall|i: int, j: int| 0 <= i <= j < levels.len() ==> levels[i] <= levels[j]
}

/// Puts `level` into the ascending `levels`, behind the levels that are not above it.
pub fn insert_ascending(levels: &mut Vec<usize>, level: usize)
    requires
        ascending(old(levels)@),
    ensures
        ascending(final(levels)@),
        final(levels)@.to_multiset() == old(levels)@.to_multiset().insert(level),
        final(levels)@.len() == old(levels)@.len() + 1,
{
    let mut at: usize = 0;
    while at < levels.len() && levels[at] <= level
        invariant
            at <= levels@.len(),
            levels@ == old(levels)@,
            forall|k: int| 0 <= k < at ==> levels@[k] <= level,
        decreases levels@.len() - at,
    {
        at += 1;
    }
    proof {
        vstd::seq_lib::to_multiset_insert(levels@, at as int, level);
    }
    levels.insert(at, level);
}

/// The patch ids of the levels, in order.
pub open spec fn patches_of(levels: Seq<usize>) -> Seq<PatchId> {
    Seq::new(levels.len(), |i: int| PatchId::Patch(levels[i]))
}

/// The pattern that recognises the patch archives of the partition `name`:
/// the name, `patch`, the digits of the level and `.rpkg`, nothing else.
pub open spec fn patch_file_pattern(name: Seq<char>) -> Seq<char> {
    "^"@ + name + "patch(\\d+)\\.rpkg$"@
}

/// The patch level that the file name `file` carries for the pattern
/// `pattern`: `None` where the name is not that of a patch archive,
/// `Some(None)` where its number is more than the machine can count.
pub open spec fn patch_level_in(pattern: Seq<char>, file: Seq<char>) -> Option<Option<usize>> {
    match first_match(pattern, file) {
        None => None,
        Some(groups) => match parsed_u64(group_text(groups, 1), 10) {
            Some(n) => if n <= usize::MAX {
                Some(Some(n as usize))
            } else {
                Some(None)
            },
            None => Some(None),
        },
    }
}

/// The patch levels, none above `max`, that the first `count` of the file
/// names carry, in the order of the names.
pub open spec fn levels_in(pattern: Seq<char>, names: Seq<String>, max: usize, count: int) -> Seq<
    usize,
>
    decreases count,
{
    if count <= 0 {
        Seq::empty()
    } else {
        let before = levels_in(pattern, names, max, count - 1);
        match patch_level_in(pattern, names[count - 1]@) {
            Some(Some(level)) => if level <= max {
                before.push(level)
            } else {
                before
            },
            _ => before,
        }
    }
}

/// The index, from `from` on, of the first file name that is that of a
/// patch archive with a number that the machine cannot count, or the number
/// of the names where there is none.
pub open spec fn first_uncounted(pattern: Seq<char>, names: Seq<String>, from: int) -> int
    decreases names.len() - from,
{
    if from < 0 || from >= names.len() {
        names.len() as int
    } else if patch_level_in(pattern, names[from]@) == Some(None::<usize>) {
        from
    } else {
        first_uncounted(pattern, names, from + 1)
    }
}

/// No name before the first uncounted one is uncounted.
pub proof fn lemma_first_uncounted(pattern: Seq<char>, names: Seq<String>, from: int, upto: int)
    requires
        0 <= from <= upto <= names.len(),
        forall|k: int|
            from <= k < upto ==> patch_level_in(pattern, (#[trigger] names[k])@) != Some(
                None::<usize>,
            ),
    ensures
        first_uncounted(pattern, names, from) == first_uncounted(pattern, names, upto),
    decreases upto - from,
{
    if from < upto {
        lemma_first_uncounted(pattern, names, from + 1, upto);
    }
}

impl ResourcePartition {
    /// The patch level that the groups of a match on a file name carry, or
    /// `None` where the number is more than the machine can count.
    pub fn patch_level_from(groups: &Vec<Option<String>>) -> (r: Option<usize>)
        ensures
            r == match parsed_u64(group_text(groups_view(groups@), 1), 10) {
                Some(n) => if n <= usize::MAX {
                    Some(n as usize)
                } else {
                    None
                },
                None => None,
            },
    {
        match parse_u64(&group(groups, 1), 10) {
            Some(n) => {
                if n <= usize::MAX as u64 {
                    Some(n as usize)
                } else {
                    None
                }
            },
            None => None,
        }
    }

    /// Whether the base archive of the partition is among the files.
    pub open spec fn has_base(&self, file_names: Seq<String>) -> bool {
        exists|i: int|
            0 <= i < file_names.len() && (#[trigger] file_names[i])@ == self.info@.id.filename(
                PatchId::Base,
            )
    }

    /// Whether `levels` are the levels of the patches to mount: those that
    /// the file names carry, none above the maximum patch level, one for
    /// each file, in ascending order.
    pub open spec fn patch_levels(&self, file_names: Seq<String>, levels: Seq<usize>) -> bool {
        &&& ascending(levels)
        &&& levels.to_multiset() == levels_in(
            patch_file_pattern(self.info@.id.name()),
            file_names,
            self.info.patch_level,
            file_names.len() as int,
        ).to_multiset()
    }

    /// Works out, from the names of the files in the directory of the
    /// partition, which patches are there to mount: those named
    /// `{partition}patch{n}.rpkg` with `n` no more than the maximum patch
    /// level, in ascending order, one for each such file.
    ///
    /// The base archive must be among the files (`BasePackageNotFound`). The
    /// first patch archive whose number the machine cannot count gives
    /// `ParsePatchIndexError` with its name.
    pub fn read_patch_indices(&self, file_names: &Vec<String>) -> (r: Result<
        Vec<PatchId>,
        ResourcePartitionError,
    >)
        ensures
            ({
                let pattern = patch_file_pattern(self.info@.id.name());
                let bad = first_uncounted(pattern, file_names@, 0);
                match r {
                    Err(ResourcePartitionError::BasePackageNotFound(name)) => !self.has_base(
                        file_names@,
                    ) && name@ == self.info@.id.filename(PatchId::Base),
                    Err(ResourcePartitionError::ParsePatchIndexError(name)) => self.has_base(
                        file_names@,
                    ) && bad < file_names@.len() && name@ == file_names@[bad]@,
                    Err(_) => false,
                    Ok(patches) => self.has_base(file_names@) && bad == file_names@.len()
                        && exists|levels: Seq<usize>|
                        patches@ == patches_of(levels) && self.patch_levels(file_names@, levels),
                }
            }),
    {
        let filename = self.info.filename(PatchId::Base);
        let wanted = chars_of(filename.as_str());
        let mut found_base = false;
        let mut i: usize = 0;
        while i < file_names.len()
            invariant
                i <= file_names@.len(),
                wanted@ == self.info@.id.filename(PatchId::Base),
                found_base <==> exists|k: int|
                    0 <= k < i && (#[trigger] file_names@[k])@ == wanted@,
            decreases file_names@.len() - i,
        {
            if same_chars(&chars_of(file_names[i].as_str()), &wanted) {
                found_base = true;
            }
            i += 1;
        }
        if !found_base {
            return Err(ResourcePartitionError::BasePackageNotFound(filename));
        }
        let mut pattern: Vec<char> = Vec::new();
        push_str(&mut pattern, "^");
        push_str(&mut pattern, self.info.id.to_string().as_str());
        push_str(&mut pattern, "patch(\\d+)\\.rpkg$");
        let pattern = string_of(&pattern);
        assert(pattern@ =~= patch_file_pattern(self.info@.id.name()));
        let mut levels: Vec<usize> = Vec::new();
        let mut j: usize = 0;
        while j < file_names.len()
            invariant
                j <= file_names@.len(),
                exists|k: int|
                    0 <= k < file_names@.len() && (#[trigger] file_names@[k])@
                        == self.info@.id.filename(PatchId::Base),
                pattern@ == patch_file_pattern(self.info@.id.name()),
                ascending(levels@),
                levels@.to_multiset() == levels_in(
                    pattern@,
                    file_names@,
                    self.info.patch_level,
                    j as int,
                ).to_multiset(),
                forall|k: int|
                    0 <= k < j ==> patch_level_in(pattern@, (#[trigger] file_names@[k])@) != Some(
                        None::<usize>,
                    ),
            decreases file_names@.len() - j,
        {
            let ghost before = levels_in(pattern@, file_names@, self.info.patch_level, j as int);
            match captures(pattern.as_str(), file_names[j].as_str()) {
                Some(groups) => {
                    match Self::patch_level_from(&groups) {
                        Some(level) => {
                            if level <= self.info.patch_level {
                                insert_ascending(&mut levels, level);
                                proof {
                                    vstd::seq_lib::to_multiset_build(before, level);
                                }
                            }
                        },
                        None => {
                            proof {
                                lemma_first_uncounted(pattern@, file_names@, 0, j as int);
                            }
                            return Err(
                                ResourcePartitionError::ParsePatchIndexError(
                                    file_names[j].clone(),
                                ),
                            );
                        },
                    }
                },
                None => {},
            }
            j += 1;
        }
        let mut patches: Vec<PatchId> = Vec::new();
        let mut k: usize = 0;
        while k < levels.len()
            invariant
                k <= levels@.len(),
                patches@.len() == k,
                forall|m: int| 0 <= m < k ==> patches@[m] == PatchId::Patch(levels@[m]),
            decreases levels@.len() - k,
        {
            patches.push(PatchId::Patch(levels[k]));
            k += 1;
        }
        proof {
            lemma_first_uncounted(pattern@, file_names@, 0, file_names@.len() as int);
            assert(patches@ =~= patches_of(levels@));
        }
        Ok(patches)
    }

    /// The archives of the partition to mount, in the order of mounting:
    /// the base and then the patches that `read_patch_indices` finds. `None`
    /// where it finds fault with the files: the partition is then left
    /// unmounted, which is no error, because a game may list partitions that
    /// are not installed.
    pub fn mount_order(&self, file_names: &Vec<String>) -> (r: Option<Vec<PatchId>>)
        ensures
            ({
                let pattern = patch_file_pattern(self.info@.id.name());
                let mountable = self.has_base(file_names@) && first_uncounted(
                    pattern,
                    file_names@,
                    0,
                ) == file_names@.len();
                match r {
                    None => !mountable,
                    Some(order) => mountable && exists|levels: Seq<usize>|
                        order@ == seq![PatchId::Base] + patches_of(levels) && self.patch_levels(
                            file_names@,
                            levels,
                        ),
                }
            }),
    {
        match self.read_patch_indices(file_names) {
            Ok(patches) => {
                let mut order: Vec<PatchId> = Vec::new();
                order.push(PatchId::Base);
                let mut i: usize = 0;
                while i < patches.len()
                    invariant
                        i <= patches@.len(),
                        order@ == seq![PatchId::Base] + patches@.take(i as int),
                    decreases patches@.len() - i,
                {
                    order.push(patches[i]);
                    assert(patches@.take(i + 1) =~= patches@.take(i as int).push(patches@[i as int]));
                    assert((seq![PatchId::Base] + patches@.take(i as int)).push(patches@[i as int])
                        =~= seq![PatchId::Base] + patches@.take(i + 1));
                    i += 1;
                }
                assert(patches@.take(i as int) =~= patches@);
                Some(order)
            },
            Err(_) => None,
        }
    }

    /// Mounts the given archives, in the order given, which for a partition
    /// is the base and then its patches by number. Each is layered on top of
    /// those before it.
    pub fn mount_resource_packages_in_partition(&mut self, archives: Vec<(PatchId, ResourcePackage)>)
        requires
            old(self).wf(),
            forall|i: int| 0 <= i < archives@.len() ==> (#[trigger] archives@[i]).1.wf(),
        ensures
            final(self).wf(),
            final(self).info == old(self).info,
            final(self).resources@ == layered_all(
                old(self).resources@,
                archives_view(archives@),
                archives@.len() as int,
            ),
            final(self).packages@ == mounted_all(
                old(self).packages@,
                archives@,
                archives@.len() as int,
            ),
    {
        let mut rest = archives;
        let ghost given = archives@;
        let ghost all = archives_view(archives@);
        let ghost total = archives@.len();
        let mut done: usize = 0;
        let count = rest.len();
        while rest.len() > 0
            invariant
                self.wf(),
                total == count,
                self.info == old(self).info,
                done + rest@.len() == total,
                total == all.len(),
                forall|i: int| 0 <= i < rest@.len() ==> (#[trigger] rest@[i]).1.wf(),
                forall|i: int|
                    0 <= i < rest@.len() ==> ((#[trigger] rest@[i]).0, rest@[i].1@) == all[done
                        + i],
                self.resources@ == layered_all(old(self).resources@, all, done as int),
                given.len() == total,
                forall|i: int| 0 <= i < rest@.len() ==> (#[trigger] rest@[i]) == given[done + i],
                self.packages@ == mounted_all(old(self).packages@, given, done as int),
            decreases rest@.len(),
        {
            let ghost before = rest@;
            let (patch_index, package) = rest.remove(0);
            assert(before[0].1.wf());
            assert((before[0].0, before[0].1@) == all[done + 0]);
            assert(before[0] == given[done + 0]);
            assert forall|i: int| 0 <= i < rest@.len() implies ((#[trigger] rest@[i]).0, rest@[i].1@)
                == all[done + 1 + i] && rest@[i].1.wf() && rest@[i] == given[done + 1 + i] by {
                assert(rest@[i] == before[i + 1]);
            }
            self.mount_package(package, patch_index);
            done += 1;
        }
    }

    /// Whether the layered view holds `rrid`.
    pub fn contains(&self, rrid: &RuntimeResourceID) -> (r: bool)
        ensures
            r == self.resources@.dom().contains(rrid.id),
    {
        self.resources.contains_key(&rrid.id)
    }

    /// The number of mounted patches.
    pub fn num_patches(&self) -> (r: usize)
        ensures
            r == if self.packages@.len() == 0 {
                0
            } else {
                self.packages@.len() - 1
            },
    {
        let n = self.packages.len();
        if n == 0 {
            0
        } else {
            n - 1
        }
    }

    /// Whether `r` is what reading the resource `id` from the archive
    /// `owner` gives: the data of the resource, or `NotMounted` where the
    /// archive is not mounted, or the error of the archive with its file name.
    pub open spec fn reads_from(
        &self,
        id: u64,
        owner: PatchId,
        r: Result<Vec<u8>, ResourcePartitionError>,
    ) -> bool {
        let slot = slot_of(self.packages@, owner);
        if slot < 0 {
            r matches Err(ResourcePartitionError::NotMounted)
        } else {
            match r {
                Ok(data) => self.packages@[slot].1.reads_as(id, Ok(data)),
                Err(ResourcePartitionError::ReadResourcePackageError(e, name)) => self.packages@[slot].1.reads_as(
                    id,
                    Err(e),
                ) && name@ == self.info@.id.filename(owner),
                Err(_) => false,
            }
        }
    }

    /// Reads the resource `rrid` from the archive `patch_id`, whether or
    /// not that archive owns it in the layered view.
    pub fn read_resource_from(&self, rrid: &RuntimeResourceID, patch_id: PatchId) -> (r: Result<
        Vec<u8>,
        ResourcePartitionError,
    >)
        requires
            self.wf(),
        ensures
            self.reads_from(rrid.id, patch_id, r),
    {
        let slot = match self.find_package(patch_id) {
            Some(slot) => slot,
            None => {
                return Err(ResourcePartitionError::NotMounted);
            },
        };
        let rpkg = &self.packages[slot].1;
        assert(self.packages@[slot as int].1.wf());
        match rpkg.read_resource(rrid) {
            Ok(data) => Ok(data),
            Err(e) => Err(
                ResourcePartitionError::ReadResourcePackageError(e, self.info.filename(patch_id)),
            ),
        }
    }

    /// Reads the resource `rrid` from the archive that owns it in the
    /// layered view; `ResourceNotAvailable` where the view does not hold it.
    pub fn read_resource(&self, rrid: &RuntimeResourceID) -> (r: Result<
        Vec<u8>,
        ResourcePartitionError,
    >)
        requires
            self.wf(),
        ensures
            match self.resources@.dom().contains(rrid.id) {
                false => r matches Err(ResourcePartitionError::ResourceNotAvailable),
                true => self.reads_from(rrid.id, self.resources@[rrid.id], r),
            },
    {
        let package_index = match self.resources.get(&rrid.id) {
            Some(owner) => *owner,
            None => {
                return Err(ResourcePartitionError::ResourceNotAvailable);
            },
        };
        self.read_resource_from(rrid, package_index)
    }

    /// Where the stored bytes of the resource `rrid` lie: the place among
    /// the mounted archives of the one that owns the resource, the name of
    /// its file, and the offset and the number of the bytes in it. A caller
    /// that holds the archives as files reads that span and hands it to
    /// `decode_owned`.
    pub fn stored_place(&self, rrid: &RuntimeResourceID) -> (r: Result<
        (usize, String, u64, u32),
        ResourcePartitionError,
    >)
        requires
            self.wf(),
        ensures
            match self.resources@.dom().contains(rrid.id) {
                false => r matches Err(ResourcePartitionError::ResourceNotAvailable),
                true => {
                    let owner = self.resources@[rrid.id];
                    let slot = slot_of(self.packages@, owner);
                    &&& 0 <= slot < self.packages@.len()
                    &&& match lookup(self.packages@[slot].1@.resources, rrid.id) {
                        Some(info) => r matches Ok((at, name, offset, size)) && at == slot
                            && name@ == self.info@.id.filename(owner) && offset
                            == info.entry.data_offset && size == info.stored_size(),
                        None => r matches Err(
                            ResourcePartitionError::ReadResourcePackageError(
                                ResourcePackageError::ResourceNotFound,
                                name,
                            ),
                        ) && name@ == self.info@.id.filename(owner),
                    }
                },
            },
    {
        let owner = match self.resources.get(&rrid.id) {
            Some(owner) => *owner,
            None => {
                return Err(ResourcePartitionError::ResourceNotAvailable);
            },
        };
        proof {
            lemma_slot_of(self.packages@, owner);
        }
        let slot = match self.find_package(owner) {
            Some(slot) => slot,
            None => {
                return Err(ResourcePartitionError::NotMounted);
            },
        };
        assert(self.packages@[slot as int].1.wf());
        let name = self.info.filename(owner);
        match self.packages[slot].1.stored_span(rrid) {
            Ok((offset, size)) => Ok((slot, name, offset, size)),
            Err(e) => Err(ResourcePartitionError::ReadResourcePackageError(e, name)),
        }
    }

    /// Turns the stored bytes of the resource `rrid`, read by the caller
    /// from the span that `stored_place` names, into the data of the
    /// resource, as the archive that owns the resource decodes them.
    pub fn decode_owned(&self, rrid: &RuntimeResourceID, stored: Vec<u8>) -> (r: Result<
        Vec<u8>,
        ResourcePartitionError,
    >)
        requires
            self.wf(),
        ensures
            match self.resources@.dom().contains(rrid.id) {
                false => r matches Err(ResourcePartitionError::ResourceNotAvailable),
                true => {
                    let owner = self.resources@[rrid.id];
                    let slot = slot_of(self.packages@, owner);
                    &&& 0 <= slot < self.packages@.len()
                    &&& match lookup(self.packages@[slot].1@.resources, rrid.id) {
                        Some(info) => if extraction_fails(info, stored@) {
                            r matches Err(
                                ResourcePartitionError::ReadResourcePackageError(
                                    ResourcePackageError::Lz4DecompressionError(_),
                                    name,
                                ),
                            ) && name@ == self.info@.id.filename(owner)
                        } else {
                            r matches Ok(out) && extracts_to(info, stored@, out@)
                        },
                        None => r matches Err(
                            ResourcePartitionError::ReadResourcePackageError(
                                ResourcePackageError::ResourceNotFound,
                                name,
                            ),
                        ) && name@ == self.info@.id.filename(owner),
                    }
                },
            },
    {
        let owner = match self.resources.get(&rrid.id) {
            Some(owner) => *owner,
            None => {
                return Err(ResourcePartitionError::ResourceNotAvailable);
            },
        };
        proof {
            lemma_slot_of(self.packages@, owner);
        }
        let slot = match self.find_package(owner) {
            Some(slot) => slot,
            None => {
                return Err(ResourcePartitionError::NotMounted);
            },
        };
        assert(self.packages@[slot as int].1.wf());
        match self.packages[slot].1.decode_resource(rrid, stored) {
            Ok(out) => Ok(out),
            Err(e) => Err(
                ResourcePartitionError::ReadResourcePackageError(e, self.info.filename(owner)),
            ),
        }
    }

    /// What comes back for the answer of a glacier resource to the bytes
    /// it was handed: its output as it is, its error as `ResourceError`.
    pub fn glacier_outcome<T: GlacierResource>(
        answer: Result<T::Output, GlacierResourceError>,
    ) -> (r: Result<T::Output, ResourcePartitionError>)
        ensures
            r == match answer {
                Ok(out) => Ok::<T::Output, ResourcePartitionError>(out),
                Err(e) => Err(ResourcePartitionError::ResourceError(e)),
            },
    {
        match answer {
            Ok(out) => Ok(out),
            Err(e) => Err(ResourcePartitionError::ResourceError(e)),
        }
    }

    /// Reads the resource `rrid` as `read_resource` does and hands its
    /// bytes to `T`, whose answer decides what comes back, as
    /// `glacier_outcome` says. Where reading fails, `T` is not asked and
    /// the failure of `read_resource` comes back.
    pub fn read_glacier_resource<T: GlacierResource>(
        &self,
        woa_version: WoaVersion,
        rrid: &RuntimeResourceID,
    ) -> (r: Result<T::Output, ResourcePartitionError>)
        requires
            self.wf(),
        ensures
            match self.resources@.dom().contains(rrid.id) {
                false => r matches Err(ResourcePartitionError::ResourceNotAvailable),
                true => match r {
                    Ok(_) | Err(ResourcePartitionError::ResourceError(_)) => exists|data: Vec<u8>|
                        self.reads_from(
                            rrid.id,
                            self.resources@[rrid.id],
                            Ok::<Vec<u8>, ResourcePartitionError>(data),
                        ),
                    Err(e) => self.reads_from(
                        rrid.id,
                        self.resources@[rrid.id],
                        Err::<Vec<u8>, ResourcePartitionError>(e),
                    ),
                },
            },
    {
        let bytes = match self.read_resource(rrid) {
            Ok(bytes) => bytes,
            Err(e) => {
                return Err(e);
            },
        };
        assert(self.reads_from(
            rrid.id,
            self.resources@[rrid.id],
            Ok::<Vec<u8>, ResourcePartitionError>(bytes),
        ));
        Self::glacier_outcome::<T>(T::process_data(woa_version, bytes.as_slice()))
    }

    /// What the archive `patch_id` says about `rrid`: `NotMounted` where the
    /// archive is not mounted, `ResourceNotAvailable` where it lacks the resource.
    pub fn resource_info_from(&self, rrid: &RuntimeResourceID, patch_id: PatchId) -> (r: Result<
        &ResourceInfo,
        ResourcePartitionError,
    >)
        requires
            self.wf(),
        ensures
            ({
                let slot = slot_of(self.packages@, patch_id);
                if slot < 0 {
                    r matches Err(ResourcePartitionError::NotMounted)
                } else {
                    match lookup(self.packages@[slot].1@.resources, rrid.id) {
                        Some(info) => r matches Ok(found) && found@ == info,
                        None => r matches Err(ResourcePartitionError::ResourceNotAvailable),
                    }
                }
            }),
    {
        let slot = match self.find_package(patch_id) {
            Some(slot) => slot,
            None => {
                return Err(ResourcePartitionError::NotMounted);
            },
        };
        assert(self.packages@[slot as int].1.wf());
        match self.packages[slot].1.get(rrid) {
            Some(info) => Ok(info),
            None => Err(ResourcePartitionError::ResourceNotAvailable),
        }
    }

    /// What the archive that owns `rrid` in the layered view says about it;
    /// `ResourceNotAvailable` where the view does not hold it.
    pub fn get_resource_info(&self, rrid: &RuntimeResourceID) -> (r: Result<
        &ResourceInfo,
        ResourcePartitionError,
    >)
        requires
            self.wf(),
        ensures
            !self.resources@.dom().contains(rrid.id) ==> r matches Err(
                ResourcePartitionError::ResourceNotAvailable,
            ),
            self.resources@.dom().contains(rrid.id) ==> ({
                let slot = slot_of(self.packages@, self.resources@[rrid.id]);
                &&& slot >= 0
                &&& match lookup(self.packages@[slot].1@.resources, rrid.id) {
                    Some(info) => r matches Ok(found) && found@ == info,
                    None => r matches Err(ResourcePartitionError::ResourceNotAvailable),
                }
            }),
    {
        let package_index = match self.resources.get(&rrid.id) {
            Some(owner) => *owner,
            None => {
                return Err(ResourcePartitionError::ResourceNotAvailable);
            },
        };
        self.resource_info_from(rrid, package_index)
    }

    pub fn partition_info(&self) -> (r: &PartitionInfo)
        ensures
            r == &self.info,
    {
        &self.info
    }

    /// The mounted archives that hold `rrid`, in the order of mounting.
    pub fn resource_patch_indices(&self, rrid: &RuntimeResourceID) -> (r: Vec<PatchId>)
        requires
            self.wf(),
        ensures
            r@ == holders(archives_view(self.packages@), rrid.id, self.packages@.len() as int),
    {
        let mut r: Vec<PatchId> = Vec::new();
        let mut i: usize = 0;
        while i < self.packages.len()
            invariant
                i <= self.packages@.len(),
                self.wf(),
                r@ == holders(archives_view(self.packages@), rrid.id, i as int),
            decreases self.packages@.len() - i,
        {
            assert(self.packages@[i as int].1.wf());
            if self.packages[i].1.contains(rrid) {
                r.push(self.packages[i].0);
            }
            i += 1;
        }
        r
    }

    /// The mounted archives that delete `rrid`, in the order of mounting.
    pub fn resource_removal_indices(&self, rrid: &RuntimeResourceID) -> (r: Vec<PatchId>)
        ensures
            r@ == removers(archives_view(self.packages@), rrid.id, self.packages@.len() as int),
    {
        let mut r: Vec<PatchId> = Vec::new();
        let mut i: usize = 0;
        while i < self.packages.len()
            invariant
                i <= self.packages@.len(),
                r@ == removers(archives_view(self.packages@), rrid.id, i as int),
            decreases self.packages@.len() - i,
        {
            if self.packages[i].1.has_unneeded_resource(rrid) {
                r.push(self.packages[i].0);
            }
            i += 1;
        }
        r
    }

    /// The resources of the layered view, each with the archive that owns
    /// it: for every mounted archive, in the order of mounting, those of
    /// its resources that it owns, in the order of its table.
    pub fn latest_resources(&self) -> (r: Vec<(&ResourceInfo, PatchId)>)
        ensures
            owned_view(r@) == latest_in(
                archives_view(self.packages@),
                self.resources@,
                self.packages@.len() as int,
            ),
    {
        let mut r: Vec<(&ResourceInfo, PatchId)> = Vec::new();
        let mut i: usize = 0;
        while i < self.packages.len()
            invariant
                i <= self.packages@.len(),
                owned_view(r@) == latest_in(
                    archives_view(self.packages@),
                    self.resources@,
                    i as int,
                ),
            decreases self.packages@.len() - i,
        {
            let patch = self.packages[i].0;
            let table = &self.packages[i].1.resources;
            let ghost done = owned_view(r@);
            let mut j: usize = 0;
            while j < table.len()
                invariant
                    i < self.packages@.len(),
                    j <= table@.len(),
                    table@ == self.packages@[i as int].1.resources@,
                    patch == self.packages@[i as int].0,
                    owned_view(r@) == done + owned_in(
                        table_view(table@),
                        patch,
                        self.resources@,
                        j as int,
                    ),
                decreases table@.len() - j,
            {
                let info = &table[j];
                let ghost before = owned_view(r@);
                let owned = match self.resources.get(&info.entry.runtime_resource_id.id) {
                    Some(owner) => match (*owner, patch) {
                        (PatchId::Base, PatchId::Base) => true,
                        (PatchId::Patch(a), PatchId::Patch(b)) => a == b,
                        _ => false,
                    },
                    None => false,
                };
                if owned {
                    r.push((info, patch));
                    assert(owned_view(r@) =~= before.push((info@, patch)));
                }
                j += 1;
            }
            i += 1;
        }
        r
    }
}

/// Those of the first `count` resources of the table of an archive that
/// the archive `owner` owns in the layered view `index`, each with `owner`.
pub open spec fn owned_in(
    table: Seq<ResourceInfoView>,
    owner: PatchId,
    index: Map<u64, PatchId>,
    count: int,
) -> Seq<(ResourceInfoView, PatchId)>
    decreases count,
{
    if count <= 0 {
        Seq::empty()
    } else {
        let before = owned_in(table, owner, index, count - 1);
        let info = table[count - 1];
        if index.dom().contains(info.id()) && index[info.id()] == owner {
            before.push((info, owner))
        } else {
            before
        }
    }
}

/// For each of the first `count` archives, in order, the resources that it
/// owns in the layered view `index`.
pub open spec fn latest_in(
    archives: Seq<(PatchId, PackageView)>,
    index: Map<u64, PatchId>,
    count: int,
) -> Seq<(ResourceInfoView, PatchId)>
    decreases count,
{
    if count <= 0 {
        Seq::empty()
    } else {
        latest_in(archives, index, count - 1) + owned_in(
            archives[count - 1].1.resources,
            archives[count - 1].0,
            index,
            archives[count - 1].1.resources.len() as int,
        )
    }
}

/// The contents of resources that are named with their owners.
pub open spec fn owned_view(found: Seq<(&ResourceInfo, PatchId)>) -> Seq<(ResourceInfoView, PatchId)> {
    Seq::new(found.len(), |k: int| (found[k].0@, found[k].1))
}

/// What an archive does to a resource.
#[derive(Clone, Copy, Debug, PartialEq, Eq, Structural)]
pub enum ChangeKind {
    /// The archive deletes the resource.
    Removal,
    /// The archive holds the resource, which was not there before it; with
    /// the number of bytes that the resource takes in the archive.
    Addition { size: u32 },
    /// The archive holds the resource, which was there before it; with the
    /// number of bytes that the resource took before and takes now.
    Modification { from: u32, to: u32 },
}

/// One step in the history of a resource.
#[derive(Clone, Copy, Debug, PartialEq, Eq, Structural)]
pub struct ResourceChange {
    pub patch: PatchId,
    pub kind: ChangeKind,
}

/// The places of the first `count` archives, ordered by their patch ids:
/// the base first, then the patches by number.
pub open spec fn patch_order(archives: Seq<(PatchId, PackageView)>, count: int) -> Seq<int>
    decreases count,
{
    if count <= 0 {
        Seq::empty()
    } else {
        let before = patch_order(archives, count - 1);
        before.insert(rank_place(archives, before, count - 1, before.len() as int), count - 1)
    }
}

/// Where the archive at `place` goes among the first `upto` of `order`:
/// behind the last that is not layered after it.
pub open spec fn rank_place(
    archives: Seq<(PatchId, PackageView)>,
    order: Seq<int>,
    place: int,
    upto: int,
) -> int
    decreases upto,
{
    if upto <= 0 {
        0
    } else if archives[order[upto - 1]].0.rank() <= archives[place].0.rank() {
        upto
    } else {
        rank_place(archives, order, place, upto - 1)
    }
}

/// The history of the resource `id` over the archives at the first `count`
/// places of `order`, with the size that the resource has after them where
/// it is there. An archive that deletes the resource adds a removal; an
/// archive that holds it adds an addition or, where the resource is there
/// already, a modification. An archive that does both adds both, the
/// removal first.
pub open spec fn history(
    archives: Seq<(PatchId, PackageView)>,
    order: Seq<int>,
    id: u64,
    count: int,
) -> (Seq<ResourceChange>, Option<u32>)
    decreases count,
{
    if count <= 0 {
        (Seq::empty(), None)
    } else {
        let (before, last) = history(archives, order, id, count - 1);
        let (patch, package) = archives[order[count - 1]];
        let (removed, present) = if deletes(package, id) {
            (before.push(ResourceChange { patch, kind: ChangeKind::Removal }), None)
        } else {
            (before, last)
        };
        match lookup(package.resources, id) {
            Some(info) => (
                removed.push(
                    ResourceChange {
                        patch,
                        kind: match present {
                            Some(from) => ChangeKind::Modification { from, to: info.stored_size() },
                            None => ChangeKind::Addition { size: info.stored_size() },
                        },
                    },
                ),
                Some(info.stored_size()),
            ),
            None => (removed, present),
        }
    }
}

impl ResourcePartition {
    /// The places of the mounted archives, ordered by their patch ids.
    fn ordered_packages(&self) -> (order: Vec<usize>)
        ensures
            order@.len() == self.packages@.len(),
            order@.map_values(|i: usize| i as int) == patch_order(
                archives_view(self.packages@),
                self.packages@.len() as int,
            ),
            forall|k: int| 0 <= k < order@.len() ==> (#[trigger] order@[k]) < self.packages@.len(),
    {
        let mut order: Vec<usize> = Vec::new();
        let ghost archives = archives_view(self.packages@);
        let mut i: usize = 0;
        assert(order@.map_values(|i: usize| i as int) =~= patch_order(archives, 0));
        while i < self.packages.len()
            invariant
                i <= self.packages@.len(),
                archives == archives_view(self.packages@),
                order@.len() == i,
                order@.map_values(|i: usize| i as int) == patch_order(archives, i as int),
                forall|k: int| 0 <= k < i ==> (#[trigger] order@[k]) < i,
            decreases self.packages@.len() - i,
        {
            let patch = self.packages[i].0;
            let ghost spec_order = patch_order(archives, i as int);
            let mut at: usize = order.len();
            while at > 0 && patch.precedes(&self.packages[order[at - 1]].0)
                invariant
                    at <= order@.len(),
                    order@.len() == i,
                    i < self.packages@.len(),
                    archives == archives_view(self.packages@),
                    patch == self.packages@[i as int].0,
                    spec_order == order@.map_values(|i: usize| i as int),
                    forall|k: int| 0 <= k < i ==> (#[trigger] order@[k]) < i,
                    rank_place(archives, spec_order, i as int, i as int) == rank_place(
                        archives,
                        spec_order,
                        i as int,
                        at as int,
                    ),
                decreases at,
            {
                assert(spec_order[at - 1] == order@[at - 1] as int);
                assert(archives[order@[at - 1] as int].0 == self.packages@[order@[at - 1] as int].0);
                assert(archives[i as int].0 == patch);
                at -= 1;
            }
            proof {
                if at > 0 {
                    assert(spec_order[at - 1] == order@[at - 1] as int);
                    assert(archives[order@[at - 1] as int].0 == self.packages@[order@[at
                        - 1] as int].0);
                    assert(archives[i as int].0 == patch);
                }
            }
            let ghost before_order = order@;
            order.insert(at, i);
            proof {
                assert(order@.map_values(|i: usize| i as int) =~= spec_order.insert(
                    at as int,
                    i as int,
                ));
                assert forall|k: int| 0 <= k < i + 1 implies (#[trigger] order@[k]) < i + 1 by {
                    if k < at {
                        assert(order@[k] == before_order[k]);
                    } else if k > at {
                        assert(order@[k] == before_order[k - 1]);
                    }
                }
            }
            i += 1;
        }
        order
    }

    /// The change-log of a resource: what the mounted archives do to it, in
    /// the order in which they are layered, the base first.
    pub fn resource_changelog(&self, rrid: &RuntimeResourceID) -> (r: Vec<ResourceChange>)
        requires
            self.wf(),
        ensures
            r@ == history(
                archives_view(self.packages@),
                patch_order(archives_view(self.packages@), self.packages@.len() as int),
                rrid.id,
                self.packages@.len() as int,
            ).0,
    {
        let order = self.ordered_packages();
        let ghost archives = archives_view(self.packages@);
        let ghost spec_order = patch_order(archives, self.packages@.len() as int);
        let mut changes: Vec<ResourceChange> = Vec::new();
        let mut last: Option<u32> = None;
        let mut k: usize = 0;
        while k < order.len()
            invariant
                k <= order@.len(),
                self.wf(),
                order@.len() == self.packages@.len(),
                archives == archives_view(self.packages@),
                spec_order == order@.map_values(|i: usize| i as int),
                forall|j: int|
                    0 <= j < order@.len() ==> (#[trigger] order@[j]) < self.packages@.len(),
                (changes@, last) == history(archives, spec_order, rrid.id, k as int),
            decreases order@.len() - k,
        {
            let at = order[k];
            assert(spec_order[k as int] == at as int);
            assert(archives[at as int] == (self.packages@[at as int].0, self.packages@[at as int].1@));
            assert(self.packages@[at as int].1.wf());
            let patch = self.packages[at].0;
            let package = &self.packages[at].1;
            if package.has_unneeded_resource(rrid) {
                changes.push(ResourceChange { patch, kind: ChangeKind::Removal });
                last = None;
            }
            match package.get(rrid) {
                Some(info) => {
                    let size = match info.compressed_size() {
                        Some(n) => n,
                        None => info.header.data_size,
                    };
                    let kind = match last {
                        Some(from) => ChangeKind::Modification { from, to: size },
                        None => ChangeKind::Addition { size },
                    };
                    changes.push(ResourceChange { patch, kind });
                    last = Some(size);
                },
                None => {},
            }
            k += 1;
        }
        changes
    }
}

} // verus!
