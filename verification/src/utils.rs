//! Paths, taken apart into their components by the caller.

use vstd::prelude::*;

verus! {

/// What a component of a path is, as the standard library tells them apart.
#[derive(Debug, PartialEq, Eq, Structural, Clone, Copy)]
pub enum PathPart {
    /// A prefix such as a drive, which only the first component can be.
    Prefix,
    /// The root directory.
    RootDir,
    /// The directory itself, `.`.
    CurDir,
    /// The directory above, `..`.
    ParentDir,
    /// A name.
    Normal,
}

/// The places of the first `count` components that stay when `.` and `..`
/// are taken out of a path: `.` goes, `..` goes and takes the name before
/// it along, where a name is the last that stayed, and everything else
/// stays.
pub open spec fn normal_parts(parts: Seq<PathPart>, count: int) -> Seq<int>
    decreases count,
{
    if count <= 0 {
        Seq::empty()
    } else {
        let before = normal_parts(parts, count - 1);
        match parts[count - 1] {
            PathPart::CurDir => before,
            PathPart::ParentDir => if before.len() > 0 && parts[before.last()] == PathPart::Normal {
                before.drop_last()
            } else {
                before
            },
            _ => before.push(count - 1),
        }
    }
}

/// Takes `.` and `..` out of a path without looking at the file system:
/// the places of the components that stay, in order. A prefix stands only
/// at the start of a path.
pub fn normalize_path(parts: &Vec<PathPart>) -> (r: Vec<usize>)
    requires
        forall|i: int| 1 <= i < parts@.len() ==> parts@[i] != PathPart::Prefix,
    ensures
        r@.map_values(|i: usize| i as int) == normal_parts(parts@, parts@.len() as int),
        forall|k: int| 0 <= k < r@.len() ==> (#[trigger] r@[k]) < parts@.len(),
{
    let mut r: Vec<usize> = Vec::new();
    let mut i: usize = 0;
    assert(r@.map_values(|i: usize| i as int) =~= normal_parts(parts@, 0));
    while i < parts.len()
        invariant
            i <= parts@.len(),
            r@.map_values(|i: usize| i as int) == normal_parts(parts@, i as int),
            forall|k: int| 0 <= k < r@.len() ==> (#[trigger] r@[k]) < i,
        decreases parts@.len() - i,
    {
        let ghost before = r@.map_values(|i: usize| i as int);
        match parts[i] {
            PathPart::CurDir => {},
            PathPart::ParentDir => {
                let n = r.len();
                if n > 0 {
                    assert(before.last() == r@[n - 1]);
                    let last = r[n - 1];
                    match parts[last] {
                        PathPart::Normal => {
                            r.pop();
                            assert(r@.map_values(|i: usize| i as int) =~= before.drop_last());
                        },
                        _ => {},
                    }
                }
            },
            _ => {
                r.push(i);
                assert(r@.map_values(|i: usize| i as int) =~= before.push(i as int));
            },
        }
        i += 1;
    }
    r
}

} // verus!
