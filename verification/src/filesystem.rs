//! The virtual filesystem: paths, the errors of its operations, directory entries and
//! the choice of the mount point that serves a path.
pub mod path;

use vstd::prelude::*;
use crate::filesystem::path::Path;
use crate::text::same_text;

verus! {

/// Why a filesystem operation failed.
#[derive(Copy, Clone, PartialEq, Eq, Structural, Debug)]
pub enum Error {
    NotFound,
    PermissionDenied,
    UnknownMountPoint,
}

/// A change seen by a watcher.
pub enum WatchEvent {
    Write(Path),
}

/// What a directory entry is.
#[derive(Copy, Clone, PartialEq, Eq, Structural, Debug)]
pub enum DirEntryType {
    File,
    Directory,
}

/// An entry of a directory listing.
pub struct DirEntry {
    pub ty: DirEntryType,
    pub path: Path,
}

/// How to list a directory, each one bit of a flag mask.
#[derive(Copy, Clone, PartialEq, Eq, Structural, Debug)]
pub enum IterDirFlagBits {
    /// Also list the contents of sub-directories.
    Recursive,
}

impl IterDirFlagBits {
    /// The flag's bit.
    pub fn bits(&self) -> (res: u32)
        ensures
            res == 1u32,
    {
        match self {
            IterDirFlagBits::Recursive => 1,
        }
    }
}

/// The first position of `aliases` that holds `name`.
pub open spec fn first_alias(aliases: Seq<Seq<char>>, name: Seq<char>) -> Option<int> {
    if exists|i: int| 0 <= i < aliases.len() && aliases[i] == name {
        Some(choose|i: int| 0 <= i < aliases.len() && aliases[i] == name && forall|j: int| 0 <= j < i ==> aliases[j] != name)
    } else {
        None
    }
}

/// The mount point that serves `path` among mount points of aliases `aliases`: the
/// first whose alias is the path's mount point; none for a path without mount point.
pub fn matching_mount_point(aliases: &Vec<String>, path: &Path) -> (res: Option<usize>)
    requires
        path.wf(),
    ensures
        match path.view().mount_point_str() {
            Some(m) => match res {
                Some(i) => first_alias(aliases@.map_values(|a: String| a@), m) == Some(i as int),
                None => first_alias(aliases@.map_values(|a: String| a@), m) is None,
            },
            None => res is None,
        },
{
    let ghost names = aliases@.map_values(|a: String| a@);
    let mount_point = match path.mount_point() {
        Some(m) => m,
        None => { return None; },
    };
    let mut i: usize = 0;
    while i < aliases.len()
        invariant
            names == aliases@.map_values(|a: String| a@),
            path.view().mount_point_str() == Some(mount_point@),
            i <= aliases@.len(),
            forall|j: int| 0 <= j < i ==> #[trigger] names[j] != mount_point@,
        decreases aliases@.len() - i,
    {
        if same_text(aliases[i].as_str(), mount_point.as_str()) {
            proof {
                assert(names[i as int] == mount_point@);
                assert(forall|j: int| 0 <= j < i ==> names[j] != mount_point@);
                assert(0 <= i < names.len() && names[i as int] == mount_point@ && forall|j: int| 0 <= j < i ==> names[j] != mount_point@);
                let k = choose|k: int| 0 <= k < names.len() && names[k] == mount_point@ && forall|j: int| 0 <= j < k ==> names[j] != mount_point@;
                assert(k == i as int) by {
                    if k < i {
                        assert(names[k] != mount_point@);
                    }
                    if k > i {
                        assert(names[i as int] != mount_point@);
                    }
                }
            }
            return Some(i);
        }
        i = i + 1;
    }
    None
}

/// The next step of an operation dispatched to the mount points.
#[derive(Copy, Clone, PartialEq, Eq, Structural, Debug)]
pub enum Dispatch {
    /// Make the operation on the mount point at this position.
    Try(usize),
    /// Stop with this error.
    Fail(Error),
}

/// The first step of an operation on a path: the mount point that serves it when one
/// matches (`matching`), else the first of the `count` mount points, else a `NotFound`.
pub fn first_dispatch(matching: Option<usize>, count: usize) -> (res: Dispatch)
    ensures
        res == match matching {
            Some(i) => Dispatch::Try(i),
            None => if count > 0 { Dispatch::Try(0) } else { Dispatch::Fail(Error::NotFound) },
        },
{
    match matching {
        Some(i) => Dispatch::Try(i),
        None => if count > 0 { Dispatch::Try(0) } else { Dispatch::Fail(Error::NotFound) },
    }
}

/// The step after the mount point at position `index` failed with `error` (a success
/// ends the operation with it): the error when the mount point matched the path; else
/// the next of the `count` mount points when the path was not found, the error itself
/// otherwise, and `NotFound` once every mount point was tried.
pub fn next_dispatch(matched: bool, index: usize, count: usize, error: Error) -> (res: Dispatch)
    requires
        index < count,
    ensures
        res == if matched {
            Dispatch::Fail(error)
        } else if error != Error::NotFound {
            Dispatch::Fail(error)
        } else if index + 1 < count {
            Dispatch::Try((index + 1) as usize)
        } else {
            Dispatch::Fail(Error::NotFound)
        },
{
    if matched {
        Dispatch::Fail(error)
    } else if error != Error::NotFound {
        Dispatch::Fail(error)
    } else if index + 1 < count {
        Dispatch::Try(index + 1)
    } else {
        Dispatch::Fail(Error::NotFound)
    }
}

} // verus!
