//! Locating an external program, either directly inside a given directory
//! or on the executable search path.
use std::path::PathBuf;

use vstd::prelude::*;
use walkdir::WalkDir;

use crate::text::string_from;

verus! {

/// Declares `std::path::PathBuf` so that paths can pass through the
/// library.
#[verifier::external_type_specification]
#[verifier::external_body]
pub struct ExPathBuf(PathBuf);

/// Relies on `which::which`: the first executable named `command` on the
/// search path, if there is one. What it finds depends on the machine.
#[verifier::external_body]
fn which_path(command: &str) -> Option<PathBuf> {
    which::which(command).ok()
}

/// Relies on `Path::is_dir`: whether `dir` names a directory on disk.
#[verifier::external_body]
fn is_dir(dir: &PathBuf) -> bool {
    dir.is_dir()
}

/// Relies on `walkdir::WalkDir` with `max_depth(1)`: the items it yields
/// for `dir`, in order (first `dir` itself, then the entries directly inside
/// it), each as its file name and path, or `None` where reading it failed.
#[verifier::external_body]
fn dir_listing(dir: &PathBuf) -> Vec<Option<(String, PathBuf)>> {
    WalkDir::new(dir)
        .max_depth(1)
        .into_iter()
        .map(|e| e.ok().map(|e| (e.file_name().to_string_lossy().to_string(), e.into_path())))
        .collect()
}

/// The file name of a listing item; empty for an unreadable one.
pub open spec fn item_name(o: Option<(String, PathBuf)>) -> Seq<char> {
    match o {
        Some((name, _)) => name@,
        None => Seq::empty(),
    }
}

/// The search over a listing stops at `k`: every item before it is
/// readable and named otherwise, and item `k` is unreadable or named
/// `command`.
pub open spec fn listing_stop(l: Seq<Option<(String, PathBuf)>>, command: Seq<char>, k: int) -> bool {
    &&& 0 <= k < l.len()
    &&& (l[k] is None || item_name(l[k]) == command)
    &&& forall|j: int| 0 <= j < k ==> (#[trigger] l[j]) is Some && item_name(l[j]) != command
}

/// Where the search for `command` in a directory listing ends with a
/// match: the position of the first item named `command`, when every item
/// before it could be read; `None` when an unreadable item comes first or
/// no item has that name.
pub fn find_in_listing(listing: &Vec<Option<(String, PathBuf)>>, command: &str) -> (r: Option<usize>)
    ensures
        match r {
            Some(k) => listing_stop(listing@, command@, k as int) && listing@[k as int] is Some,
            None => forall|k: int|
                !(#[trigger] listing_stop(listing@, command@, k) && listing@[k] is Some),
        },
{
    let wanted = string_from(command);
    let mut i: usize = 0;
    while i < listing.len()
        invariant
            i <= listing@.len(),
            wanted@ == command@,
            forall|j: int| 0 <= j < i ==> (#[trigger] listing@[j]) is Some && item_name(listing@[j])
                != command@,
        decreases listing.len() - i,
    {
        match &listing[i] {
            None => {
                assert(listing_stop(listing@, command@, i as int));
                assert forall|k: int| !(#[trigger] listing_stop(listing@, command@, k) && listing@[k] is Some) by {
                    if listing_stop(listing@, command@, k) && k != i {
                        if k > i {
                            assert(listing@[i as int] is Some);
                        }
                    }
                }
                return None;
            },
            Some(item) => {
                if item.0 == wanted {
                    return Some(i);
                }
            },
        }
        i = i + 1;
    }
    None
}

/// Finds `command` directly inside the directory `path` (not in its
/// subdirectories), or on the executable search path when no directory is
/// given. A directory that cannot be read, or an unreadable item met
/// before a match, gives `None`.
pub fn find_command_path(path: Option<&PathBuf>, command: &str) -> Option<PathBuf> {
    match path {
        Some(dir) => {
            if !is_dir(dir) {
                return None;
            }
            let mut listing = dir_listing(dir);
            match find_in_listing(&listing, command) {
                Some(k) => match listing.swap_remove(k) {
                    Some((_, p)) => Some(p),
                    None => None,
                },
                None => None,
            }
        },
        None => which_path(command),
    }
}

} // verus!
