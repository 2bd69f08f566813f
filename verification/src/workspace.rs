//! The snapshot of a session that is kept in the workspace folder.

use std::path::{Path, PathBuf};
use vstd::prelude::*;

verus! {

/// `std::path::PathBuf`, carried through as it is.
#[verifier::external_type_specification]
#[verifier::external_body]
pub struct ExPathBuf(PathBuf);

/// `std::path::Path`, carried through as it is.
#[verifier::external_type_specification]
#[verifier::external_body]
pub struct ExPath(Path);

/// `PathBuf::clone` gives a path equal to the one cloned.
pub assume_specification[ <PathBuf as Clone>::clone ](path: &PathBuf) -> (copy: PathBuf)
    ensures
        copy == *path,
;

/// The name of the file, inside the workspace folder, that holds the
/// snapshot.
pub const STATE_FILE_NAME: &'static str = "workspace_state.json";

/// A snapshot of a session: what is needed to take the work up again.
/// Times are in milliseconds.
#[derive(Debug, Clone)]
pub struct WorkspaceState {
    pub video_path: Option<PathBuf>,
    pub audio_path: Option<PathBuf>,
    pub cut_points: Vec<u64>,
    pub audio_segments: Vec<PathBuf>,
    /// The segments that were complete when the snapshot was taken. This
    /// is advice only: what is complete is told from the fragments.
    pub completed_segments: Vec<usize>,
    pub manual_segment: Option<PathBuf>,
    pub manual_start_time: String,
    pub manual_end_time: String,
    pub total_duration: u64,
    pub workspace_dir: PathBuf,
}

/// The components of a path, in their order, as `Path::components` tells
/// them: what stands between the separators, read by the platform's rules
/// for paths from the text of the path alone, without a look at the file
/// system. Each component stands here as a run of bytes; two components
/// are equal exactly where their runs are. Which runs these are is left
/// open: the library only compares them, and nothing is said of the
/// components of any given path.
pub uninterp spec fn path_components(path: &Path) -> Seq<Seq<u8>>;

/// Tells whether `path` lies in the workspace folder `workspace_dir`: whether
/// the components of the folder are the first components of the path.
pub fn is_in_workspace(path: &Path, workspace_dir: &Path) -> (inside: bool)
    ensures
        inside == path_components(workspace_dir).is_prefix_of(path_components(path)),
{
    path_starts_with(path, workspace_dir)
}

/// `Path::starts_with` tells whether `base` is a prefix of `path`, taking
/// whole components only: whether the components of `base` are the first
/// components of `path`, in the same order. The file system is not looked
/// at.
#[verifier::external_body]
fn path_starts_with(path: &Path, base: &Path) -> (inside: bool)
    ensures
        inside == path_components(base).is_prefix_of(path_components(path)),
{
    path.starts_with(base)
}

/// A copy of an optional path.
pub(crate) fn copy_path(path: &Option<PathBuf>) -> (copy: Option<PathBuf>)
    ensures
        copy == *path,
{
    match path {
        Some(p) => Some(p.clone()),
        None => None,
    }
}

/// A copy of a list of paths.
pub(crate) fn copy_paths(paths: &Vec<PathBuf>) -> (copy: Vec<PathBuf>)
    ensures
        copy@ == paths@,
{
    let mut copy: Vec<PathBuf> = Vec::new();
    let mut i: usize = 0;
    while i < paths.len()
        invariant
            i <= paths.len(),
            copy@ == paths@.take(i as int),
        decreases paths.len() - i,
    {
        proof {
            assert(paths@.take(i as int).push(paths@[i as int]) =~= paths@.take(i + 1));
        }
        copy.push(paths[i].clone());
        i += 1;
    }
    assert(paths@.take(paths.len() as int) =~= paths@);
    copy
}

} // verus!
