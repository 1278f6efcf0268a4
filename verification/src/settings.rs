//! What a scan and a deletion are told.
use vstd::prelude::*;

verus! {

/// What a scan looks at and what it leaves alone.
#[derive(Clone, Debug)]
pub struct ScanSettings {
    /// Patterns of file names that do not count as content.
    pub ignore_files: Vec<String>,
    /// Texts that mark a directory as off limits when they stand in its path.
    pub ignore_dirs: Vec<String>,
    /// Whether directories whose name begins with a dot are off limits.
    pub ignore_hidden: bool,
    /// Whether system directories, those whose name begins with a dot, are
    /// off limits.
    pub keep_system: bool,
    /// How many hours old a directory has to be, 0 for any age.
    pub min_age_hours: u32,
    /// How deep below the root to look, negative for any depth.
    pub max_depth: i32,
    /// Whether a file of 0 bytes does not count as content.
    pub consider_empty_files_empty: bool,
}

/// How directories are deleted.
#[derive(Clone, Debug)]
pub struct DeleteSettings {
    /// Whether a directory goes to the trash rather than being removed.
    pub move_to_trash: bool,
    /// Whether the run goes on after a failure.
    pub ignore_errors: bool,
    /// How many milliseconds to wait after each directory, 0 for no wait.
    pub pause_ms: u32,
    /// Patterns of file names that may be removed with their directory.
    pub ignore_files: Vec<String>,
    /// Whether a file of 0 bytes may be removed with its directory.
    pub consider_empty_files_empty: bool,
}

} // verus!
