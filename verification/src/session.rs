//! What the user asked for, on the command line or in the window.
use vstd::prelude::*;
use vstd::string::*;
use crate::settings::{DeleteSettings, ScanSettings};
use crate::text;
use crate::text::split_list;

verus! {

/// What was asked for on the command line.
#[derive(Clone, Debug)]
pub struct CliRequest {
    /// The directory to scan.
    pub path: Option<String>,
    /// Whether to say nothing.
    pub quiet: bool,
    /// Whether to delete what is found.
    pub delete: bool,
    pub max_depth: i32,
    /// Whether to remove directories rather than move them to the trash.
    pub delete_permanently: bool,
    /// Patterns of file names, separated by commas.
    pub ignore_files: String,
    /// Texts that mark directories as off limits, separated by commas.
    pub ignore_dirs: String,
    pub ignore_hidden: bool,
    pub keep_system: bool,
    pub min_age_hours: u32,
    pub consider_empty_files_empty: bool,
}

/// How the program runs.
#[derive(Clone, Copy, Debug, PartialEq, Eq, Structural)]
pub enum Mode {
    /// With a window.
    Window,
    /// On the console.
    Console,
    /// Not at all: on the console a directory has to be named.
    MissingPath,
}

impl CliRequest {
    /// How the program runs.
    pub open spec fn runs_as(&self) -> Mode {
        if self.quiet || self.delete {
            if self.path is Some {
                Mode::Console
            } else {
                Mode::MissingPath
            }
        } else {
            Mode::Window
        }
    }

    /// `s` is what the scan is to be told.
    pub open spec fn asks_to_scan(&self, s: ScanSettings) -> bool {
        &&& text::texts(s.ignore_files@) == text::list_items(self.ignore_files@, ',')
        &&& text::texts(s.ignore_dirs@) == text::list_items(self.ignore_dirs@, ',')
        &&& s.ignore_hidden == self.ignore_hidden
        &&& s.keep_system == self.keep_system
        &&& s.min_age_hours == self.min_age_hours
        &&& s.max_depth == self.max_depth
        &&& s.consider_empty_files_empty == self.consider_empty_files_empty
    }

    /// `d` is what the deletion is to be told.
    pub open spec fn asks_to_delete(&self, d: DeleteSettings) -> bool {
        &&& d.move_to_trash == !self.delete_permanently
        &&& d.ignore_errors
        &&& d.pause_ms == 0
        &&& text::texts(d.ignore_files@) == text::list_items(self.ignore_files@, ',')
        &&& d.consider_empty_files_empty == self.consider_empty_files_empty
    }

    /// There is something to delete, and it is to be deleted.
    pub open spec fn goes_on_to_delete(&self, empty_count: usize) -> bool {
        self.delete && empty_count > 0
    }

    /// How the program runs: on the console where it is to be quiet or to
    /// delete, else with a window.
    pub fn mode(&self) -> (r: Mode)
        ensures
            r == self.runs_as(),
    {
        if self.quiet || self.delete {
            if self.path.is_some() {
                Mode::Console
            } else {
                Mode::MissingPath
            }
        } else {
            Mode::Window
        }
    }

    /// What the scan is told.
    pub fn scan_settings(&self) -> (r: ScanSettings)
        ensures
            self.asks_to_scan(r),
    {
        ScanSettings {
            ignore_files: split_list(self.ignore_files.as_str(), ','),
            ignore_dirs: split_list(self.ignore_dirs.as_str(), ','),
            ignore_hidden: self.ignore_hidden,
            keep_system: self.keep_system,
            min_age_hours: self.min_age_hours,
            max_depth: self.max_depth,
            consider_empty_files_empty: self.consider_empty_files_empty,
        }
    }

    /// What the deletion is told: directories go to the trash unless they are
    /// to be removed for good, errors do not end it, and it does not pause.
    pub fn delete_settings(&self) -> (r: DeleteSettings)
        ensures
            self.asks_to_delete(r),
    {
        DeleteSettings {
            move_to_trash: !self.delete_permanently,
            ignore_errors: true,
            pause_ms: 0,
            ignore_files: split_list(self.ignore_files.as_str(), ','),
            consider_empty_files_empty: self.consider_empty_files_empty,
        }
    }

    /// Whether there is anything to delete: deletion was asked for, and
    /// something empty was found.
    pub fn deletes(&self, empty_count: usize) -> (r: bool)
        ensures
            r == self.goes_on_to_delete(empty_count),
    {
        self.delete && empty_count > 0
    }
}

/// What was filled in in the window.
#[derive(Clone, Debug)]
pub struct WindowForm {
    /// Patterns of file names, one on a line.
    pub ignore_files: String,
    /// Texts that mark directories as off limits, one on a line.
    pub ignore_dirs: String,
    pub ignore_hidden: bool,
    pub keep_system: bool,
    pub min_age_hours: i32,
    pub max_depth: i32,
    pub consider_empty_files_empty: bool,
    /// The way to delete that was picked, 0 for the trash.
    pub delete_mode: i32,
    pub ignore_errors: bool,
    pub pause_ms: i32,
}

impl WindowForm {
    /// `s` is what the scan is to be told.
    pub open spec fn asks_to_scan(&self, s: ScanSettings) -> bool {
        &&& text::texts(s.ignore_files@) == text::list_items(self.ignore_files@, '\n')
        &&& text::texts(s.ignore_dirs@) == text::list_items(self.ignore_dirs@, '\n')
        &&& s.ignore_hidden == self.ignore_hidden
        &&& s.keep_system == self.keep_system
        &&& s.min_age_hours == self.min_age_hours as u32
        &&& s.max_depth == self.max_depth
        &&& s.consider_empty_files_empty == self.consider_empty_files_empty
    }

    /// `d` is what the deletion is to be told.
    pub open spec fn asks_to_delete(&self, d: DeleteSettings) -> bool {
        &&& d.move_to_trash == (self.delete_mode == 0)
        &&& d.ignore_errors == self.ignore_errors
        &&& d.pause_ms == self.pause_ms as u32
        &&& text::texts(d.ignore_files@) == text::list_items(self.ignore_files@, '\n')
        &&& d.consider_empty_files_empty == self.consider_empty_files_empty
    }

    /// What the scan is told.
    pub fn scan_settings(&self) -> (r: ScanSettings)
        ensures
            self.asks_to_scan(r),
    {
        ScanSettings {
            ignore_files: split_list(self.ignore_files.as_str(), '\n'),
            ignore_dirs: split_list(self.ignore_dirs.as_str(), '\n'),
            ignore_hidden: self.ignore_hidden,
            keep_system: self.keep_system,
            min_age_hours: self.min_age_hours as u32,
            max_depth: self.max_depth,
            consider_empty_files_empty: self.consider_empty_files_empty,
        }
    }

    /// What the deletion is told.
    pub fn delete_settings(&self) -> (r: DeleteSettings)
        ensures
            self.asks_to_delete(r),
    {
        DeleteSettings {
            move_to_trash: self.delete_mode == 0,
            ignore_errors: self.ignore_errors,
            pause_ms: self.pause_ms as u32,
            ignore_files: split_list(self.ignore_files.as_str(), '\n'),
            consider_empty_files_empty: self.consider_empty_files_empty,
        }
    }
}

/// The program opens a window unless it is told to be quiet or to delete; on
/// the console it needs a path, and only with one does it run.
pub proof fn law_window_unless_quiet_or_deleting(r: CliRequest)
    ensures
        r.runs_as() == Mode::Window <==> !r.quiet && !r.delete,
        r.runs_as() == Mode::Console ==> r.path is Some,
        r.runs_as() == Mode::MissingPath ==> r.path is None,
{
}

/// Nothing is deleted unless deletion was asked for and something was found;
/// and then it is.
pub proof fn law_deletion_has_to_be_asked_for(r: CliRequest, found: usize)
    ensures
        r.goes_on_to_delete(found) ==> r.delete && found != 0,
        r.delete && found != 0 ==> r.goes_on_to_delete(found),
{
}

/// On the command line the scan is told every setting as it was given, with
/// the lists taken apart at commas.
pub proof fn law_command_line_reaches_the_scan(r: CliRequest, s: ScanSettings)
    requires
        r.asks_to_scan(s),
    ensures
        s.max_depth == r.max_depth,
        s.min_age_hours == r.min_age_hours,
        s.ignore_hidden == r.ignore_hidden,
        s.keep_system == r.keep_system,
        s.consider_empty_files_empty == r.consider_empty_files_empty,
        text::texts(s.ignore_files@) == text::list_items(r.ignore_files@, ','),
        text::texts(s.ignore_dirs@) == text::list_items(r.ignore_dirs@, ','),
{
}

/// On the command line a scan and the deletion that follows it are told the
/// same of files; directories are removed for good only where that was asked
/// for; and the deletion neither stops at errors nor pauses.
pub proof fn law_command_line_scan_and_deletion_agree(
    r: CliRequest,
    s: ScanSettings,
    d: DeleteSettings,
)
    requires
        r.asks_to_scan(s),
        r.asks_to_delete(d),
    ensures
        text::texts(d.ignore_files@) == text::texts(s.ignore_files@),
        d.consider_empty_files_empty == s.consider_empty_files_empty,
        !d.move_to_trash <==> r.delete_permanently,
        d.ignore_errors,
        d.pause_ms == 0,
{
}

/// In the window the scan is told every setting as it was filled in, with the
/// lists taken apart at line ends.
pub proof fn law_form_reaches_the_scan(f: WindowForm, s: ScanSettings)
    requires
        f.asks_to_scan(s),
    ensures
        s.max_depth == f.max_depth,
        f.min_age_hours >= 0 ==> s.min_age_hours == f.min_age_hours,
        f.min_age_hours < 0 ==> s.min_age_hours == f.min_age_hours + 0x1_0000_0000,
        s.ignore_hidden == f.ignore_hidden,
        s.keep_system == f.keep_system,
        s.consider_empty_files_empty == f.consider_empty_files_empty,
        text::texts(s.ignore_files@) == text::list_items(f.ignore_files@, '\n'),
        text::texts(s.ignore_dirs@) == text::list_items(f.ignore_dirs@, '\n'),
{
    let n: i32 = f.min_age_hours;
    assert(n < 0 ==> (n as u32) == n + 0x1_0000_0000) by (bit_vector);
}

/// In the window a scan and a deletion are told the same of files; the first
/// way to delete is the trash; and errors and pauses are as filled in.
pub proof fn law_form_scan_and_deletion_agree(f: WindowForm, s: ScanSettings, d: DeleteSettings)
    requires
        f.asks_to_scan(s),
        f.asks_to_delete(d),
    ensures
        text::texts(d.ignore_files@) == text::texts(s.ignore_files@),
        d.consider_empty_files_empty == s.consider_empty_files_empty,
        d.move_to_trash <==> f.delete_mode == 0,
        d.ignore_errors == f.ignore_errors,
        f.pause_ms >= 0 ==> d.pause_ms == f.pause_ms,
        f.pause_ms < 0 ==> d.pause_ms == f.pause_ms + 0x1_0000_0000,
{
    let n: i32 = f.pause_ms;
    assert(n < 0 ==> (n as u32) == n + 0x1_0000_0000) by (bit_vector);
}

} // verus!
