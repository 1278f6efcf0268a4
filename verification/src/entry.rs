//! What a walk finds, and what each find means for the directories above it.
use vstd::prelude::*;
use vstd::string::*;
use crate::path::{NameModel, ScanRoot, TreePath};
use crate::settings::ScanSettings;
use crate::text;
use crate::text::{contains, starts_with_char, to_lowercase, with_slashes};
use crate::wild;
use crate::wild::matches_any;

verus! {

/// What kind of thing a walk found.
#[derive(Clone, Copy, Debug, PartialEq, Eq, Structural)]
pub enum EntryKind {
    Dir,
    File,
    Other,
}

/// One find of a walk.
#[derive(Clone, Debug)]
pub struct Entry {
    /// Where it stands below the root.
    pub path: TreePath,
    pub kind: EntryKind,
    /// How many seconds old it is, where that is known.
    pub age_secs: Option<u64>,
    /// How many bytes it holds, where that is known.
    pub size: Option<u64>,
}

/// An entry, with its path as names.
pub struct EntryModel {
    pub path: Seq<NameModel>,
    pub kind: EntryKind,
    pub age_secs: Option<u64>,
    pub size: Option<u64>,
}

impl View for Entry {
    type V = EntryModel;

    open spec fn view(&self) -> EntryModel {
        EntryModel {
            path: self.path@,
            kind: self.kind,
            age_secs: self.age_secs,
            size: self.size,
        }
    }
}

/// The views of a list of entries.
pub open spec fn models(v: Seq<Entry>) -> Seq<EntryModel> {
    v.map_values(|e: Entry| e@)
}

/// What else has to be read of an entry before a scan can judge it.
#[derive(Clone, Copy, Debug, PartialEq, Eq, Structural)]
pub enum Probe {
    Age,
    Size,
    Nothing,
}

/// What has to be read of an entry of a kind.
pub open spec fn probe_of(settings: ScanSettings, kind: EntryKind) -> Probe {
    match kind {
        EntryKind::Dir => if settings.min_age_hours > 0 {
            Probe::Age
        } else {
            Probe::Nothing
        },
        EntryKind::File => if settings.consider_empty_files_empty {
            Probe::Size
        } else {
            Probe::Nothing
        },
        EntryKind::Other => Probe::Nothing,
    }
}

/// What has to be read of an entry of kind `kind`: the age of a directory
/// where a least age is set, the size of a file where empty files do not
/// count.
pub fn probe_for(settings: &ScanSettings, kind: EntryKind) -> (r: Probe)
    ensures
        r == probe_of(*settings, kind),
{
    if kind == EntryKind::Dir && settings.min_age_hours > 0 {
        Probe::Age
    } else if kind == EntryKind::File && settings.consider_empty_files_empty {
        Probe::Size
    } else {
        Probe::Nothing
    }
}

impl ScanSettings {
    /// The entry lies deeper than the scan looks.
    pub open spec fn over_depth(&self, e: EntryModel) -> bool {
        self.max_depth >= 0 && (e.path.len() as i32) > self.max_depth
    }

    /// The entry is a file that counts as content: one that no pattern
    /// ignores and that is not empty where empty files do not count.
    pub open spec fn keeps(&self, e: EntryModel) -> bool {
        &&& e.kind == EntryKind::File
        &&& e.path.len() > 0
        &&& !(self.consider_empty_files_empty && e.size == Some(0u64))
        &&& !wild::any_matches(self.ignore_files@, e.path.last().text)
    }

    /// The entry is younger than the least age.
    pub open spec fn young(&self, e: EntryModel) -> bool {
        &&& self.min_age_hours > 0
        &&& e.age_secs matches Some(secs)
        &&& secs < self.min_age_hours * 3600
    }

    /// A text that marks directories as off limits stands in the text of a
    /// path, with slashes and backslashes, capitals and small letters, taken
    /// as the same.
    pub open spec fn off_limits(&self, shown: Seq<char>) -> bool {
        exists|i: int|
            0 <= i < self.ignore_dirs@.len() && #[trigger] text::contains_text(
                folded(shown),
                folded(self.ignore_dirs@[i]@),
            )
    }

    /// The entry, a directory, is not to be reported even if nothing is in it.
    pub open spec fn protects(&self, root: ScanRoot, e: EntryModel) -> bool {
        ||| self.off_limits(root.text_of(e.path))
        ||| (self.ignore_hidden || self.keep_system) && e.path.len() > 0 && text::begins_with(
            e.path.last().text,
            '.',
        )
        ||| self.young(e)
    }

    /// The entry by itself keeps the directory that it stands in from being
    /// empty.
    pub open spec fn anchors(&self, root: ScanRoot, e: EntryModel) -> bool {
        ||| self.over_depth(e)
        ||| self.keeps(e)
        ||| e.kind == EntryKind::Dir && self.protects(root, e)
    }

    /// Whether the entry lies deeper than the scan looks.
    pub fn is_over_depth(&self, e: &Entry) -> (r: bool)
        ensures
            r == self.over_depth(e@),
    {
        self.max_depth >= 0 && (e.path.names.len() as i32) > self.max_depth
    }

    /// Whether the entry is a file that counts as content.
    pub fn is_kept(&self, e: &Entry) -> (r: bool)
        ensures
            r == self.keeps(e@),
    {
        let len: usize = e.path.names.len();
        if e.kind != EntryKind::File || len == 0 {
            return false;
        }
        if self.consider_empty_files_empty {
            if let Some(size) = e.size {
                if size == 0 {
                    return false;
                }
            }
        }
        !matches_any(&self.ignore_files, e.path.names[len - 1].text.as_str())
    }

    /// Whether the entry is younger than the least age.
    pub fn is_young(&self, e: &Entry) -> (r: bool)
        ensures
            r == self.young(e@),
    {
        match e.age_secs {
            Some(secs) => self.min_age_hours > 0 && secs < self.min_age_hours as u64 * 3600,
            None => false,
        }
    }

    /// The texts that mark directories as off limits, folded.
    pub(crate) fn needles(&self) -> (r: Vec<String>)
        ensures
            r@.len() == self.ignore_dirs@.len(),
            forall|i: int| 0 <= i < r@.len() ==> (#[trigger] r@[i])@ == folded(self.ignore_dirs@[i]@),
    {
        let mut out: Vec<String> = Vec::new();
        let mut i: usize = 0;
        while i < self.ignore_dirs.len()
            invariant
                i <= self.ignore_dirs@.len(),
                out@.len() == i,
                forall|k: int| 0 <= k < i ==> (#[trigger] out@[k])@ == folded(self.ignore_dirs@[k]@),
            decreases self.ignore_dirs@.len() - i,
        {
            out.push(fold(self.ignore_dirs[i].as_str()));
            i += 1;
        }
        out
    }

    /// Whether the entry, a directory, is not to be reported even if nothing
    /// is in it; `needles` are the folded texts that mark directories as off
    /// limits.
    pub(crate) fn is_protected(&self, root: &ScanRoot, needles: &Vec<String>, e: &Entry) -> (r: bool)
        requires
            needles@.len() == self.ignore_dirs@.len(),
            forall|i: int|
                0 <= i < needles@.len() ==> (#[trigger] needles@[i])@ == folded(self.ignore_dirs@[i]@),
        ensures
            r == self.protects(*root, e@),
    {
        let len: usize = e.path.names.len();
        if self.is_young(e) {
            return true;
        }
        if (self.ignore_hidden || self.keep_system) && len > 0 {
            if starts_with_char(e.path.names[len - 1].text.as_str(), '.') {
                return true;
            }
        }
        let shown = fold(root.path_text(&e.path).as_str());
        let mut i: usize = 0;
        while i < needles.len()
            invariant
                i <= needles@.len() == self.ignore_dirs@.len(),
                shown@ == folded(root.text_of(e.path@)),
                forall|k: int|
                    0 <= k < needles@.len() ==> (#[trigger] needles@[k])@ == folded(
                        self.ignore_dirs@[k]@,
                    ),
                forall|k: int|
                    0 <= k < i ==> !#[trigger] text::contains_text(
                        shown@,
                        folded(self.ignore_dirs@[k]@),
                    ),
            decreases needles@.len() - i,
        {
            if contains(shown.as_str(), needles[i].as_str()) {
                assert(text::contains_text(shown@, folded(self.ignore_dirs@[i as int]@)));
                return true;
            }
            i += 1;
        }
        false
    }
}

/// A text as it is compared with the texts that mark directories as off
/// limits: with slashes for backslashes, in lower case.
pub open spec fn folded(s: Seq<char>) -> Seq<char> {
    text::lowercase(text::slashed(s))
}

/// `s` with slashes for backslashes, in lower case.
pub fn fold(s: &str) -> (r: String)
    ensures
        r@ == folded(s@),
{
    to_lowercase(with_slashes(s).as_str())
}

} // verus!
