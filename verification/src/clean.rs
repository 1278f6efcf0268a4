//! Getting one directory ready for deletion, and choosing how it goes.
use vstd::prelude::*;
use vstd::string::*;
use crate::settings::DeleteSettings;
use crate::wild;
use crate::wild::matches_any;

verus! {

/// Something that stands in a directory about to be deleted.
#[derive(Clone, Debug)]
pub struct Child {
    /// The text of its name.
    pub name: String,
    /// Whether it is a symbolic link itself.
    pub is_symlink: bool,
    /// Whether it is a file, or a link to one.
    pub is_file: bool,
    /// How many bytes it holds, where that is known.
    pub size: Option<u64>,
}

impl DeleteSettings {
    /// The child may be removed with its directory: a file or a link whose
    /// name a pattern ignores, or a file without content where such files do
    /// not count.
    pub open spec fn removes(&self, c: Child) -> bool {
        &&& c.is_symlink || c.is_file
        &&& {
            ||| wild::any_matches(self.ignore_files@, c.name@)
            ||| !c.is_symlink && self.consider_empty_files_empty && c.size == Some(0u64)
        }
    }

    /// Whether the child may be removed with its directory.
    pub fn may_remove(&self, c: &Child) -> (r: bool)
        ensures
            r == self.removes(*c),
    {
        if !c.is_symlink && !c.is_file {
            return false;
        }
        if !c.is_symlink && self.consider_empty_files_empty {
            if let Some(size) = c.size {
                if size == 0 {
                    return true;
                }
            }
        }
        matches_any(&self.ignore_files, c.name.as_str())
    }
}

/// What was learned of a directory that is being made ready.
#[derive(Debug)]
pub enum CleanEvent {
    /// The directory itself was looked at: whether it is a symbolic link, or
    /// why it could not be looked at.
    Looked(Result<bool, String>),
    /// What stands in it was listed, where that could be done.
    Listed(Option<Vec<Child>>),
    /// It was listed again: whether anything is left in it, or why it could
    /// not be listed.
    Relisted(Result<bool, String>),
}

/// What is to be done next with a directory that is being made ready.
#[derive(Debug)]
pub enum CleanAction {
    /// List what stands in it.
    List,
    /// Try to remove the children at these places of the list, then list the
    /// directory again.
    Remove(Vec<usize>),
    /// Nothing: the directory is ready, or is not for the given reason.
    Done(Result<bool, String>),
}

/// The places of the children that may be removed, in order.
pub open spec fn removable(
    settings: DeleteSettings,
    children: Seq<Child>,
    places: Seq<usize>,
) -> bool {
    &&& forall|a: int, b: int| 0 <= a < b < places.len() ==> places[a] < places[b]
    &&& forall|i: usize| #[trigger]
        places.contains(i) <==> i < children.len() && settings.removes(children[i as int])
}

fn removable_places(settings: &DeleteSettings, children: &Vec<Child>) -> (r: Vec<usize>)
    ensures
        removable(*settings, children@, r@),
{
    let mut out: Vec<usize> = Vec::new();
    let mut i: usize = 0;
    while i < children.len()
        invariant
            i <= children@.len(),
            forall|a: int| 0 <= a < out@.len() ==> out@[a] < i,
            forall|a: int, b: int| 0 <= a < b < out@.len() ==> out@[a] < out@[b],
            forall|k: usize| #[trigger]
                out@.contains(k) <==> k < i && settings.removes(children@[k as int]),
        decreases children@.len() - i,
    {
        let ghost prev = out@;
        if settings.may_remove(&children[i]) {
            out.push(i);
            assert forall|k: usize| #[trigger] out@.contains(k) <==> prev.contains(k) || k == i by {
                if prev.contains(k) {
                    let a = choose|a: int| 0 <= a < prev.len() && prev[a] == k;
                    assert(out@[a] == k);
                }
                assert(out@[prev.len() as int] == i);
            }
        }
        i += 1;
    }
    out
}

/// `action` follows from what was learned of a directory.
pub open spec fn follows(
    settings: DeleteSettings,
    event: CleanEvent,
    action: CleanAction,
) -> bool {
    match event {
        CleanEvent::Looked(Err(why)) => action == CleanAction::Done(Err(why)),
        CleanEvent::Looked(Ok(is_symlink)) => if is_symlink {
            action == CleanAction::Done(Ok(true))
        } else {
            action == CleanAction::List
        },
        CleanEvent::Listed(None) => action matches CleanAction::Remove(places) && places@.len() == 0,
        CleanEvent::Listed(Some(children)) => action matches CleanAction::Remove(places)
            && removable(settings, children@, places@),
        CleanEvent::Relisted(Ok(any_left)) => if any_left {
            action matches CleanAction::Done(Err(why)) && why@
                == "Directory is not empty (contains non-ignored files)"@
        } else {
            action == CleanAction::Done(Ok(true))
        },
        CleanEvent::Relisted(Err(e)) => action matches CleanAction::Done(Err(why)) && why@
            == "Failed to verify directory: "@ + e@,
    }
}

/// What follows from what was learned of a directory. A symbolic link is ready
/// as it is: what it leads to is never listed and never touched. Any other
/// directory is listed, what may go is removed, and it is ready when nothing
/// is left in it.
pub fn clean_and_verify_empty(settings: &DeleteSettings, event: CleanEvent) -> (r: CleanAction)
    ensures
        follows(*settings, event, r),
{
    match event {
        CleanEvent::Looked(looked) => match looked {
            Err(why) => CleanAction::Done(Err(why)),
            Ok(is_symlink) => if is_symlink {
                CleanAction::Done(Ok(true))
            } else {
                CleanAction::List
            },
        },
        CleanEvent::Listed(listed) => match listed {
            None => CleanAction::Remove(Vec::new()),
            Some(children) => CleanAction::Remove(removable_places(settings, &children)),
        },
        CleanEvent::Relisted(relisted) => match relisted {
            Ok(any_left) => if any_left {
                CleanAction::Done(
                    Err("Directory is not empty (contains non-ignored files)".to_owned()),
                )
            } else {
                CleanAction::Done(Ok(true))
            },
            Err(e) => {
                let mut why = "Failed to verify directory: ".to_owned();
                why.append(e.as_str());
                CleanAction::Done(Err(why))
            },
        },
    }
}

/// A way to make a directory go.
#[derive(Clone, Copy, Debug, PartialEq, Eq, Structural)]
pub enum Removal {
    /// Move it to the trash.
    Trash,
    /// Remove the empty directory.
    RemoveDir,
    /// Remove the symbolic link, as a directory or else as a file.
    Unlink,
}

/// How the attempt to delete a directory came out.
#[derive(Clone, Debug)]
pub enum Outcome {
    /// It is gone.
    Removed,
    /// It was found not to be ready.
    NotReady,
    /// It could not be made ready, for the given reason.
    CheckFailed(String),
    /// It was ready and could not be removed, for the given reason.
    RemoveFailed(String),
}

/// What follows once a directory was made ready, or was not.
#[derive(Clone, Debug)]
pub enum AfterCheck {
    /// Make it go.
    Remove(Removal),
    /// The attempt is over.
    Settled(Outcome),
}

/// What follows from the way in which a directory was made ready.
pub open spec fn way_after(
    settings: DeleteSettings,
    check: Result<bool, String>,
    is_symlink: bool,
) -> AfterCheck {
    match check {
        Ok(ready) => if ready {
            AfterCheck::Remove(
                if is_symlink {
                    Removal::Unlink
                } else if settings.move_to_trash {
                    Removal::Trash
                } else {
                    Removal::RemoveDir
                },
            )
        } else {
            AfterCheck::Settled(Outcome::NotReady)
        },
        Err(why) => AfterCheck::Settled(Outcome::CheckFailed(why)),
    }
}

/// What follows from the way in which a directory was made ready; `is_symlink`
/// tells whether it is a symbolic link. A link is unlinked, never trashed, so
/// that what it leads to stays.
pub fn after_check(
    settings: &DeleteSettings,
    check: Result<bool, String>,
    is_symlink: bool,
) -> (r: AfterCheck)
    ensures
        r == way_after(*settings, check, is_symlink),
{
    match check {
        Ok(ready) => if !ready {
            AfterCheck::Settled(Outcome::NotReady)
        } else if settings.move_to_trash && !is_symlink {
            AfterCheck::Remove(Removal::Trash)
        } else if is_symlink {
            AfterCheck::Remove(Removal::Unlink)
        } else {
            AfterCheck::Remove(Removal::RemoveDir)
        },
        Err(why) => AfterCheck::Settled(Outcome::CheckFailed(why)),
    }
}

/// How an attempt came out that got as far as the removal.
pub open spec fn outcome_after(removed: Result<(), String>) -> Outcome {
    match removed {
        Ok(_) => Outcome::Removed,
        Err(why) => Outcome::RemoveFailed(why),
    }
}

/// The outcome of an attempt that got as far as the removal.
pub fn after_removal(removed: Result<(), String>) -> (r: Outcome)
    ensures
        r == outcome_after(removed),
{
    match removed {
        Ok(_) => Outcome::Removed,
        Err(why) => Outcome::RemoveFailed(why),
    }
}

} // verus!
