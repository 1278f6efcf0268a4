//! Deleting the empty directories of an outline, the deepest first.
use vstd::prelude::*;
use vstd::string::*;
use crate::clean::Outcome;
use crate::outline;
use crate::outline::{DirectoryNode, NodeModel, DELETED, EMPTY, FAILED};
use crate::path::ScanRoot;
use crate::settings::DeleteSettings;

verus! {

/// Line `a` is to be deleted before line `b`: the deeper first, and at the same
/// depth as they stand.
pub open spec fn goes_before(nodes: Seq<NodeModel>, a: int, b: int) -> bool {
    nodes[a].depth > nodes[b].depth || (nodes[a].depth == nodes[b].depth && a < b)
}

/// `order` lists the lines that are marked as empty, in the order in which
/// they are to be deleted.
pub open spec fn is_plan(nodes: Seq<NodeModel>, order: Seq<usize>) -> bool {
    &&& forall|k: int|
        0 <= k < order.len() ==> (#[trigger] order[k]) < nodes.len() && nodes[order[k] as int].status
            == EMPTY
    &&& forall|a: int, b: int|
        0 <= a < b < order.len() ==> goes_before(
            nodes,
            #[trigger] order[a] as int,
            #[trigger] order[b] as int,
        )
    &&& forall|i: usize|
        i < nodes.len() && nodes[i as int].status == EMPTY ==> #[trigger] order.contains(i)
}

/// A run of deletions: what is to be deleted, and how far it has come.
#[derive(Debug)]
pub struct DeleteRun {
    /// The lines to be deleted, in order.
    pub order: Vec<usize>,
    /// How many of them are settled.
    pub done: usize,
    /// How many of the settled ones are gone.
    pub deleted: usize,
    /// How many of the settled ones could not be deleted.
    pub failed: usize,
    /// Whether the run was given up.
    pub aborted: bool,
}

/// A run of deletions, with its order as a sequence.
pub struct RunModel {
    pub order: Seq<usize>,
    pub done: int,
    pub deleted: int,
    pub failed: int,
    pub aborted: bool,
}

impl View for DeleteRun {
    type V = RunModel;

    open spec fn view(&self) -> RunModel {
        RunModel {
            order: self.order@,
            done: self.done as int,
            deleted: self.deleted as int,
            failed: self.failed as int,
            aborted: self.aborted,
        }
    }
}

impl RunModel {
    /// The run fits the lines: it names lines that stand, each once, and every
    /// settled one is counted once.
    pub open spec fn fits(self, nodes: Seq<NodeModel>) -> bool {
        &&& forall|k: int| 0 <= k < self.order.len() ==> (#[trigger] self.order[k]) < nodes.len()
        &&& forall|a: int, b: int|
            0 <= a < b < self.order.len() ==> #[trigger] self.order[a] != #[trigger] self.order[b]
        &&& 0 <= self.done <= self.order.len()
        &&& 0 <= self.deleted
        &&& 0 <= self.failed
        &&& self.deleted + self.failed == self.done
    }

    /// The lines that are attempted next, together: with a pause between
    /// deletions one, else all of the same depth.
    pub open spec fn batch_end(
        self,
        settings: DeleteSettings,
        nodes: Seq<NodeModel>,
        end: int,
    ) -> bool {
        if self.aborted || self.done == self.order.len() {
            end == self.done
        } else if settings.pause_ms > 0 {
            end == self.done + 1
        } else {
            let depth = nodes[self.order[self.done] as int].depth;
            &&& self.done < end <= self.order.len()
            &&& forall|k: int|
                self.done <= k < end ==> nodes[#[trigger] self.order[k] as int].depth == depth
            &&& end < self.order.len() ==> nodes[self.order[end] as int].depth != depth
        }
    }
}

/// Something that a run tells of itself.
#[derive(Clone, Debug)]
pub enum DeleteEvent {
    /// So many of all are settled.
    Progress { done: usize, total: usize },
    /// A message about a line, and the status that the line has now.
    Log { message: String, index: usize, status: i32 },
    /// Wait so many milliseconds before going on.
    Pause { ms: u32 },
}

/// Something that a run tells of itself, with its message as characters.
pub enum EventModel {
    Progress { done: usize, total: usize },
    Log { message: Seq<char>, index: usize, status: i32 },
    Pause { ms: u32 },
}

impl View for DeleteEvent {
    type V = EventModel;

    open spec fn view(&self) -> EventModel {
        match self {
            DeleteEvent::Progress { done, total } => EventModel::Progress {
                done: *done,
                total: *total,
            },
            DeleteEvent::Log { message, index, status } => EventModel::Log {
                message: message@,
                index: *index,
                status: *status,
            },
            DeleteEvent::Pause { ms } => EventModel::Pause { ms: *ms },
        }
    }
}

/// The views of a list of events.
pub open spec fn tellings(v: Seq<DeleteEvent>) -> Seq<EventModel> {
    v.map_values(|e: DeleteEvent| e@)
}

/// The status of a line after an attempt.
pub open spec fn status_after(o: Outcome) -> i32 {
    if o is Removed {
        DELETED
    } else {
        FAILED
    }
}

/// The message about an attempt on the directory whose path reads `shown`.
pub open spec fn message_of(settings: DeleteSettings, shown: Seq<char>, o: Outcome) -> Seq<char> {
    match o {
        Outcome::Removed => "Deleted: "@ + shown,
        Outcome::RemoveFailed(why) => "Failed to delete "@ + shown + ": "@ + why@,
        Outcome::CheckFailed(why) => "Failed to delete "@ + shown + ": "@ + (if settings.pause_ms
            > 0 {
            "Not empty or inaccessible"@
        } else {
            why@
        }),
        Outcome::NotReady => "Failed to delete "@ + shown + ": "@ + (if settings.pause_ms > 0 {
            "Not empty or inaccessible"@
        } else {
            "Directory is not empty"@
        }),
    }
}

/// The attempt ends the run.
pub open spec fn ends_run(settings: DeleteSettings, o: Outcome) -> bool {
    !(o is Removed) && !settings.ignore_errors
}

/// What a run tells of the attempt on the line at place `k` of its order.
pub open spec fn told_of(
    root: ScanRoot,
    settings: DeleteSettings,
    nodes: Seq<NodeModel>,
    order: Seq<usize>,
    k: int,
    o: Outcome,
) -> Seq<EventModel> {
    let i = order[k];
    let progress = EventModel::Progress { done: (k + 1) as usize, total: order.len() as usize };
    let log = EventModel::Log {
        message: message_of(settings, root.text_of(nodes[i as int].path), o),
        index: i,
        status: status_after(o),
    };
    let stop = EventModel::Log {
        message: "Aborting deletion due to error."@,
        index: i,
        status: FAILED,
    };
    if settings.pause_ms > 0 {
        if ends_run(settings, o) {
            seq![log, stop]
        } else {
            seq![log, progress, EventModel::Pause { ms: settings.pause_ms }]
        }
    } else {
        if ends_run(settings, o) {
            seq![progress, log, stop]
        } else {
            seq![progress, log]
        }
    }
}

/// How many of the outcomes of a batch a run takes in: all, or those up to the
/// one that ends it.
pub open spec fn taken(settings: DeleteSettings, outcomes: Seq<Outcome>) -> int
    decreases outcomes.len(),
{
    if outcomes.len() == 0 {
        0
    } else if ends_run(settings, outcomes[0]) {
        1
    } else {
        1 + taken(settings, outcomes.drop_first())
    }
}

/// How many of the first `n` outcomes are removals.
pub open spec fn removed_among(outcomes: Seq<Outcome>, n: int) -> int
    decreases n,
{
    if n <= 0 {
        0
    } else {
        removed_among(outcomes, n - 1) + (if outcomes[n - 1] is Removed {
            1int
        } else {
            0int
        })
    }
}

/// What a run tells of the first `n` outcomes of a batch.
pub open spec fn told_of_batch(
    root: ScanRoot,
    settings: DeleteSettings,
    nodes: Seq<NodeModel>,
    run: RunModel,
    outcomes: Seq<Outcome>,
    n: int,
) -> Seq<EventModel>
    decreases n,
{
    if n <= 0 {
        Seq::empty()
    } else {
        told_of_batch(root, settings, nodes, run, outcomes, n - 1) + told_of(
            root,
            settings,
            nodes,
            run.order,
            run.done + n - 1,
            outcomes[n - 1],
        )
    }
}

/// The lines after the first `n` outcomes of a batch: those that were
/// attempted have the status of their outcome, the others are as they were.
pub open spec fn lines_after(
    nodes: Seq<NodeModel>,
    run: RunModel,
    outcomes: Seq<Outcome>,
    n: int,
) -> Seq<NodeModel>
    decreases n,
{
    if n <= 0 {
        nodes
    } else {
        let before = lines_after(nodes, run, outcomes, n - 1);
        let i = run.order[run.done + n - 1] as int;
        before.update(i, NodeModel { status: status_after(outcomes[n - 1]), ..before[i] })
    }
}

/// The run after the outcomes of a batch.
pub open spec fn run_after(
    settings: DeleteSettings,
    run: RunModel,
    outcomes: Seq<Outcome>,
) -> RunModel {
    let n = taken(settings, outcomes);
    let gone = removed_among(outcomes, n);
    RunModel {
        order: run.order,
        done: run.done + n,
        deleted: run.deleted + gone,
        failed: run.failed + n - gone,
        aborted: run.aborted || exists|k: int|
            0 <= k < outcomes.len() && ends_run(settings, #[trigger] outcomes[k]),
    }
}

fn message(settings: &DeleteSettings, shown: &String, o: &Outcome) -> (r: String)
    ensures
        r@ == message_of(*settings, shown@, *o),
{
    match o {
        Outcome::Removed => {
            let mut out = "Deleted: ".to_owned();
            out.append(shown.as_str());
            out
        },
        Outcome::RemoveFailed(why) => failure(shown, why.as_str()),
        Outcome::CheckFailed(why) => if settings.pause_ms > 0 {
            failure(shown, "Not empty or inaccessible")
        } else {
            failure(shown, why.as_str())
        },
        Outcome::NotReady => if settings.pause_ms > 0 {
            failure(shown, "Not empty or inaccessible")
        } else {
            failure(shown, "Directory is not empty")
        },
    }
}

fn failure(shown: &String, why: &str) -> (r: String)
    ensures
        r@ == "Failed to delete "@ + shown@ + ": "@ + why@,
{
    let mut out = "Failed to delete ".to_owned();
    out.append(shown.as_str());
    out.append(": ");
    out.append(why);
    out
}

fn deepest(nodes: &Vec<DirectoryNode>, below: Option<i32>) -> (r: Option<i32>)
    ensures
        match r {
            Some(d) => {
                &&& exists|i: int|
                    0 <= i < nodes@.len() && (#[trigger] nodes@[i]).status == EMPTY && nodes@[i].depth
                        == d
                &&& below matches Some(b) ==> d < b
                &&& forall|i: int|
                    0 <= i < nodes@.len() && (#[trigger] nodes@[i]).status == EMPTY && (
                    below matches Some(b) ==> nodes@[i].depth < b) ==> nodes@[i].depth <= d
            },
            None => forall|i: int|
                0 <= i < nodes@.len() && (#[trigger] nodes@[i]).status == EMPTY ==> (
                below matches Some(b) && nodes@[i].depth >= b),
        },
{
    let mut best: Option<i32> = None;
    let mut i: usize = 0;
    while i < nodes.len()
        invariant
            i <= nodes@.len(),
            match best {
                Some(d) => {
                    &&& exists|k: int|
                        0 <= k < i && (#[trigger] nodes@[k]).status == EMPTY && nodes@[k].depth == d
                    &&& below matches Some(b) ==> d < b
                    &&& forall|k: int|
                        0 <= k < i && (#[trigger] nodes@[k]).status == EMPTY && (
                        below matches Some(b) ==> nodes@[k].depth < b) ==> nodes@[k].depth <= d
                },
                None => forall|k: int|
                    0 <= k < i && (#[trigger] nodes@[k]).status == EMPTY ==> (below matches Some(b)
                        && nodes@[k].depth >= b),
            },
        decreases nodes@.len() - i,
    {
        if nodes[i].status == EMPTY {
            let d: i32 = nodes[i].depth;
            let fits = match below {
                Some(b) => d < b,
                None => true,
            };
            let more = match best {
                Some(e) => d > e,
                None => true,
            };
            if fits && more {
                assert(nodes@[i as int].status == EMPTY && nodes@[i as int].depth == d);
                best = Some(d);
            }
        }
        i += 1;
    }
    best
}

impl DeleteRun {
    /// A run over the lines of `nodes` that are marked as empty.
    pub fn start(nodes: &Vec<DirectoryNode>) -> (r: DeleteRun)
        ensures
            is_plan(outline::lines(nodes@), r.order@),
            r.done == 0,
            r.deleted == 0,
            r.failed == 0,
            !r.aborted,
            r@.fits(outline::lines(nodes@)),
    {
        let ghost ns = outline::lines(nodes@);
        let mut order: Vec<usize> = Vec::new();
        let mut level = deepest(nodes, None);
        let mut above: Option<i32> = None;
        while level.is_some()
            invariant
                ns == outline::lines(nodes@),
                ns.len() == nodes@.len(),
                match level {
                    Some(d) => {
                        &&& above matches Some(b) ==> d < b
                        &&& forall|i: int|
                            0 <= i < nodes@.len() && (#[trigger] nodes@[i]).status == EMPTY && (
                            above matches Some(b) ==> nodes@[i].depth < b) ==> nodes@[i].depth <= d
                    },
                    None => forall|i: int|
                        0 <= i < nodes@.len() && (#[trigger] nodes@[i]).status == EMPTY ==> (
                        above matches Some(b) && nodes@[i].depth >= b),
                },
                above is None ==> order@.len() == 0,
                forall|k: int|
                    0 <= k < order@.len() ==> (#[trigger] order@[k]) < ns.len() && ns[order@[k] as int].status
                        == EMPTY && (above matches Some(b) && ns[order@[k] as int].depth >= b),
                forall|a: int, b: int|
                    0 <= a < b < order@.len() ==> goes_before(
                        ns,
                        #[trigger] order@[a] as int,
                        #[trigger] order@[b] as int,
                    ),
                forall|i: usize|
                    i < ns.len() && ns[i as int].status == EMPTY && (above matches Some(b)
                        && ns[i as int].depth >= b) ==> #[trigger] order@.contains(i),
            decreases
                    (match level {
                        Some(d) => d - i32::MIN + 1,
                        None => 0int,
                    }),
        {
            let d: i32 = level.unwrap();
            let mut i: usize = 0;
            let ghost before = order@;
            while i < nodes.len()
                invariant
                    ns == outline::lines(nodes@),
                    ns.len() == nodes@.len(),
                    i <= nodes@.len(),
                    above matches Some(b) ==> d < b,
                    forall|k: int|
                        0 <= k < before.len() ==> (above matches Some(b) && ns[(#[trigger] before[k]) as int].depth
                            >= b),
                    above is None ==> before.len() == 0,
                    before.len() <= order@.len(),
                    forall|k: int| 0 <= k < before.len() ==> #[trigger] order@[k] == before[k],
                    forall|k: int|
                        0 <= k < order@.len() ==> (#[trigger] order@[k]) < ns.len() && ns[order@[k] as int].status
                            == EMPTY,
                    forall|k: int|
                        before.len() <= k < order@.len() ==> (#[trigger] order@[k]) < i
                            && ns[order@[k] as int].depth == d,
                    forall|a: int, b: int|
                        0 <= a < b < order@.len() ==> goes_before(
                            ns,
                            #[trigger] order@[a] as int,
                            #[trigger] order@[b] as int,
                        ),
                    forall|k: usize| before.contains(k) ==> #[trigger] order@.contains(k),
                    forall|k: usize|
                        k < i && ns[k as int].status == EMPTY && ns[k as int].depth == d
                            ==> #[trigger] order@.contains(k),
                decreases nodes@.len() - i,
            {
                assert(ns[i as int] == nodes@[i as int]@);
                if nodes[i].status == EMPTY && nodes[i].depth == d {
                    let ghost prev = order@;
                    order.push(i);
                    proof {
                        assert forall|k: usize| prev.contains(k) implies #[trigger] order@.contains(k) by {
                            let a = choose|a: int| 0 <= a < prev.len() && prev[a] == k;
                            assert(order@[a] == k);
                        }
                        assert(order@[prev.len() as int] == i);
                        assert forall|a: int, b: int| 0 <= a < b < order@.len() implies goes_before(
                            ns,
                            #[trigger] order@[a] as int,
                            #[trigger] order@[b] as int,
                        ) by {
                            if b == prev.len() && a < before.len() {
                                assert(order@[a] == before[a]);
                            }
                        }
                    }
                }
                i += 1;
            }
            proof {
                assert forall|k: int| 0 <= k < order@.len() implies ns[(
                #[trigger] order@[k]) as int].depth >= d by {
                    if k < before.len() {
                        assert(order@[k] == before[k]);
                    }
                }
                assert forall|i: usize|
                    i < ns.len() && ns[i as int].status == EMPTY && ns[i as int].depth >= d implies
                    #[trigger] order@.contains(i) by {
                    assert(ns[i as int] == nodes@[i as int]@);
                    if ns[i as int].depth > d {
                        assert(before.contains(i));
                    }
                }
            }
            above = Some(d);
            level = deepest(nodes, above);
        }
        proof {
            assert forall|i: usize|
                i < ns.len() && ns[i as int].status == EMPTY implies #[trigger] order@.contains(i) by {
                assert(ns[i as int] == nodes@[i as int]@);
            }
            assert forall|a: int, b: int| 0 <= a < b < order@.len() implies #[trigger] order@[a]
                != #[trigger] order@[b] by {
                assert(goes_before(ns, order@[a] as int, order@[b] as int));
            }
        }
        DeleteRun { order, done: 0, deleted: 0, failed: 0, aborted: false }
    }

    /// The lines to attempt next, together; none when the run is over.
    pub fn pending(&self, settings: &DeleteSettings, nodes: &Vec<DirectoryNode>) -> (r: Vec<usize>)
        requires
            self@.fits(outline::lines(nodes@)),
        ensures
            self@.batch_end(*settings, outline::lines(nodes@), self.done + r@.len()),
            r@ == self.order@.subrange(self.done as int, self.done + r@.len()),
    {
        let ghost ns = outline::lines(nodes@);
        let mut out: Vec<usize> = Vec::new();
        if self.aborted || self.done == self.order.len() {
            return out;
        }
        assert(self.order@[self.done as int] < ns.len());
        let depth: i32 = nodes[self.order[self.done]].depth;
        assert(ns[self.order@[self.done as int] as int].depth == depth);
        out.push(self.order[self.done]);
        if settings.pause_ms > 0 {
            return out;
        }
        let mut k: usize = self.done + 1;
        while k < self.order.len() && nodes[self.order[k]].depth == depth
            invariant
                ns == outline::lines(nodes@),
                self@.fits(ns),
                self.done < k <= self.order@.len(),
                out@ == self.order@.subrange(self.done as int, k as int),
                forall|q: int|
                    self.done <= q < k ==> ns[#[trigger] self.order@[q] as int].depth == depth,
            decreases self.order@.len() - k,
        {
            assert(self.order@[k as int] < ns.len());
            out.push(self.order[k]);
            assert(out@ =~= self.order@.subrange(self.done as int, k + 1));
            k += 1;
        }
        assert(k < self.order@.len() ==> self.order@[k as int] < ns.len());
        out
    }

    /// How many directories are gone, and how many could not be deleted.
    pub fn totals(&self) -> (r: (usize, usize))
        ensures
            r.0 == self.deleted,
            r.1 == self.failed,
    {
        (self.deleted, self.failed)
    }
}

pub(crate) proof fn lemma_taken_skip(settings: DeleteSettings, outcomes: Seq<Outcome>, k: int)
    requires
        0 <= k <= outcomes.len(),
        forall|q: int| 0 <= q < k ==> !ends_run(settings, #[trigger] outcomes[q]),
    ensures
        taken(settings, outcomes) == k + taken(settings, outcomes.skip(k)),
    decreases k,
{
    if k == 0 {
        assert(outcomes.skip(0) == outcomes);
    } else {
        assert(!ends_run(settings, outcomes[0]));
        assert forall|q: int| 0 <= q < k - 1 implies !ends_run(
            settings,
            #[trigger] outcomes.drop_first()[q],
        ) by {
            assert(!ends_run(settings, outcomes[q + 1]));
        }
        lemma_taken_skip(settings, outcomes.drop_first(), k - 1);
        assert(outcomes.drop_first().skip(k - 1) == outcomes.skip(k));
    }
}

proof fn lemma_removed_bounds(outcomes: Seq<Outcome>, n: int)
    requires
        0 <= n,
    ensures
        0 <= removed_among(outcomes, n) <= n,
    decreases n,
{
    if n > 0 {
        lemma_removed_bounds(outcomes, n - 1);
    }
}

pub(crate) proof fn lemma_lines_after_shape(
    nodes: Seq<NodeModel>,
    run: RunModel,
    outcomes: Seq<Outcome>,
    n: int,
)
    requires
        run.fits(nodes),
        0 <= n,
        run.done + n <= run.order.len(),
    ensures
        lines_after(nodes, run, outcomes, n).len() == nodes.len(),
        forall|i: int|
            0 <= i < nodes.len() ==> (#[trigger] lines_after(nodes, run, outcomes, n)[i]) == (NodeModel {
                status: lines_after(nodes, run, outcomes, n)[i].status,
                ..nodes[i]
            }),
    decreases n,
{
    if n > 0 {
        lemma_lines_after_shape(nodes, run, outcomes, n - 1);
        assert(run.order[run.done + n - 1] < nodes.len());
    }
}

/// Takes in the outcomes of the attempts on the next lines of a run, in order,
/// and tells what has happened. A failure ends the run unless errors are to be
/// ignored; what came after it is not taken in.
pub fn delete_empty_dirs(
    root: &ScanRoot,
    nodes: &mut Vec<DirectoryNode>,
    settings: &DeleteSettings,
    run: &mut DeleteRun,
    outcomes: &Vec<Outcome>,
) -> (r: Vec<DeleteEvent>)
    requires
        old(run)@.fits(outline::lines(old(nodes)@)),
        old(run).done + outcomes@.len() <= old(run).order@.len(),
    ensures
        outline::lines(final(nodes)@) == lines_after(
            outline::lines(old(nodes)@),
            old(run)@,
            outcomes@,
            taken(*settings, outcomes@),
        ),
        final(run)@ == run_after(*settings, old(run)@, outcomes@),
        final(run)@.fits(outline::lines(final(nodes)@)),
        tellings(r@) == told_of_batch(
            *root,
            *settings,
            outline::lines(old(nodes)@),
            old(run)@,
            outcomes@,
            taken(*settings, outcomes@),
        ),
{
    let ghost ns = outline::lines(nodes@);
    let ghost was = run@;
    let total: usize = run.order.len();
    let mut out: Vec<DeleteEvent> = Vec::new();
    let mut k: usize = 0;
    let mut stopped: bool = false;
    while k < outcomes.len() && !stopped
        invariant
            was.fits(ns),
            total == was.order.len() == run.order@.len(),
            was.done + outcomes@.len() <= total,
            k <= outcomes@.len(),
            run.order@ == was.order,
            run.done == was.done + k,
            run.deleted == was.deleted + removed_among(outcomes@, k as int),
            run.failed == was.failed + k - removed_among(outcomes@, k as int),
            run.aborted == (was.aborted || stopped),
            outline::lines(nodes@) == lines_after(ns, was, outcomes@, k as int),
            tellings(out@) == told_of_batch(*root, *settings, ns, was, outcomes@, k as int),
            !stopped ==> forall|q: int| 0 <= q < k ==> !ends_run(*settings, #[trigger] outcomes@[q]),
            stopped ==> k > 0 && ends_run(*settings, outcomes@[k - 1]) && forall|q: int|
                0 <= q < k - 1 ==> !ends_run(*settings, #[trigger] outcomes@[q]),
        decreases outcomes@.len() - k,
    {
        proof {
            lemma_removed_bounds(outcomes@, k as int);
            lemma_lines_after_shape(ns, was, outcomes@, k as int);
            assert(was.order[was.done + k] < ns.len());
        }
        let at: usize = run.done;
        let i: usize = run.order[at];
        let o = &outcomes[k];
        let shown = root.path_text(&nodes[i].path);
        assert(outline::lines(nodes@)[i as int].path == nodes@[i as int].path@);
        assert(shown@ == root.text_of(ns[i as int].path));
        let message = message(settings, &shown, o);
        let (status, gone): (i32, bool) = match o {
            Outcome::Removed => (DELETED, true),
            _ => (FAILED, false),
        };
        let ghost before = nodes@;
        let ghost told = tellings(out@);
        nodes[i].status = status;
        proof {
            assert(nodes@ =~= before.update(i as int, nodes@[i as int]));
            assert(outline::lines(nodes@) =~= lines_after(ns, was, outcomes@, k + 1));
        }
        run.done = at + 1;
        if gone {
            run.deleted = run.deleted + 1;
        } else {
            run.failed = run.failed + 1;
        }
        stopped = !gone && !settings.ignore_errors;
        assert(stopped == ends_run(*settings, outcomes@[k as int]));
        let progress = DeleteEvent::Progress { done: at + 1, total };
        let log = DeleteEvent::Log { message, index: i, status };
        let ghost mine = told_of(*root, *settings, ns, was.order, was.done + k, outcomes@[k as int]);
        if settings.pause_ms == 0 {
            out.push(progress);
            out.push(log);
        } else {
            out.push(log);
        }
        if stopped {
            run.aborted = true;
            out.push(
                DeleteEvent::Log {
                    message: "Aborting deletion due to error.".to_owned(),
                    index: i,
                    status: FAILED,
                },
            );
        } else if settings.pause_ms > 0 {
            out.push(DeleteEvent::Progress { done: at + 1, total });
            out.push(DeleteEvent::Pause { ms: settings.pause_ms });
        }
        assert(tellings(out@) =~= told + mine);
        k += 1;
    }
    proof {
        lemma_removed_bounds(outcomes@, k as int);
        lemma_lines_after_shape(ns, was, outcomes@, k as int);
        if stopped {
            lemma_taken_skip(*settings, outcomes@, k - 1);
            assert(outcomes@.skip(k - 1)[0] == outcomes@[k - 1]);
        } else {
            lemma_taken_skip(*settings, outcomes@, k as int);
        }
        assert(taken(*settings, outcomes@) == k);
        assert(run@ == run_after(*settings, was, outcomes@));
    }
    out
}

} // verus!
