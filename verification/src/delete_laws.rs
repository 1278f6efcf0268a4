//! What holds of every run of deletions.
use vstd::prelude::*;
use crate::clean;
use crate::clean::{AfterCheck, Child, CleanAction, CleanEvent, Outcome, Removal};
use crate::delete;
use crate::delete::{EventModel, RunModel};
use crate::emptiness;
use crate::entry::{EntryKind, EntryModel};
use crate::outline;
use crate::outline::{NodeModel, DELETED, EMPTY, FAILED};
use crate::path::{NameModel, ScanRoot};
use crate::scan_laws;
use crate::settings::{DeleteSettings, ScanSettings};
use crate::text;
use crate::wild;

verus! {

/// How many of the first `n` lines of a run's order have a status.
pub open spec fn count_status(
    nodes: Seq<NodeModel>,
    order: Seq<usize>,
    n: int,
    status: i32,
) -> int
    decreases n,
{
    if n <= 0 {
        0
    } else {
        count_status(nodes, order, n - 1, status) + (if nodes[order[n - 1] as int].status == status {
            1int
        } else {
            0int
        })
    }
}

/// The books of a run are right: it works off the lines that were marked as
/// empty in `first`; each settled line is marked as deleted or as failed and
/// counted as such; and nothing else has changed since.
pub open spec fn in_order(first: Seq<NodeModel>, nodes: Seq<NodeModel>, run: RunModel) -> bool {
    &&& delete::is_plan(first, run.order)
    &&& run.fits(nodes)
    &&& nodes.len() == first.len()
    &&& forall|i: int|
        0 <= i < nodes.len() ==> #[trigger] nodes[i] == (NodeModel {
            status: nodes[i].status,
            ..first[i]
        })
    &&& forall|i: int|
        0 <= i < nodes.len() && first[i].status != EMPTY ==> #[trigger] nodes[i] == first[i]
    &&& forall|k: int|
        0 <= k < run.done ==> nodes[#[trigger] run.order[k] as int].status == DELETED
            || nodes[run.order[k] as int].status == FAILED
    &&& forall|k: int|
        run.done <= k < run.order.len() ==> nodes[#[trigger] run.order[k] as int]
            == first[run.order[k] as int]
    &&& run.deleted == count_status(nodes, run.order, run.done, DELETED)
    &&& run.failed == count_status(nodes, run.order, run.done, FAILED)
}

/// The books of a run are right when it starts.
pub proof fn law_books_start_right(first: Seq<NodeModel>, run: RunModel)
    requires
        delete::is_plan(first, run.order),
        run.done == 0,
        run.deleted == 0,
        run.failed == 0,
        run.fits(first),
    ensures
        in_order(first, first, run),
{
}

proof fn lemma_count_other(
    nodes: Seq<NodeModel>,
    order: Seq<usize>,
    n: int,
    status: i32,
    at: int,
    line: NodeModel,
)
    requires
        0 <= n <= order.len(),
        0 <= at < nodes.len(),
        forall|k: int| 0 <= k < n ==> #[trigger] order[k] < nodes.len() && order[k] != at,
    ensures
        count_status(nodes.update(at, line), order, n, status) == count_status(
            nodes,
            order,
            n,
            status,
        ),
    decreases n,
{
    if n > 0 {
        assert(order[n - 1] != at);
        lemma_count_other(nodes, order, n - 1, status, at, line);
    }
}

spec fn run_part(run: RunModel, outcomes: Seq<Outcome>, k: int) -> RunModel {
    RunModel {
        order: run.order,
        done: run.done + k,
        deleted: run.deleted + delete::removed_among(outcomes, k),
        failed: run.failed + k - delete::removed_among(outcomes, k),
        aborted: run.aborted,
    }
}

proof fn lemma_books_part(
    first: Seq<NodeModel>,
    nodes: Seq<NodeModel>,
    run: RunModel,
    outcomes: Seq<Outcome>,
    k: int,
)
    requires
        in_order(first, nodes, run),
        0 <= k <= outcomes.len(),
        run.done + outcomes.len() <= run.order.len(),
    ensures
        in_order(
            first,
            delete::lines_after(nodes, run, outcomes, k),
            run_part(run, outcomes, k),
        ),
    decreases k,
{
    if k > 0 {
        lemma_books_part(first, nodes, run, outcomes, k - 1);
        let before = delete::lines_after(nodes, run, outcomes, k - 1);
        let part = run_part(run, outcomes, k - 1);
        let i = run.order[part.done] as int;
        let line = NodeModel { status: delete::status_after(outcomes[k - 1]), ..before[i] };
        let after = delete::lines_after(nodes, run, outcomes, k);
        assert(after == before.update(i, line));
        assert forall|q: int| 0 <= q < part.done implies #[trigger] run.order[q] < before.len()
            && run.order[q] != i by {
            assert(run.order[q] != run.order[part.done]);
        }
        lemma_count_other(before, run.order, part.done, DELETED, i, line);
        lemma_count_other(before, run.order, part.done, FAILED, i, line);
        assert forall|q: int| part.done < q < run.order.len() implies after[
            #[trigger] run.order[q] as int
        ] == first[run.order[q] as int] by {
            assert(run.order[part.done] != run.order[q]);
            assert(before[run.order[q] as int] == first[run.order[q] as int]);
        }
        assert forall|q: int| 0 <= q < part.done implies after[#[trigger] run.order[q] as int].status
            == DELETED || after[run.order[q] as int].status == FAILED by {
            assert(run.order[q] != run.order[part.done]);
        }
        assert(first[i].status == EMPTY);
        assert(delete::removed_among(outcomes, k) == delete::removed_among(outcomes, k - 1) + (
        if outcomes[k - 1] is Removed {
            1int
        } else {
            0int
        }));
        assert(before[i] == first[i]);
    }
}

/// Taking in the outcomes of a batch keeps the books right.
pub proof fn law_books_stay_right(
    settings: DeleteSettings,
    first: Seq<NodeModel>,
    nodes: Seq<NodeModel>,
    run: RunModel,
    outcomes: Seq<Outcome>,
)
    requires
        in_order(first, nodes, run),
        run.done + outcomes.len() <= run.order.len(),
    ensures
        in_order(
            first,
            delete::lines_after(nodes, run, outcomes, delete::taken(settings, outcomes)),
            delete::run_after(settings, run, outcomes),
        ),
{
    lemma_taken_bounds(settings, outcomes);
    let n = delete::taken(settings, outcomes);
    lemma_books_part(first, nodes, run, outcomes, n);
}

proof fn lemma_taken_bounds(settings: DeleteSettings, outcomes: Seq<Outcome>)
    ensures
        0 <= delete::taken(settings, outcomes) <= outcomes.len(),
        outcomes.len() > 0 ==> delete::taken(settings, outcomes) > 0,
    decreases outcomes.len(),
{
    if outcomes.len() > 0 {
        lemma_taken_bounds(settings, outcomes.drop_first());
    }
}

/// A run that is over and was not given up has settled every line that was
/// marked as empty.
pub proof fn law_finished_run_settles_all(
    settings: DeleteSettings,
    first: Seq<NodeModel>,
    nodes: Seq<NodeModel>,
    run: RunModel,
)
    requires
        in_order(first, nodes, run),
        run.batch_end(settings, nodes, run.done),
        !run.aborted,
        nodes.len() <= usize::MAX,
    ensures
        run.deleted + run.failed == run.order.len(),
        forall|i: int|
            0 <= i < nodes.len() && first[i].status == EMPTY ==> (#[trigger] nodes[i]).status
                == DELETED || nodes[i].status == FAILED,
{
    assert(run.done == run.order.len());
    assert forall|i: int|
        0 <= i < nodes.len() && first[i].status == EMPTY implies (
    #[trigger] nodes[i]).status == DELETED || nodes[i].status == FAILED by {
        assert(run.order.contains(i as usize));
        let k = choose|k: int| 0 <= k < run.order.len() && run.order[k] == i as usize;
        assert(nodes[run.order[k] as int].status == DELETED || nodes[run.order[k] as int].status
            == FAILED);
    }
}

/// A batch that is taken in moves the run on.
pub proof fn law_each_batch_moves_on(
    settings: DeleteSettings,
    run: RunModel,
    outcomes: Seq<Outcome>,
)
    requires
        outcomes.len() > 0,
    ensures
        delete::run_after(settings, run, outcomes).done > run.done,
{
    lemma_taken_bounds(settings, outcomes);
}

/// Where errors are ignored a run is never given up; else it is given up at
/// its first failure, and only then.
pub open spec fn heeds_errors(settings: DeleteSettings, run: RunModel) -> bool {
    if settings.ignore_errors {
        !run.aborted
    } else {
        run.failed == (if run.aborted {
            1int
        } else {
            0int
        })
    }
}

proof fn lemma_taken_last(settings: DeleteSettings, outcomes: Seq<Outcome>)
    requires
        !settings.ignore_errors,
    ensures
        ({
            let n = delete::taken(settings, outcomes);
            let ended = exists|k: int|
                0 <= k < outcomes.len() && delete::ends_run(settings, #[trigger] outcomes[k]);
            n - delete::removed_among(outcomes, n) == (if ended {
                1int
            } else {
                0int
            })
        }),
    decreases outcomes.len(),
{
    if outcomes.len() > 0 {
        let rest = outcomes.drop_first();
        let n = delete::taken(settings, outcomes);
        if delete::ends_run(settings, outcomes[0]) {
            assert(n == 1);
            assert(delete::removed_among(outcomes, 0) == 0);
        } else {
            lemma_taken_last(settings, rest);
            lemma_taken_bounds(settings, rest);
            lemma_removed_shift(outcomes, n - 1);
            if exists|k: int|
                0 <= k < rest.len() && delete::ends_run(settings, #[trigger] rest[k]) {
                let k = choose|k: int|
                    0 <= k < rest.len() && delete::ends_run(settings, #[trigger] rest[k]);
                assert(delete::ends_run(settings, outcomes[k + 1]));
            }
            if exists|k: int|
                0 <= k < outcomes.len() && delete::ends_run(settings, #[trigger] outcomes[k]) {
                let k = choose|k: int|
                    0 <= k < outcomes.len() && delete::ends_run(settings, #[trigger] outcomes[k]);
                assert(delete::ends_run(settings, rest[k - 1]));
            }
        }
    }
}

proof fn lemma_removed_shift(outcomes: Seq<Outcome>, n: int)
    requires
        0 <= n < outcomes.len(),
    ensures
        delete::removed_among(outcomes, n + 1) == delete::removed_among(outcomes.drop_first(), n)
            + (if outcomes[0] is Removed {
            1int
        } else {
            0int
        }),
    decreases n,
{
    if n > 0 {
        lemma_removed_shift(outcomes, n - 1);
    } else {
        assert(delete::removed_among(outcomes, 0) == 0);
    }
}

/// Taking in a batch keeps to the rule on errors.
pub proof fn law_first_failure_ends_the_run(
    settings: DeleteSettings,
    nodes: Seq<NodeModel>,
    run: RunModel,
    outcomes: Seq<Outcome>,
)
    requires
        heeds_errors(settings, run),
        run.batch_end(settings, nodes, run.done + outcomes.len()),
    ensures
        heeds_errors(settings, delete::run_after(settings, run, outcomes)),
{
    if !settings.ignore_errors {
        lemma_taken_last(settings, outcomes);
    } else {
        assert forall|k: int| 0 <= k < outcomes.len() implies !delete::ends_run(
            settings,
            #[trigger] outcomes[k],
        ) by {}
    }
}

proof fn lemma_removed_joined(x: Seq<Outcome>, y: Seq<Outcome>, n: int)
    requires
        0 <= n <= y.len(),
    ensures
        delete::removed_among(x + y, x.len() + n) == delete::removed_among(x, x.len() as int)
            + delete::removed_among(y, n),
    decreases n,
{
    if n > 0 {
        lemma_removed_joined(x, y, n - 1);
        assert((x + y)[x.len() + n - 1] == y[n - 1]);
    } else {
        lemma_removed_prefix(x, y, x.len() as int);
    }
}

proof fn lemma_removed_prefix(x: Seq<Outcome>, y: Seq<Outcome>, n: int)
    requires
        0 <= n <= x.len(),
    ensures
        delete::removed_among(x + y, n) == delete::removed_among(x, n),
    decreases n,
{
    if n > 0 {
        lemma_removed_prefix(x, y, n - 1);
        assert((x + y)[n - 1] == x[n - 1]);
    }
}

proof fn lemma_lines_prefix(
    nodes: Seq<NodeModel>,
    run: RunModel,
    x: Seq<Outcome>,
    y: Seq<Outcome>,
    n: int,
)
    requires
        0 <= n <= x.len(),
    ensures
        delete::lines_after(nodes, run, x + y, n) == delete::lines_after(nodes, run, x, n),
    decreases n,
{
    if n > 0 {
        lemma_lines_prefix(nodes, run, x, y, n - 1);
        assert((x + y)[n - 1] == x[n - 1]);
    }
}

proof fn lemma_lines_joined(
    nodes: Seq<NodeModel>,
    run: RunModel,
    then: RunModel,
    x: Seq<Outcome>,
    y: Seq<Outcome>,
    n: int,
)
    requires
        0 <= n <= y.len(),
        then.order == run.order,
        then.done == run.done + x.len(),
    ensures
        delete::lines_after(nodes, run, x + y, x.len() + n) == delete::lines_after(
            delete::lines_after(nodes, run, x, x.len() as int),
            then,
            y,
            n,
        ),
    decreases n,
{
    if n > 0 {
        lemma_lines_joined(nodes, run, then, x, y, n - 1);
        assert((x + y)[x.len() + n - 1] == y[n - 1]);
        assert(run.done + (x.len() + n) - 1 == then.done + n - 1);
    } else {
        lemma_lines_prefix(nodes, run, x, y, x.len() as int);
    }
}

proof fn lemma_told_prefix(
    root: ScanRoot,
    settings: DeleteSettings,
    nodes: Seq<NodeModel>,
    run: RunModel,
    x: Seq<Outcome>,
    y: Seq<Outcome>,
    n: int,
)
    requires
        0 <= n <= x.len(),
    ensures
        delete::told_of_batch(root, settings, nodes, run, x + y, n) == delete::told_of_batch(
            root,
            settings,
            nodes,
            run,
            x,
            n,
        ),
    decreases n,
{
    if n > 0 {
        lemma_told_prefix(root, settings, nodes, run, x, y, n - 1);
        assert((x + y)[n - 1] == x[n - 1]);
    }
}

proof fn lemma_told_joined(
    root: ScanRoot,
    settings: DeleteSettings,
    nodes: Seq<NodeModel>,
    run: RunModel,
    then: RunModel,
    x: Seq<Outcome>,
    y: Seq<Outcome>,
    n: int,
)
    requires
        run.fits(nodes),
        0 <= n <= y.len(),
        run.done + x.len() + y.len() <= run.order.len(),
        then.order == run.order,
        then.done == run.done + x.len(),
    ensures
        delete::told_of_batch(root, settings, nodes, run, x + y, x.len() + n)
            == delete::told_of_batch(root, settings, nodes, run, x, x.len() as int)
            + delete::told_of_batch(
            root,
            settings,
            delete::lines_after(nodes, run, x, x.len() as int),
            then,
            y,
            n,
        ),
    decreases n,
{
    let mid = delete::lines_after(nodes, run, x, x.len() as int);
    let first = delete::told_of_batch(root, settings, nodes, run, x, x.len() as int);
    if n > 0 {
        lemma_told_joined(root, settings, nodes, run, then, x, y, n - 1);
        delete::lemma_lines_after_shape(nodes, run, x, x.len() as int);
        let k = then.done + n - 1;
        assert((x + y)[x.len() + n - 1] == y[n - 1]);
        assert(run.done + (x.len() + n) - 1 == k);
        assert(run.order[k] < nodes.len());
        assert(mid[run.order[k] as int].path == nodes[run.order[k] as int].path);
        assert(delete::told_of(root, settings, mid, run.order, k, y[n - 1]) == delete::told_of(
            root,
            settings,
            nodes,
            run.order,
            k,
            y[n - 1],
        ));
        let rest = delete::told_of_batch(root, settings, mid, then, y, n - 1);
        let last = delete::told_of(root, settings, nodes, run.order, k, y[n - 1]);
        assert((first + rest) + last =~= first + (rest + last));
    } else {
        lemma_told_prefix(root, settings, nodes, run, x, y, x.len() as int);
        assert(first + Seq::<delete::EventModel>::empty() =~= first);
    }
}

/// Batches follow on: taking in two batches, the first of which does not end
/// the run, comes to the same as taking in all their outcomes at once, for the
/// run, for the lines and for what is told.
pub proof fn law_batches_follow_on(
    root: ScanRoot,
    settings: DeleteSettings,
    nodes: Seq<NodeModel>,
    run: RunModel,
    x: Seq<Outcome>,
    y: Seq<Outcome>,
)
    requires
        run.fits(nodes),
        run.done + x.len() + y.len() <= run.order.len(),
        forall|k: int| 0 <= k < x.len() ==> !delete::ends_run(settings, #[trigger] x[k]),
    ensures
        ({
            let mid = delete::lines_after(nodes, run, x, delete::taken(settings, x));
            let then = delete::run_after(settings, run, x);
            let n = delete::taken(settings, x + y);
            &&& delete::run_after(settings, then, y) == delete::run_after(settings, run, x + y)
            &&& delete::lines_after(mid, then, y, delete::taken(settings, y))
                == delete::lines_after(nodes, run, x + y, n)
            &&& delete::told_of_batch(root, settings, nodes, run, x, delete::taken(settings, x))
                + delete::told_of_batch(root, settings, mid, then, y, delete::taken(settings, y))
                == delete::told_of_batch(root, settings, nodes, run, x + y, n)
        }),
{
    let z = x + y;
    let m = x.len() as int;
    assert forall|k: int| 0 <= k < m implies !delete::ends_run(settings, #[trigger] z[k]) by {
        assert(z[k] == x[k]);
    }
    delete::lemma_taken_skip(settings, x, m);
    assert(x.skip(m) =~= Seq::<Outcome>::empty());
    delete::lemma_taken_skip(settings, z, m);
    assert(z.skip(m) =~= y);
    lemma_taken_bounds(settings, y);
    let n = delete::taken(settings, y);
    let then = delete::run_after(settings, run, x);
    lemma_removed_joined(x, y, n);
    lemma_lines_joined(nodes, run, then, x, y, n);
    lemma_told_joined(root, settings, nodes, run, then, x, y, n);
    if exists|k: int| 0 <= k < y.len() && delete::ends_run(settings, #[trigger] y[k]) {
        let k = choose|k: int| 0 <= k < y.len() && delete::ends_run(settings, #[trigger] y[k]);
        assert(delete::ends_run(settings, z[m + k]));
    }
    if exists|k: int| 0 <= k < z.len() && delete::ends_run(settings, #[trigger] z[k]) {
        let k = choose|k: int| 0 <= k < z.len() && delete::ends_run(settings, #[trigger] z[k]);
        assert(k >= m);
        assert(delete::ends_run(settings, y[k - m]));
    }
}

/// Deletion goes from the bottom up: of two directories that are both to be
/// deleted, one below the other, the lower one goes first.
pub proof fn law_lower_directories_go_first(
    nodes: Seq<NodeModel>,
    order: Seq<usize>,
    x: int,
    y: int,
)
    requires
        scan_laws::is_tree(nodes),
        delete::is_plan(nodes, order),
        0 <= x < order.len(),
        0 <= y < order.len(),
        scan_laws::below(nodes[order[x] as int].path, nodes[order[y] as int].path),
    ensures
        x < y,
{
    let a = order[x] as int;
    let b = order[y] as int;
    assert(nodes[a].depth == nodes[a].path.len());
    assert(nodes[b].depth == nodes[b].path.len());
    if y < x {
        assert(delete::goes_before(nodes, order[y] as int, order[x] as int));
    }
}

/// A run plans to delete exactly the directories that the scan reported as
/// empty.
pub proof fn law_only_reported_directories_are_planned(
    root: ScanRoot,
    settings: ScanSettings,
    es: Seq<EntryModel>,
    nodes: Seq<NodeModel>,
    order: Seq<usize>,
    p: Seq<NameModel>,
)
    requires
        outline::is_outline(root, settings, es, nodes),
        delete::is_plan(nodes, order),
        nodes.len() <= usize::MAX,
    ensures
        emptiness::found(root, settings, es, p) <==> exists|k: int|
            0 <= k < order.len() && nodes[#[trigger] order[k] as int].path == p,
{
    if emptiness::found(root, settings, es, p) {
        assert(p.is_prefix_of(p));
        assert(outline::listed(nodes, p));
        let a = choose|a: int| 0 <= a < nodes.len() && (#[trigger] nodes[a]).path == p;
        assert(order.contains(a as usize));
        let k = choose|k: int| 0 <= k < order.len() && order[k] == a as usize;
        assert(nodes[order[k] as int].path == p);
    }
    if exists|k: int| 0 <= k < order.len() && nodes[#[trigger] order[k] as int].path == p {
        let k = choose|k: int|
            0 <= k < order.len() && nodes[#[trigger] order[k] as int].path == p;
        assert(nodes[order[k] as int].status == EMPTY);
    }
}

/// Two orders for the same lines are the same.
pub proof fn law_plan_is_unique(nodes: Seq<NodeModel>, x: Seq<usize>, y: Seq<usize>)
    requires
        delete::is_plan(nodes, x),
        delete::is_plan(nodes, y),
    ensures
        x == y,
{
    lemma_plan_prefix(nodes, x, y, x.len() as int);
    lemma_plan_prefix(nodes, y, x, y.len() as int);
    assert(x =~= y);
}

proof fn lemma_plan_prefix(nodes: Seq<NodeModel>, x: Seq<usize>, y: Seq<usize>, n: int)
    requires
        delete::is_plan(nodes, x),
        delete::is_plan(nodes, y),
        0 <= n <= x.len(),
    ensures
        n <= y.len(),
        forall|k: int| 0 <= k < n ==> x[k] == y[k],
    decreases n,
{
    if n > 0 {
        lemma_plan_prefix(nodes, x, y, n - 1);
        let m = n - 1;
        let v = x[m];
        assert(nodes[v as int].status == EMPTY);
        assert(y.contains(v));
        let q = choose|q: int| 0 <= q < y.len() && y[q] == v;
        if q < m {
            assert(x[q] == y[q]);
            assert(delete::goes_before(nodes, x[q] as int, x[m] as int));
        }
        assert(q >= m);
        if q > m {
            let w = y[m];
            assert(nodes[w as int].status == EMPTY);
            assert(x.contains(w));
            let p = choose|p: int| 0 <= p < x.len() && x[p] == w;
            assert(delete::goes_before(nodes, y[m] as int, y[q] as int));
            if p < m {
                assert(x[p] == y[p]);
                assert(delete::goes_before(nodes, y[p] as int, y[m] as int));
            } else if p > m {
                assert(delete::goes_before(nodes, x[m] as int, x[p] as int));
            }
        }
    }
}

/// A scan and a deletion agree on the files that count: told the same, the
/// files that do not keep a directory from being empty are those that are
/// removed with it.
pub proof fn law_scan_and_deletion_agree(
    scan: ScanSettings,
    del: DeleteSettings,
    e: EntryModel,
    c: Child,
)
    requires
        text::texts(scan.ignore_files@) == text::texts(del.ignore_files@),
        scan.consider_empty_files_empty == del.consider_empty_files_empty,
        e.kind == EntryKind::File,
        e.path.len() > 0,
        c.is_file,
        !c.is_symlink,
        c.name@ == e.path.last().text,
        c.size == e.size,
    ensures
        scan.keeps(e) <==> !del.removes(c),
{
    wild::lemma_matches_by_texts(scan.ignore_files@, del.ignore_files@, c.name@);
}

/// A plan holds the lines with status 1, each once, and no others.
pub proof fn law_plan_holds_the_marked(nodes: Seq<NodeModel>, order: Seq<usize>, i: usize, a: int, b: int)
    requires
        delete::is_plan(nodes, order),
        0 <= a < order.len(),
        0 <= b < order.len(),
    ensures
        order.contains(i) <==> i < nodes.len() && nodes[i as int].status == 1,
        order[a] == order[b] ==> a == b,
{
    if order.contains(i) {
        let k = choose|k: int| 0 <= k < order.len() && order[k] == i;
        assert(nodes[order[k] as int].status == EMPTY);
    }
    if a < b {
        assert(delete::goes_before(nodes, order[a] as int, order[b] as int));
    } else if b < a {
        assert(delete::goes_before(nodes, order[b] as int, order[a] as int));
    }
}

/// A plan goes from the deepest level up, and through each level as its lines
/// stand.
pub proof fn law_plan_goes_up_level_by_level(nodes: Seq<NodeModel>, order: Seq<usize>, a: int, b: int)
    requires
        delete::is_plan(nodes, order),
        0 <= a < b < order.len(),
    ensures
        nodes[order[a] as int].depth >= nodes[order[b] as int].depth,
        nodes[order[a] as int].depth == nodes[order[b] as int].depth ==> order[a] < order[b],
{
    assert(delete::goes_before(nodes, order[a] as int, order[b] as int));
}

/// A batch holds one level: no two of its directories are at different depths,
/// so that none lies below another.
pub proof fn law_batch_holds_one_level(
    settings: DeleteSettings,
    nodes: Seq<NodeModel>,
    run: RunModel,
    end: int,
    j: int,
    k: int,
)
    requires
        run.fits(nodes),
        run.batch_end(settings, nodes, end),
        run.done <= j < end,
        run.done <= k < end,
    ensures
        end <= run.order.len(),
        nodes[run.order[j] as int].depth == nodes[run.order[k] as int].depth,
        scan_laws::is_tree(nodes) ==> !scan_laws::below(
            nodes[run.order[j] as int].path,
            nodes[run.order[k] as int].path,
        ),
{
    assert(run.order[j] < nodes.len() && run.order[k] < nodes.len());
    assert(nodes[run.order[j] as int].depth == nodes[run.order[k] as int].depth);
    if scan_laws::is_tree(nodes) {
        assert(nodes[run.order[j] as int].depth == nodes[run.order[j] as int].path.len());
        assert(nodes[run.order[k] as int].depth == nodes[run.order[k] as int].path.len());
    }
}

/// Without pauses a batch is the whole of the deepest level that is left; with
/// pauses it is one directory; and there is none exactly when the run was
/// given up or everything is settled.
pub proof fn law_batch_is_the_deepest_level_left(
    settings: DeleteSettings,
    first: Seq<NodeModel>,
    nodes: Seq<NodeModel>,
    run: RunModel,
    end: int,
    k: int,
)
    requires
        in_order(first, nodes, run),
        run.batch_end(settings, nodes, end),
        run.done <= k < run.order.len(),
    ensures
        end == run.done <==> run.aborted,
        !run.aborted && settings.pause_ms > 0 ==> end == run.done + 1,
        !run.aborted ==> nodes[run.order[k] as int].depth
            <= nodes[run.order[run.done] as int].depth,
        !run.aborted && settings.pause_ms == 0 ==> (k < end <==> nodes[run.order[k] as int].depth
            == nodes[run.order[run.done] as int].depth),
{
    assert(run.order[k] < first.len() && run.order[run.done] < first.len());
    assert(nodes[run.order[k] as int] == first[run.order[k] as int]);
    assert(nodes[run.order[run.done] as int] == first[run.order[run.done] as int]);
    if run.done < k {
        assert(delete::goes_before(first, run.order[run.done] as int, run.order[k] as int));
    }
    if !run.aborted && settings.pause_ms == 0 && k >= end {
        assert(nodes[run.order[end] as int] == first[run.order[end] as int]);
        assert(delete::goes_before(first, run.order[run.done] as int, run.order[end] as int));
        if end < k {
            assert(delete::goes_before(first, run.order[end] as int, run.order[k] as int));
        }
    }
}

/// A run with nothing left to settle has no batch.
pub proof fn law_settled_run_is_over(
    settings: DeleteSettings,
    nodes: Seq<NodeModel>,
    run: RunModel,
    end: int,
)
    requires
        run.fits(nodes),
        run.batch_end(settings, nodes, end),
        run.done == run.order.len(),
    ensures
        end == run.done,
{
}

/// Before a directory is attempted, every directory below it that is to be
/// deleted has been settled.
pub proof fn law_what_is_below_is_settled_first(
    settings: DeleteSettings,
    first: Seq<NodeModel>,
    nodes: Seq<NodeModel>,
    run: RunModel,
    end: int,
    j: int,
    i: int,
)
    requires
        scan_laws::is_tree(first),
        in_order(first, nodes, run),
        run.batch_end(settings, nodes, end),
        run.done <= j < end,
        0 <= i < first.len() <= usize::MAX,
        first[i].status == 1,
        scan_laws::below(first[i].path, first[run.order[j] as int].path),
    ensures
        nodes[i].status == 2 || nodes[i].status == 4,
{
    assert(run.order.contains(i as usize));
    let q = choose|q: int| 0 <= q < run.order.len() && run.order[q] == i as usize;
    assert(run.order[j] < first.len());
    assert(first[i].depth == first[i].path.len());
    assert(first[run.order[j] as int].depth == first[run.order[j] as int].path.len());
    if q > j {
        assert(delete::goes_before(first, run.order[j] as int, run.order[q] as int));
    }
    if run.done <= q {
        law_batch_holds_one_level(settings, nodes, run, end, j, q);
        assert(nodes[run.order[j] as int] == first[run.order[j] as int]);
        assert(nodes[run.order[q] as int] == first[run.order[q] as int]);
    }
    assert(nodes[run.order[q] as int].status == DELETED || nodes[run.order[q] as int].status
        == FAILED);
}

/// The attempts up to the first failure are taken in, that one included, and
/// all of them where errors are ignored or nothing failed.
pub proof fn law_attempts_count_up_to_the_first_failure(
    settings: DeleteSettings,
    outcomes: Seq<Outcome>,
    k: int,
)
    requires
        0 <= k <= outcomes.len(),
        settings.ignore_errors || forall|q: int| 0 <= q < k ==> (#[trigger] outcomes[q]) is Removed,
    ensures
        k == outcomes.len() ==> delete::taken(settings, outcomes) == k,
        k < outcomes.len() && !settings.ignore_errors && !(outcomes[k] is Removed)
            ==> delete::taken(settings, outcomes) == k + 1,
{
    assert forall|q: int| 0 <= q < k implies !delete::ends_run(settings, #[trigger] outcomes[q]) by {}
    delete::lemma_taken_skip(settings, outcomes, k);
    if k < outcomes.len() {
        assert(outcomes.skip(k)[0] == outcomes[k]);
    }
}

proof fn lemma_lines_after_each(
    nodes: Seq<NodeModel>,
    run: RunModel,
    outcomes: Seq<Outcome>,
    n: int,
    i: int,
)
    requires
        run.fits(nodes),
        0 <= n <= outcomes.len(),
        run.done + n <= run.order.len(),
        0 <= i < nodes.len(),
    ensures
        forall|k: int|
            0 <= k < n && run.order[run.done + k] == i ==> delete::lines_after(
                nodes,
                run,
                outcomes,
                n,
            )[i].status == delete::status_after(#[trigger] outcomes[k]),
        (forall|k: int| 0 <= k < n ==> #[trigger] run.order[run.done + k] != i)
            ==> delete::lines_after(nodes, run, outcomes, n)[i] == nodes[i],
    decreases n,
{
    if n > 0 {
        lemma_lines_after_each(nodes, run, outcomes, n - 1, i);
        delete::lemma_lines_after_shape(nodes, run, outcomes, n - 1);
        let at = run.order[run.done + n - 1] as int;
        assert(run.order[run.done + n - 1] < nodes.len());
        assert forall|k: int| 0 <= k < n && run.order[run.done + k] == i implies delete::lines_after(
            nodes,
            run,
            outcomes,
            n,
        )[i].status == delete::status_after(#[trigger] outcomes[k]) by {
            if k < n - 1 {
                assert(run.order[run.done + k] != run.order[run.done + n - 1]);
            }
        }
        if forall|k: int| 0 <= k < n ==> #[trigger] run.order[run.done + k] != i {
            assert(at != i);
            assert forall|k: int| 0 <= k < n - 1 implies #[trigger] run.order[run.done + k] != i by {}
        }
    }
}

/// A line that was attempted has status 2 if its directory is gone and 4 if it
/// is not, and is else as it was.
pub proof fn law_status_tells_the_outcome(
    settings: DeleteSettings,
    nodes: Seq<NodeModel>,
    run: RunModel,
    outcomes: Seq<Outcome>,
    k: int,
)
    requires
        run.fits(nodes),
        run.done + outcomes.len() <= run.order.len(),
        0 <= k < delete::taken(settings, outcomes),
    ensures
        ({
            let i = run.order[run.done + k] as int;
            let after = delete::lines_after(nodes, run, outcomes, delete::taken(settings, outcomes));
            &&& after.len() == nodes.len()
            &&& after[i].status == 2 <==> outcomes[k] is Removed
            &&& after[i].status == 4 <==> !(outcomes[k] is Removed)
            &&& after[i] == NodeModel { status: after[i].status, ..nodes[i] }
        }),
{
    lemma_taken_bounds(settings, outcomes);
    let n = delete::taken(settings, outcomes);
    let i = run.order[run.done + k] as int;
    assert(run.order[run.done + k] < nodes.len());
    lemma_lines_after_each(nodes, run, outcomes, n, i);
    delete::lemma_lines_after_shape(nodes, run, outcomes, n);
    assert(delete::lines_after(nodes, run, outcomes, n)[i].status == delete::status_after(
        outcomes[k],
    ));
}

/// A line that was not attempted is as it was.
pub proof fn law_other_lines_stay(
    settings: DeleteSettings,
    nodes: Seq<NodeModel>,
    run: RunModel,
    outcomes: Seq<Outcome>,
    i: int,
)
    requires
        run.fits(nodes),
        run.done + outcomes.len() <= run.order.len(),
        0 <= i < nodes.len(),
        forall|k: int|
            0 <= k < delete::taken(settings, outcomes) ==> #[trigger] run.order[run.done + k] != i,
    ensures
        delete::lines_after(nodes, run, outcomes, delete::taken(settings, outcomes))[i] == nodes[i],
{
    lemma_taken_bounds(settings, outcomes);
    lemma_lines_after_each(nodes, run, outcomes, delete::taken(settings, outcomes), i);
}

proof fn lemma_removed_filter(outcomes: Seq<Outcome>, n: int)
    requires
        0 <= n <= outcomes.len(),
    ensures
        delete::removed_among(outcomes, n) == outcomes.take(n).filter(
            |o: Outcome| o is Removed,
        ).len(),
        n - delete::removed_among(outcomes, n) == outcomes.take(n).filter(
            |o: Outcome| !(o is Removed),
        ).len(),
    decreases n,
{
    reveal(Seq::filter);
    if n > 0 {
        lemma_removed_filter(outcomes, n - 1);
        assert(outcomes.take(n).drop_last() =~= outcomes.take(n - 1));
        assert(outcomes.take(n).last() == outcomes[n - 1]);
    }
}

/// The totals count the directories that are gone and those that are not,
/// among the attempts that were taken in, and the plan stays as it is.
pub proof fn law_totals_count_the_outcomes(
    settings: DeleteSettings,
    run: RunModel,
    outcomes: Seq<Outcome>,
)
    ensures
        ({
            let seen = outcomes.take(delete::taken(settings, outcomes));
            let after = delete::run_after(settings, run, outcomes);
            &&& after.order == run.order
            &&& after.done == run.done + seen.len()
            &&& after.deleted == run.deleted + seen.filter(|o: Outcome| o is Removed).len()
            &&& after.failed == run.failed + seen.filter(|o: Outcome| !(o is Removed)).len()
            &&& after.aborted <==> run.aborted || (!settings.ignore_errors && exists|k: int|
                0 <= k < outcomes.len() && !((#[trigger] outcomes[k]) is Removed))
        }),
{
    lemma_taken_bounds(settings, outcomes);
    lemma_removed_filter(outcomes, delete::taken(settings, outcomes));
    if exists|k: int| 0 <= k < outcomes.len() && delete::ends_run(settings, #[trigger] outcomes[k]) {
        let k = choose|k: int|
            0 <= k < outcomes.len() && delete::ends_run(settings, #[trigger] outcomes[k]);
        assert(!(outcomes[k] is Removed));
    }
    if !settings.ignore_errors && exists|k: int|
        0 <= k < outcomes.len() && !((#[trigger] outcomes[k]) is Removed) {
        let k = choose|k: int| 0 <= k < outcomes.len() && !((#[trigger] outcomes[k]) is Removed);
        assert(delete::ends_run(settings, outcomes[k]));
    }
}

/// What is told of an attempt: one message with the directory's path, that it
/// is gone or that it failed and why, with the line and its new status; how
/// many of all are settled; after a failure that is not ignored, that the run
/// ends; and else, where pauses are asked for, how long to wait. Without
/// pauses the progress comes first; with pauses it comes after the message,
/// and not at all when the run ends; and a directory that was not ready is
/// told of without the details.
pub proof fn law_attempt_is_told(
    root: ScanRoot,
    settings: DeleteSettings,
    nodes: Seq<NodeModel>,
    run: RunModel,
    outcomes: Seq<Outcome>,
)
    requires
        run.fits(nodes),
        run.done < run.order.len() <= usize::MAX,
        outcomes.len() > 0,
    ensures
        ({
            let told = delete::told_of_batch(root, settings, nodes, run, outcomes, 1);
            let at = if settings.pause_ms == 0 {
                1int
            } else {
                0int
            };
            let path = root.text_of(nodes[run.order[run.done] as int].path);
            let ended = !(outcomes[0] is Removed) && !settings.ignore_errors;
            &&& told.len() == (if settings.pause_ms > 0 && !ended || settings.pause_ms == 0 && ended {
                3int
            } else {
                2int
            })
            &&& told[at] matches EventModel::Log { message, index, status } && {
                &&& index == run.order[run.done]
                &&& status == (if outcomes[0] is Removed {
                    2i32
                } else {
                    4i32
                })
                &&& outcomes[0] is Removed ==> message == "Deleted: "@ + path
                &&& outcomes[0] matches Outcome::RemoveFailed(why) ==> message
                    == "Failed to delete "@ + path + ": "@ + why@
                &&& settings.pause_ms == 0 && outcomes[0] is NotReady ==> message
                    == "Failed to delete "@ + path + ": "@ + "Directory is not empty"@
                &&& settings.pause_ms == 0 ==> (outcomes[0] matches Outcome::CheckFailed(why)
                    ==> message == "Failed to delete "@ + path + ": "@ + why@)
                &&& settings.pause_ms > 0 && (outcomes[0] is NotReady || outcomes[0] is CheckFailed)
                    ==> message == "Failed to delete "@ + path + ": "@
                    + "Not empty or inaccessible"@
            }
            &&& settings.pause_ms == 0 || !ended ==> (told[1 - at] matches EventModel::Progress {
                done,
                total,
            } && done == run.done + 1 && total == run.order.len())
            &&& ended ==> told.last() == (EventModel::Log {
                message: "Aborting deletion due to error."@,
                index: run.order[run.done],
                status: 4,
            })
            &&& settings.pause_ms > 0 && !ended ==> told.last() == (EventModel::Pause {
                ms: settings.pause_ms,
            })
        }),
{
    let none = delete::told_of_batch(root, settings, nodes, run, outcomes, 0);
    let one = delete::told_of(root, settings, nodes, run.order, run.done, outcomes[0]);
    assert(none + one =~= one);
    assert(delete::told_of_batch(root, settings, nodes, run, outcomes, 1) == one);
}

/// The attempts of a batch are told of one after the other, each as if it were
/// the first of a batch of its own.
pub proof fn law_attempts_are_told_in_turn(
    root: ScanRoot,
    settings: DeleteSettings,
    nodes: Seq<NodeModel>,
    run: RunModel,
    outcomes: Seq<Outcome>,
    n: int,
)
    requires
        0 <= n < outcomes.len(),
    ensures
        delete::told_of_batch(root, settings, nodes, run, outcomes, 0).len() == 0,
        delete::told_of_batch(root, settings, nodes, run, outcomes, n + 1)
            == delete::told_of_batch(root, settings, nodes, run, outcomes, n)
            + delete::told_of_batch(
            root,
            settings,
            nodes,
            RunModel { done: run.done + n, ..run },
            outcomes.skip(n),
            1,
        ),
{
    let later = RunModel { done: run.done + n, ..run };
    let none = delete::told_of_batch(root, settings, nodes, later, outcomes.skip(n), 0);
    let one = delete::told_of(root, settings, nodes, run.order, run.done + n, outcomes[n]);
    assert(outcomes.skip(n)[0] == outcomes[n]);
    assert(none + one =~= one);
    assert(delete::told_of_batch(root, settings, nodes, later, outcomes.skip(n), 1) == one);
}

/// A symbolic link is removed exactly when a pattern matches its name,
/// whatever it leads to and however many bytes that holds.
pub proof fn law_link_goes_by_its_name_alone(
    settings: DeleteSettings,
    children: Vec<Child>,
    places: Vec<usize>,
    i: usize,
)
    requires
        clean::follows(settings, CleanEvent::Listed(Some(children)), CleanAction::Remove(places)),
        i < children@.len(),
        children@[i as int].is_symlink,
    ensures
        places@.contains(i) <==> exists|j: int|
            0 <= j < settings.ignore_files@.len() && wild::wild_matches(
                (#[trigger] settings.ignore_files@[j])@,
                children@[i as int].name@,
            ),
{
    lemma_removes_in_plain_terms(settings, children@[i as int]);
    assert(places@.contains(i) <==> settings.removes(children@[i as int]));
}

/// A file that is no link is removed exactly when a pattern matches its name,
/// or when it holds 0 bytes and such files do not count: a file with content
/// that no pattern names is never removed.
pub proof fn law_file_that_counts_is_never_removed(
    settings: DeleteSettings,
    children: Vec<Child>,
    places: Vec<usize>,
    i: usize,
)
    requires
        clean::follows(settings, CleanEvent::Listed(Some(children)), CleanAction::Remove(places)),
        i < children@.len(),
        children@[i as int].is_file,
        !children@[i as int].is_symlink,
    ensures
        (children@[i as int].size != Some(0u64) || !settings.consider_empty_files_empty) && (forall|
            j: int,
        |
            0 <= j < settings.ignore_files@.len() ==> !wild::wild_matches(
                (#[trigger] settings.ignore_files@[j])@,
                children@[i as int].name@,
            )) ==> !places@.contains(i),
        children@[i as int].size == Some(0u64) && settings.consider_empty_files_empty
            ==> places@.contains(i),
        (exists|j: int|
            0 <= j < settings.ignore_files@.len() && wild::wild_matches(
                (#[trigger] settings.ignore_files@[j])@,
                children@[i as int].name@,
            )) ==> places@.contains(i),
{
    lemma_removes_in_plain_terms(settings, children@[i as int]);
    assert(places@.contains(i) <==> settings.removes(children@[i as int]));
}

/// Nothing but files and links that were listed is removed, each once and in
/// the order of the list; where nothing could be listed nothing is removed.
pub proof fn law_nothing_else_is_removed(
    settings: DeleteSettings,
    listed: Option<Vec<Child>>,
    places: Vec<usize>,
)
    requires
        clean::follows(settings, CleanEvent::Listed(listed), CleanAction::Remove(places)),
    ensures
        listed is None ==> places@.len() == 0,
        forall|a: int|
            0 <= a < places@.len() ==> listed is Some && (#[trigger] places@[a]) < listed->0@.len()
                && (listed->0@[places@[a] as int].is_file || listed->0@[places@[a] as int].is_symlink),
        forall|a: int, b: int| 0 <= a < b < places@.len() ==> places@[a] < places@[b],
{
    if listed is Some {
        let children = listed->0;
        assert(clean::removable(settings, children@, places@));
        assert forall|a: int| 0 <= a < places@.len() implies (#[trigger] places@[a]) < children@.len()
            && (children@[places@[a] as int].is_file || children@[places@[a] as int].is_symlink) by {
            assert(places@.contains(places@[a]));
            lemma_removes_in_plain_terms(settings, children@[places@[a] as int]);
        }
    }
}

proof fn lemma_removes_in_plain_terms(settings: DeleteSettings, c: Child)
    ensures
        settings.removes(c) <==> {
            ||| (c.is_symlink || c.is_file) && exists|j: int|
                0 <= j < settings.ignore_files@.len() && wild::wild_matches(
                    (#[trigger] settings.ignore_files@[j])@,
                    c.name@,
                )
            ||| c.is_file && !c.is_symlink && settings.consider_empty_files_empty && c.size == Some(
                0u64,
            )
        },
{
    if wild::any_matches(settings.ignore_files@, c.name@) {
        let j = choose|j: int|
            0 <= j < settings.ignore_files@.len() && #[trigger] wild::wild_matches(
                settings.ignore_files@[j]@,
                c.name@,
            );
        assert(wild::wild_matches((settings.ignore_files@[j])@, c.name@));
    }
}

/// A directory is ready only when it is a link itself, or when it was listed
/// again and nothing was left in it; and then it is.
pub proof fn law_ready_means_bare_or_a_link(
    settings: DeleteSettings,
    event: CleanEvent,
    action: CleanAction,
)
    requires
        clean::follows(settings, event, action),
    ensures
        (action matches CleanAction::Done(Ok(ready)) && ready) <==> event == CleanEvent::Looked(
            Ok(true),
        ) || event == CleanEvent::Relisted(Ok(false)),
        !(action matches CleanAction::Done(Ok(ready)) && !ready),
{
}

/// A directory that could not be looked at, could not be listed again or has
/// something left in it is refused with the reason.
pub proof fn law_refusals_give_the_reason(
    settings: DeleteSettings,
    event: CleanEvent,
    action: CleanAction,
)
    requires
        clean::follows(settings, event, action),
    ensures
        action matches CleanAction::Done(Err(_)) <==> {
            ||| event matches CleanEvent::Looked(Err(_))
            ||| event matches CleanEvent::Relisted(Err(_))
            ||| event == CleanEvent::Relisted(Ok(true))
        },
        event matches CleanEvent::Looked(Err(e)) ==> action == CleanAction::Done(Err(e)),
        event matches CleanEvent::Relisted(Err(e)) ==> (action matches CleanAction::Done(Err(why))
            && why@ == "Failed to verify directory: "@ + e@),
        event == CleanEvent::Relisted(Ok(true)) ==> (action matches CleanAction::Done(Err(why))
            && why@ == "Directory is not empty (contains non-ignored files)"@),
{
}

/// A directory is listed exactly when it was seen not to be a link, so that
/// what a link leads to is never listed; and things are removed only after
/// the listing.
pub proof fn law_links_are_never_listed(
    settings: DeleteSettings,
    event: CleanEvent,
    action: CleanAction,
)
    requires
        clean::follows(settings, event, action),
    ensures
        action == CleanAction::List <==> event == CleanEvent::Looked(Ok(false)),
        action is Remove <==> event is Listed,
{
}

/// Only a directory that is ready is made to go: a link by unlinking it, never
/// by way of the trash, and any other directory by way of the trash where that
/// is asked for and else by removing it.
pub proof fn law_only_ready_directories_go(
    settings: DeleteSettings,
    check: Result<bool, String>,
    is_symlink: bool,
)
    ensures
        clean::way_after(settings, check, is_symlink) is Remove <==> check == Ok::<bool, String>(true),
        check == Ok::<bool, String>(true) && is_symlink ==> clean::way_after(settings, check, is_symlink)
            == AfterCheck::Remove(Removal::Unlink),
        check == Ok::<bool, String>(true) && !is_symlink ==> (clean::way_after(settings, check, is_symlink)
            == AfterCheck::Remove(Removal::Trash) <==> settings.move_to_trash),
        check == Ok::<bool, String>(true) && !is_symlink ==> (clean::way_after(settings, check, is_symlink)
            == AfterCheck::Remove(Removal::RemoveDir) <==> !settings.move_to_trash),
        check matches Err(why) ==> clean::way_after(settings, check, is_symlink) == AfterCheck::Settled(
            Outcome::CheckFailed(why),
        ),
        check == Ok::<bool, String>(false) ==> clean::way_after(settings, check, is_symlink)
            == AfterCheck::Settled(Outcome::NotReady),
{
}

/// A directory counts as gone exactly when its removal went well, and else its
/// reason is kept.
pub proof fn law_gone_means_removed(removed: Result<(), String>)
    ensures
        clean::outcome_after(removed) is Removed <==> removed is Ok,
        removed matches Err(why) ==> clean::outcome_after(removed) == Outcome::RemoveFailed(why),
{
}

} // verus!
