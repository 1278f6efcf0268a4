//! What holds of every set of rows.
use vstd::prelude::*;
use crate::delete;
use crate::entry::EntryModel;
use crate::outline;
use crate::outline::{NodeModel, EMPTY};
use crate::path;
use crate::path::ScanRoot;
use crate::rows;
use crate::scan_laws;
use crate::settings::ScanSettings;

verus! {

/// In a tree, the lines under a line are those of the directories below its
/// directory.
pub proof fn law_under_means_below(nodes: Seq<NodeModel>, i: int, j: int)
    requires
        scan_laws::is_tree(nodes),
        0 <= i < nodes.len(),
        0 <= j < nodes.len(),
    ensures
        rows::under(nodes, i, j) <==> scan_laws::below(nodes[i].path, nodes[j].path),
{
    let p = nodes[i].path;
    let q = nodes[j].path;
    let n = q.len() as int;
    assert(nodes[i].depth == p.len() && nodes[j].depth == q.len());
    if rows::under(nodes, i, j) {
        assert(nodes[i].depth > nodes[j].depth);
        let c = scan_laws::lemma_line_above(nodes, i, n);
        let y = nodes[c].path;
        assert(nodes[c].depth == y.len());
        assert(c <= j) by {
            if c > j {
                assert(nodes[c].depth > nodes[j].depth);
            }
        }
        assert(path::path_before(q, p));
        if c < j {
            assert(path::path_before(y, q));
            path::lemma_between_prefix(y, q, p);
        }
        assert(q == p.take(n));
    }
    if scan_laws::below(p, q) {
        path::lemma_prefix_before(q, p);
        path::lemma_path_asymmetric(q, p);
        assert(j < i) by {
            if i < j {
                assert(path::path_before(nodes[i].path, nodes[j].path));
            }
        }
        assert forall|k: int| j < k <= i implies (#[trigger] nodes[k]).depth > nodes[j].depth by {
            assert(path::path_before(nodes[j].path, nodes[k].path));
            if k < i {
                assert(path::path_before(nodes[k].path, nodes[i].path));
            }
            path::lemma_between_prefix(q, nodes[k].path, p);
            assert(nodes[k].depth == nodes[k].path.len());
        }
    }
}

/// In a tree, a line is hidden exactly when a directory above its own is
/// collapsed.
pub proof fn law_collapsing_hides_what_is_below(nodes: Seq<NodeModel>, i: int)
    requires
        scan_laws::is_tree(nodes),
        0 <= i < nodes.len(),
    ensures
        rows::hidden(nodes, i) <==> exists|j: int|
            0 <= j < nodes.len() && scan_laws::below(nodes[i].path, (#[trigger] nodes[j]).path)
                && !nodes[j].is_expanded,
{
    if rows::hidden(nodes, i) {
        let j = choose|j: int| #[trigger] rows::under(nodes, i, j) && !nodes[j].is_expanded;
        law_under_means_below(nodes, i, j);
        assert(!nodes[j].is_expanded);
    }
    if exists|j: int|
        0 <= j < nodes.len() && scan_laws::below(nodes[i].path, (#[trigger] nodes[j]).path)
            && !nodes[j].is_expanded {
        let j = choose|j: int|
            0 <= j < nodes.len() && scan_laws::below(nodes[i].path, (#[trigger] nodes[j]).path)
                && !nodes[j].is_expanded;
        law_under_means_below(nodes, i, j);
        assert(rows::under(nodes, i, j));
    }
}

proof fn lemma_runs_on_from(nodes: Seq<NodeModel>, i: int, c: int, d: int)
    requires
        0 <= c <= i < nodes.len(),
        d + 1 < rows::DRAWN_DEPTHS,
        nodes[c].depth == d + 1,
        !rows::hidden(nodes, c),
        forall|k: int| c < k <= i ==> (#[trigger] nodes[k]).depth > d + 1,
    ensures
        rows::runs_on(nodes, i, d) == !nodes[c].is_last_sibling,
    decreases i,
{
    if c < i {
        assert(nodes[i].depth > d + 1);
        lemma_runs_on_from(nodes, i - 1, c, d);
    }
}

/// In a tree, a line runs on through a column of a row that is shown exactly
/// when the directory above it at that depth has siblings to come.
pub proof fn law_columns_follow_the_tree(nodes: Seq<NodeModel>, i: int, d: int, c: int)
    requires
        scan_laws::is_tree(nodes),
        0 <= i < nodes.len(),
        !rows::hidden(nodes, i),
        0 <= d,
        d + 1 < nodes[i].depth,
        d + 1 < rows::DRAWN_DEPTHS,
        0 <= c < nodes.len(),
        nodes[c].path == nodes[i].path.take(d + 1),
    ensures
        rows::columns(nodes, i)[d] == if nodes[c].is_last_sibling {
            rows::BLANK
        } else {
            rows::RUN
        },
{
    let p = nodes[i].path;
    assert(nodes[i].depth == p.len());
    let q = nodes[c].path;
    assert(nodes[c].depth == q.len());
    assert(scan_laws::below(p, q));
    law_under_means_below(nodes, i, c);
    assert(!rows::hidden(nodes, c)) by {
        if rows::hidden(nodes, c) {
            let j = choose|j: int| #[trigger] rows::under(nodes, c, j) && !nodes[j].is_expanded;
            law_under_means_below(nodes, c, j);
            assert(p.take(nodes[j].path.len() as int) == q.take(nodes[j].path.len() as int));
            assert(scan_laws::below(p, nodes[j].path));
            law_under_means_below(nodes, i, j);
            assert(rows::under(nodes, i, j));
        }
    }
    lemma_runs_on_from(nodes, i, c, d);
}

/// A fresh outline is shown in full: no line of it is hidden.
pub proof fn law_fresh_outline_is_shown_in_full(
    root: ScanRoot,
    settings: ScanSettings,
    es: Seq<EntryModel>,
    nodes: Seq<NodeModel>,
)
    requires
        outline::is_outline(root, settings, es, nodes),
    ensures
        forall|i: int| 0 <= i < nodes.len() ==> !#[trigger] rows::hidden(nodes, i),
        rows::rows_of(root, nodes, nodes.len() as int).len() == nodes.len(),
{
    assert forall|i: int| 0 <= i < nodes.len() implies !#[trigger] rows::hidden(nodes, i) by {
        if rows::hidden(nodes, i) {
            let j = choose|j: int| #[trigger] rows::under(nodes, i, j) && !nodes[j].is_expanded;
            assert(nodes[j].is_expanded);
        }
    }
    lemma_all_shown(root, nodes, nodes.len() as int);
}

proof fn lemma_all_shown(root: ScanRoot, nodes: Seq<NodeModel>, n: int)
    requires
        0 <= n <= nodes.len(),
        forall|i: int| 0 <= i < n ==> !#[trigger] rows::hidden(nodes, i),
    ensures
        rows::rows_of(root, nodes, n).len() == n,
    decreases n,
{
    if n > 0 {
        assert(!rows::hidden(nodes, n - 1));
        lemma_all_shown(root, nodes, n - 1);
    }
}

/// Rows stand in the order of their lines, and each names its line.
pub proof fn law_rows_name_their_lines(root: ScanRoot, nodes: Seq<NodeModel>, n: int, a: int)
    requires
        0 <= n <= nodes.len(),
        nodes.len() <= i32::MAX,
        0 <= a < rows::rows_of(root, nodes, n).len(),
    ensures
        ({
            let row = rows::rows_of(root, nodes, n)[a];
            &&& 0 <= row.id < n
            &&& !rows::hidden(nodes, row.id as int)
            &&& row == rows::row_of(root, nodes, row.id as int)
            &&& forall|b: int|
                0 <= b < a ==> (#[trigger] rows::rows_of(root, nodes, n)[b]).id < row.id
        }),
    decreases n,
{
    if n > 0 {
        let before = rows::rows_of(root, nodes, n - 1);
        if rows::hidden(nodes, n - 1) || a < before.len() {
            law_rows_name_their_lines(root, nodes, n - 1, a);
        } else {
            assert forall|b: int| 0 <= b < a implies (#[trigger] rows::rows_of(root, nodes, n)[b]).id
                < n - 1 by {
                law_rows_name_their_lines(root, nodes, n - 1, b);
            }
        }
    }
}

/// Collapsing and expanding a line again changes nothing.
pub proof fn law_toggling_twice_changes_nothing(nodes: Seq<NodeModel>, id: int)
    ensures
        rows::toggled(rows::toggled(nodes, id), id) == nodes,
{
    assert(rows::toggled(rows::toggled(nodes, id), id) =~= nodes);
}

/// As many directories are to be deleted as are marked as empty.
pub proof fn law_plan_counts_the_empty(nodes: Seq<NodeModel>, order: Seq<usize>)
    requires
        delete::is_plan(nodes, order),
        nodes.len() <= usize::MAX,
    ensures
        order.len() == rows::empty_among(nodes, nodes.len() as int),
{
    assert(order.no_duplicates()) by {
        assert forall|a: int, b: int|
            0 <= a < order.len() && 0 <= b < order.len() && a != b implies order[a] != order[b] by {
            if a < b {
                assert(delete::goes_before(nodes, order[a] as int, order[b] as int));
            } else {
                assert(delete::goes_before(nodes, order[b] as int, order[a] as int));
            }
        }
    }
    order.unique_seq_to_set();
    let marked = lemma_empty_set(nodes, nodes.len() as int);
    assert(order.to_set() =~= marked) by {
        assert forall|i: usize| order.to_set().contains(i) <==> marked.contains(i) by {
            if order.to_set().contains(i) {
                let k = choose|k: int| 0 <= k < order.len() && order[k] == i;
                assert(nodes[order[k] as int].status == EMPTY);
            }
            if marked.contains(i) {
                assert(order.contains(i));
            }
        }
    }
}

proof fn lemma_empty_set(nodes: Seq<NodeModel>, n: int) -> (s: Set<usize>)
    requires
        0 <= n <= nodes.len(),
        nodes.len() <= usize::MAX,
    ensures
        s.finite(),
        s.len() == rows::empty_among(nodes, n),
        forall|i: usize| #[trigger] s.contains(i) <==> i < n && nodes[i as int].status == EMPTY,
    decreases n,
{
    if n == 0 {
        Set::empty()
    } else {
        let before = lemma_empty_set(nodes, n - 1);
        if nodes[n - 1].status == EMPTY {
            before.insert((n - 1) as usize)
        } else {
            before
        }
    }
}

/// No line before line `i` is collapsed with everything from it to `i` lying
/// deeper.
pub open spec fn in_sight(nodes: Seq<NodeModel>, i: int) -> bool {
    forall|j: int|
        0 <= j < i && !(#[trigger] nodes[j]).is_expanded ==> exists|k: int|
            j < k <= i && (#[trigger] nodes[k]).depth <= nodes[j].depth
}

proof fn lemma_in_sight(nodes: Seq<NodeModel>, i: int)
    requires
        0 <= i < nodes.len(),
    ensures
        in_sight(nodes, i) <==> !rows::hidden(nodes, i),
{
    if rows::hidden(nodes, i) {
        let j = choose|j: int| #[trigger] rows::under(nodes, i, j) && !nodes[j].is_expanded;
        if in_sight(nodes, i) {
            let k = choose|k: int| j < k <= i && (#[trigger] nodes[k]).depth <= nodes[j].depth;
            assert(nodes[k].depth > nodes[j].depth);
        }
    } else {
        assert forall|j: int| 0 <= j < i && !(#[trigger] nodes[j]).is_expanded implies exists|k: int|
            j < k <= i && (#[trigger] nodes[k]).depth <= nodes[j].depth by {
            if forall|k: int| j < k <= i ==> (#[trigger] nodes[k]).depth > nodes[j].depth {
                assert(rows::under(nodes, i, j));
            }
        }
    }
}

proof fn lemma_row_for(root: ScanRoot, nodes: Seq<NodeModel>, n: int, i: int) -> (a: int)
    requires
        0 <= i < n <= nodes.len() <= i32::MAX,
        !rows::hidden(nodes, i),
    ensures
        0 <= a < rows::rows_of(root, nodes, n).len(),
        rows::rows_of(root, nodes, n)[a].id == i,
    decreases n,
{
    if i == n - 1 {
        rows::rows_of(root, nodes, n).len() - 1
    } else {
        lemma_row_for(root, nodes, n - 1, i)
    }
}

/// The rows show exactly the lines that no collapsed line hides, each once and
/// in their order.
pub proof fn law_rows_show_what_is_in_sight(root: ScanRoot, nodes: Seq<NodeModel>, i: int, a: int, b: int)
    requires
        nodes.len() <= i32::MAX,
        0 <= i < nodes.len(),
    ensures
        ({
            let shown = rows::rows_of(root, nodes, nodes.len() as int);
            &&& (exists|c: int| 0 <= c < shown.len() && (#[trigger] shown[c]).id == i) <==> in_sight(
                nodes,
                i,
            )
            &&& 0 <= a < b < shown.len() ==> shown[a].id < shown[b].id
        }),
{
    let n = nodes.len() as int;
    let shown = rows::rows_of(root, nodes, n);
    lemma_in_sight(nodes, i);
    if in_sight(nodes, i) {
        let c = lemma_row_for(root, nodes, n, i);
        assert(shown[c].id == i);
    }
    if exists|c: int| 0 <= c < shown.len() && (#[trigger] shown[c]).id == i {
        let c = choose|c: int| 0 <= c < shown.len() && (#[trigger] shown[c]).id == i;
        law_rows_name_their_lines(root, nodes, n, c);
    }
    if 0 <= a < b < shown.len() {
        law_rows_name_their_lines(root, nodes, n, b);
    }
}

/// Every row carries what its line says: the name, the depth, the status,
/// whether it has children and whether it is expanded, besides its path; it
/// has one column for each level below the root, the last of which shows 3
/// where the line is the last of its siblings and 2 where it is not.
pub proof fn law_row_carries_its_line(root: ScanRoot, nodes: Seq<NodeModel>, a: int)
    requires
        nodes.len() <= i32::MAX,
        0 <= a < rows::rows_of(root, nodes, nodes.len() as int).len(),
    ensures
        ({
            let row = rows::rows_of(root, nodes, nodes.len() as int)[a];
            let line = nodes[row.id as int];
            &&& 0 <= row.id < nodes.len()
            &&& row.name == line.name
            &&& row.path == root.text_of(line.path)
            &&& row.depth == line.depth
            &&& row.status == line.status
            &&& row.has_children == line.has_children
            &&& row.is_expanded == line.is_expanded
            &&& row.is_root <==> line.depth == 0
            &&& row.tree_prefix.len() == 0
            &&& line.depth <= 0 ==> row.tree_lines.len() == 0
            &&& line.depth > 0 ==> row.tree_lines.len() == line.depth
            &&& line.depth > 0 && line.is_last_sibling ==> row.tree_lines.last() == 3
            &&& line.depth > 0 && !line.is_last_sibling ==> row.tree_lines.last() == 2
        }),
{
    law_rows_name_their_lines(root, nodes, nodes.len() as int, a);
}

proof fn lemma_runs_on_latest(nodes: Seq<NodeModel>, i: int, d: int, c: int)
    requires
        -1 <= c <= i < nodes.len(),
        0 <= d,
        d + 1 < 256,
        c >= 0 ==> nodes[c].depth == d + 1 && in_sight(nodes, c),
        forall|k: int| c < k <= i && (#[trigger] nodes[k]).depth == d + 1 ==> !in_sight(nodes, k),
    ensures
        rows::runs_on(nodes, i, d) == (c >= 0 && !nodes[c].is_last_sibling),
    decreases i + 1,
{
    if i >= 0 {
        lemma_in_sight(nodes, i);
        if c < i {
            lemma_runs_on_latest(nodes, i - 1, d, c);
        }
    }
}

/// Every other column of a row shows 1 where the latest line in sight at the
/// level of that column has siblings to come, and 0 where it has none, where
/// there is no such line, and beyond the depths that are drawn.
pub proof fn law_columns_show_siblings_to_come(
    root: ScanRoot,
    nodes: Seq<NodeModel>,
    a: int,
    d: int,
    c: int,
)
    requires
        nodes.len() <= i32::MAX,
        0 <= a < rows::rows_of(root, nodes, nodes.len() as int).len(),
        0 <= d,
        d + 1 < nodes[rows::rows_of(root, nodes, nodes.len() as int)[a].id as int].depth,
        -1 <= c <= rows::rows_of(root, nodes, nodes.len() as int)[a].id,
        c >= 0 ==> nodes[c].depth == d + 1 && in_sight(nodes, c),
        forall|k: int|
            c < k <= rows::rows_of(root, nodes, nodes.len() as int)[a].id && (
            #[trigger] nodes[k]).depth == d + 1 ==> !in_sight(nodes, k),
    ensures
        rows::rows_of(root, nodes, nodes.len() as int)[a].tree_lines[d] == (if d + 1 < 256 && c >= 0
            && !nodes[c].is_last_sibling {
            1i32
        } else {
            0i32
        }),
{
    law_rows_name_their_lines(root, nodes, nodes.len() as int, a);
    let i = rows::rows_of(root, nodes, nodes.len() as int)[a].id as int;
    if d + 1 < 256 {
        lemma_runs_on_latest(nodes, i, d, c);
    } else {
        rows::lemma_no_line_so_deep(nodes, i, d);
    }
}

/// Collapsing or expanding turns one line and changes nothing else; where no
/// line stands it changes nothing at all.
pub proof fn law_toggling_turns_one_line(nodes: Seq<NodeModel>, id: int, i: int)
    requires
        0 <= i < nodes.len(),
    ensures
        rows::toggled(nodes, id).len() == nodes.len(),
        i != id ==> rows::toggled(nodes, id)[i] == nodes[i],
        rows::toggled(nodes, i)[i] == (NodeModel {
            is_expanded: !nodes[i].is_expanded,
            ..nodes[i]
        }),
{
}

/// A line has the status of the last change that names it, or else the one it
/// had, and is else as it was.
pub proof fn law_last_change_of_status_wins(
    nodes: Seq<NodeModel>,
    changes: Seq<(usize, i32)>,
    i: int,
    k: int,
)
    requires
        0 <= i < nodes.len(),
        -1 <= k < changes.len(),
        k >= 0 ==> changes[k].0 == i,
        forall|q: int| k < q < changes.len() ==> (#[trigger] changes[q]).0 != i,
    ensures
        rows::with_statuses(nodes, changes).len() == nodes.len(),
        k >= 0 ==> rows::with_statuses(nodes, changes)[i] == (NodeModel {
            status: changes[k].1,
            ..nodes[i]
        }),
        k < 0 ==> rows::with_statuses(nodes, changes)[i] == nodes[i],
    decreases changes.len(),
{
    lemma_statuses_shape(nodes, changes, i);
    if changes.len() > 0 {
        lemma_statuses_shape(nodes, changes.drop_last(), i);
        if k < changes.len() - 1 {
            assert(changes[changes.len() - 1].0 != i);
            assert forall|q: int| k < q < changes.drop_last().len() implies (
            #[trigger] changes.drop_last()[q]).0 != i by {
                assert(changes[q].0 != i);
            }
            law_last_change_of_status_wins(nodes, changes.drop_last(), i, k);
        }
    }
}

proof fn lemma_statuses_shape(nodes: Seq<NodeModel>, changes: Seq<(usize, i32)>, i: int)
    requires
        0 <= i < nodes.len(),
    ensures
        rows::with_statuses(nodes, changes).len() == nodes.len(),
        rows::with_statuses(nodes, changes)[i] == (NodeModel {
            status: rows::with_statuses(nodes, changes)[i].status,
            ..nodes[i]
        }),
    decreases changes.len(),
{
    if changes.len() > 0 {
        lemma_statuses_shape(nodes, changes.drop_last(), i);
    }
}

/// The count of empty directories is the number of lines with status 1.
pub proof fn law_count_is_of_the_marked(nodes: Seq<NodeModel>)
    ensures
        rows::empty_among(nodes, nodes.len() as int) == nodes.filter(
            |l: NodeModel| l.status == 1,
        ).len(),
{
    lemma_count_filter(nodes, nodes.len() as int);
    assert(nodes.take(nodes.len() as int) =~= nodes);
}

proof fn lemma_count_filter(nodes: Seq<NodeModel>, n: int)
    requires
        0 <= n <= nodes.len(),
    ensures
        rows::empty_among(nodes, n) == nodes.take(n).filter(|l: NodeModel| l.status == 1).len(),
    decreases n,
{
    reveal(Seq::filter);
    if n > 0 {
        lemma_count_filter(nodes, n - 1);
        assert(nodes.take(n).drop_last() =~= nodes.take(n - 1));
        assert(nodes.take(n).last() == nodes[n - 1]);
    }
}

} // verus!
