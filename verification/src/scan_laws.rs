//! What holds of every scan.
use vstd::prelude::*;
use crate::emptiness;
use crate::entry;
use crate::entry::{EntryKind, EntryModel, Probe};
use crate::outline;
use crate::outline::NodeModel;
use crate::path;
use crate::path::{NameModel, ScanRoot};
use crate::settings::ScanSettings;
use crate::text;
use crate::wild;

verus! {

/// The entries are what a walk finds: each path once, and each below the root
/// in a directory that was found too. No path has more names than a depth can
/// count.
pub open spec fn is_walk(es: Seq<EntryModel>) -> bool {
    &&& forall|i: int| 0 <= i < es.len() ==> (#[trigger] es[i]).path.len() <= i32::MAX
    &&& forall|i: int, j: int|
        0 <= i < j < es.len() ==> (#[trigger] es[i]).path != (#[trigger] es[j]).path
    &&& forall|i: int|
        0 <= i < es.len() && (#[trigger] es[i]).path.len() > 0 ==> dir_at(
            es,
            es[i].path.drop_last(),
        )
}

/// A directory stands at `p`.
pub open spec fn dir_at(es: Seq<EntryModel>, p: Seq<NameModel>) -> bool {
    exists|j: int|
        0 <= j < es.len() && (#[trigger] es[j]).kind == EntryKind::Dir && es[j].path == p
}

/// Path `q` lies below path `p`.
pub open spec fn below(q: Seq<NameModel>, p: Seq<NameModel>) -> bool {
    p.len() < q.len() && p.is_prefix_of(q)
}

/// Everything above an entry of a walk is a directory of the walk.
proof fn lemma_dirs_above(es: Seq<EntryModel>, x: int, k: int)
    requires
        is_walk(es),
        0 <= x < es.len(),
        0 <= k < es[x].path.len(),
    ensures
        dir_at(es, es[x].path.take(k)),
    decreases es[x].path.len(),
{
    let whole = es[x].path;
    assert(dir_at(es, whole.drop_last()));
    if k < whole.len() - 1 {
        let j = choose|j: int|
            0 <= j < es.len() && (#[trigger] es[j]).kind == EntryKind::Dir && es[j].path
                == whole.drop_last();
        lemma_dirs_above(es, j, k);
        assert(whole.drop_last().take(k) == whole.take(k));
    } else {
        assert(whole.drop_last() == whole.take(k));
    }
}

/// In a walk, a directory within depth is held exactly when some entry below
/// it anchors it.
proof fn lemma_held_in_walk(
    root: ScanRoot,
    settings: ScanSettings,
    es: Seq<EntryModel>,
    i: int,
)
    requires
        is_walk(es),
        0 <= i < es.len(),
        !settings.over_depth(es[i]),
    ensures
        emptiness::held(root, settings, es, es[i].path) <==> exists|x: int|
            0 <= x < es.len() && below((#[trigger] es[x]).path, es[i].path) && settings.anchors(
                root,
                es[x],
            ),
{
    let p = es[i].path;
    if emptiness::held(root, settings, es, p) {
        let x = choose|x: int| emptiness::held_by(root, settings, es, p, x);
        assert(below(es[x].path, p));
    }
    if exists|x: int|
        0 <= x < es.len() && below((#[trigger] es[x]).path, p) && settings.anchors(root, es[x]) {
        let x = choose|x: int|
            0 <= x < es.len() && below((#[trigger] es[x]).path, p) && settings.anchors(root, es[x]);
        let whole = es[x].path;
        let y = if settings.over_depth(es[x]) && whole.len() > settings.max_depth + 1 {
            let k = settings.max_depth + 1;
            lemma_dirs_above(es, x, k);
            choose|j: int|
                0 <= j < es.len() && (#[trigger] es[j]).kind == EntryKind::Dir && es[j].path
                    == whole.take(k)
        } else {
            x
        };
        let top = es[y].path;
        assert(top == whole.take(top.len() as int));
        assert(settings.anchors(root, es[y]));
        assert(top.len() > p.len());
        assert(top.take(p.len() as int) == whole.take(p.len() as int));
        assert(p.is_prefix_of(top));
        assert forall|k: int| p.len() < k < top.len() implies emptiness::has_dir(
            settings,
            es,
            #[trigger] top.take(k),
        ) by {
            lemma_dirs_above(es, y, k);
            let j = choose|j: int|
                0 <= j < es.len() && (#[trigger] es[j]).kind == EntryKind::Dir && es[j].path
                    == top.take(k);
            assert(!settings.over_depth(es[j]));
        }
        assert(emptiness::held_by(root, settings, es, p, y));
    }
}

/// In a walk, a directory below the root and within depth is reported as empty
/// exactly when it is not protected and nothing below it, however deep, is a
/// file that counts, a protected directory or beyond the depth that the scan
/// looks to.
pub proof fn law_empty_when_nothing_below_counts(
    root: ScanRoot,
    settings: ScanSettings,
    es: Seq<EntryModel>,
    i: int,
)
    requires
        is_walk(es),
        0 <= i < es.len(),
        es[i].kind == EntryKind::Dir,
        es[i].path.len() > 0,
        !settings.over_depth(es[i]),
    ensures
        emptiness::found(root, settings, es, es[i].path) <==> {
            &&& !settings.protects(root, es[i])
            &&& forall|x: int|
                0 <= x < es.len() && below((#[trigger] es[x]).path, es[i].path)
                    ==> !settings.anchors(root, es[x])
        },
{
    lemma_held_in_walk(root, settings, es, i);
    if emptiness::found(root, settings, es, es[i].path) {
        let j = choose|j: int| #[trigger]
            emptiness::vacant(root, settings, es, j) && es[j].path == es[i].path;
        assert(j == i) by {
            if j < i {
                assert(es[j].path != es[i].path);
            } else if i < j {
                assert(es[i].path != es[j].path);
            }
        }
        assert(es[i].kind == EntryKind::Dir);
    }
    if !settings.protects(root, es[i]) && !emptiness::held(root, settings, es, es[i].path) {
        assert forall|j: int|
            0 <= j <= i && (#[trigger] es[j]).kind == EntryKind::Dir && es[j].path
                == es[i].path implies !settings.protects(root, es[j]) by {
            if j < i {
                assert(es[j].path != es[i].path);
            }
        }
        assert(emptiness::vacant(root, settings, es, i));
    }
}

/// Only directories that were found below the root, within depth, are
/// reported as empty.
pub proof fn law_only_walked_directories_are_reported(
    root: ScanRoot,
    settings: ScanSettings,
    es: Seq<EntryModel>,
    p: Seq<NameModel>,
)
    requires
        emptiness::found(root, settings, es, p),
    ensures
        p.len() > 0,
        emptiness::has_dir(settings, es, p),
{
    let i = choose|i: int| #[trigger]
        emptiness::vacant(root, settings, es, i) && es[i].path == p;
    assert(es[i].kind == EntryKind::Dir);
}

/// Emptiness cascades: every directory below an empty directory is empty.
pub proof fn law_emptiness_reaches_down(
    root: ScanRoot,
    settings: ScanSettings,
    es: Seq<EntryModel>,
    p: Seq<NameModel>,
    j: int,
)
    requires
        is_walk(es),
        emptiness::found(root, settings, es, p),
        0 <= j < es.len(),
        es[j].kind == EntryKind::Dir,
        below(es[j].path, p),
    ensures
        emptiness::found(root, settings, es, es[j].path),
{
    let i = choose|i: int| #[trigger]
        emptiness::vacant(root, settings, es, i) && es[i].path == p;
    law_empty_when_nothing_below_counts(root, settings, es, i);
    assert(!settings.anchors(root, es[j]));
    assert forall|x: int|
        0 <= x < es.len() && below((#[trigger] es[x]).path, es[j].path) implies !settings.anchors(
        root,
        es[x],
    ) by {
        assert(es[x].path.take(p.len() as int) == es[x].path.take(es[j].path.len() as int).take(
            p.len() as int,
        ));
        assert(below(es[x].path, p));
    }
    law_empty_when_nothing_below_counts(root, settings, es, j);
}

/// What counts stays, with all that lies above it: no directory above a file
/// that counts, a protected directory or an entry beyond the depth is
/// reported as empty.
pub proof fn law_content_keeps_what_is_above(
    root: ScanRoot,
    settings: ScanSettings,
    es: Seq<EntryModel>,
    x: int,
    p: Seq<NameModel>,
)
    requires
        is_walk(es),
        0 <= x < es.len(),
        settings.anchors(root, es[x]),
        below(es[x].path, p),
    ensures
        !emptiness::found(root, settings, es, p),
{
    if emptiness::found(root, settings, es, p) {
        let i = choose|i: int| #[trigger]
            emptiness::vacant(root, settings, es, i) && es[i].path == p;
        law_empty_when_nothing_below_counts(root, settings, es, i);
    }
}

/// A protected directory of a walk is not reported as empty.
pub proof fn law_protected_directory_stays(
    root: ScanRoot,
    settings: ScanSettings,
    es: Seq<EntryModel>,
    i: int,
)
    requires
        is_walk(es),
        0 <= i < es.len(),
        es[i].kind == EntryKind::Dir,
        settings.protects(root, es[i]),
    ensures
        !emptiness::found(root, settings, es, es[i].path),
{
    if emptiness::found(root, settings, es, es[i].path) {
        let j = choose|j: int| #[trigger]
            emptiness::vacant(root, settings, es, j) && es[j].path == es[i].path;
        if j < i {
            assert(es[j].path != es[i].path);
        } else if i < j {
            assert(es[i].path != es[j].path);
        }
    }
}

/// The entry goes when the directories reported as empty go: it is one of them
/// or lies below one.
pub open spec fn goes(
    root: ScanRoot,
    settings: ScanSettings,
    es: Seq<EntryModel>,
    e: EntryModel,
) -> bool {
    exists|q: Seq<NameModel>| #[trigger]
        emptiness::found(root, settings, es, q) && q.is_prefix_of(e.path)
}

/// One pass is enough: once everything that a scan reports as empty is gone, a
/// scan of what is left reports nothing.
pub proof fn law_one_pass_is_enough(
    root: ScanRoot,
    settings: ScanSettings,
    es: Seq<EntryModel>,
    left: Seq<EntryModel>,
    p: Seq<NameModel>,
)
    requires
        is_walk(es),
        is_walk(left),
        forall|e: EntryModel| #[trigger]
            left.contains(e) <==> es.contains(e) && !goes(root, settings, es, e),
    ensures
        !emptiness::found(root, settings, left, p),
{
    if emptiness::found(root, settings, left, p) {
        let i = choose|i: int| #[trigger]
            emptiness::vacant(root, settings, left, i) && left[i].path == p;
        let e = left[i];
        assert(left.contains(e));
        let j = choose|j: int| 0 <= j < es.len() && es[j] == e;
        assert(p.is_prefix_of(p));
        assert(!emptiness::found(root, settings, es, p));
        law_empty_when_nothing_below_counts(root, settings, es, j);
        law_empty_when_nothing_below_counts(root, settings, left, i);
        let x = choose|x: int|
            0 <= x < es.len() && below((#[trigger] es[x]).path, p) && settings.anchors(root, es[x]);
        let deep = es[x].path;
        if goes(root, settings, es, es[x]) {
            let q = choose|q: Seq<NameModel>| #[trigger]
                emptiness::found(root, settings, es, q) && q.is_prefix_of(deep);
            if q.len() <= p.len() {
                assert(q == deep.take(q.len() as int));
                assert(p == deep.take(p.len() as int));
                assert(q == p.take(q.len() as int));
                assert(q.is_prefix_of(p));
                assert(goes(root, settings, es, e));
            } else if q.len() < deep.len() {
                law_content_keeps_what_is_above(root, settings, es, x, q);
            } else {
                assert(q == deep);
                let y = choose|y: int| #[trigger]
                    emptiness::vacant(root, settings, es, y) && es[y].path == q;
                if x < y {
                    assert(es[x].path != es[y].path);
                } else if y < x {
                    assert(es[y].path != es[x].path);
                }
                assert(es[y].kind == EntryKind::Dir);
            }
            assert(false);
        }
        assert(es.contains(es[x]));
        assert(left.contains(es[x]));
        let z = choose|z: int| 0 <= z < left.len() && left[z] == es[x];
        law_content_keeps_what_is_above(root, settings, left, z, p);
    }
}

/// The two lists hold the same entries, whatever the order.
pub open spec fn same_entries(es: Seq<EntryModel>, fs: Seq<EntryModel>) -> bool {
    forall|e: EntryModel| #[trigger] es.contains(e) <==> fs.contains(e)
}

proof fn lemma_found_carries_over(
    root: ScanRoot,
    settings: ScanSettings,
    es: Seq<EntryModel>,
    fs: Seq<EntryModel>,
    p: Seq<NameModel>,
)
    requires
        is_walk(es),
        is_walk(fs),
        same_entries(es, fs),
        emptiness::found(root, settings, es, p),
    ensures
        emptiness::found(root, settings, fs, p),
{
    let i = choose|i: int| #[trigger]
        emptiness::vacant(root, settings, es, i) && es[i].path == p;
    law_empty_when_nothing_below_counts(root, settings, es, i);
    assert(es.contains(es[i]));
    assert(fs.contains(es[i]));
    let j = choose|j: int| 0 <= j < fs.len() && fs[j] == es[i];
    assert forall|x: int|
        0 <= x < fs.len() && below((#[trigger] fs[x]).path, fs[j].path) implies !settings.anchors(
        root,
        fs[x],
    ) by {
        assert(fs.contains(fs[x]));
        assert(es.contains(fs[x]));
        let y = choose|y: int| 0 <= y < es.len() && es[y] == fs[x];
        assert(!settings.anchors(root, es[y]));
    }
    law_empty_when_nothing_below_counts(root, settings, fs, j);
}

/// Two lists of lines that stand by path and hold the same paths hold them at
/// the same places.
proof fn lemma_by_path_unique(x: Seq<NodeModel>, y: Seq<NodeModel>)
    requires
        outline::by_path(x),
        outline::by_path(y),
        forall|p: Seq<NameModel>| #[trigger] outline::listed(x, p) <==> outline::listed(y, p),
    ensures
        x.len() == y.len(),
        forall|a: int| 0 <= a < x.len() ==> (#[trigger] x[a]).path == y[a].path,
    decreases x.len(),
{
    if x.len() == 0 {
        if y.len() > 0 {
            assert(outline::listed(y, y[0].path));
            assert(outline::listed(x, y[0].path));
        }
    } else {
        assert(outline::listed(x, x.last().path));
        assert(outline::listed(y, x.last().path));
        let b = choose|b: int| 0 <= b < y.len() && (#[trigger] y[b]).path == x.last().path;
        assert(outline::listed(y, y.last().path));
        assert(outline::listed(x, y.last().path));
        let a = choose|a: int| 0 <= a < x.len() && (#[trigger] x[a]).path == y.last().path;
        if b < y.len() - 1 {
            path::lemma_path_asymmetric(y[b].path, y.last().path);
            if a < x.len() - 1 {
                assert(path::path_before(x[a].path, x.last().path));
            }
        }
        assert(x.last().path == y.last().path);
        let x0 = x.drop_last();
        let y0 = y.drop_last();
        assert forall|p: Seq<NameModel>| #[trigger] outline::listed(x0, p) <==> outline::listed(y0, p) by {
            lemma_listed_drop_last(x, p);
            lemma_listed_drop_last(y, p);
            assert(outline::listed(x, p) <==> outline::listed(y, p));
        }
        lemma_by_path_unique(x0, y0);
        assert forall|q: int| 0 <= q < x.len() implies (#[trigger] x[q]).path == y[q].path by {
            if q < x.len() - 1 {
                assert(x0[q].path == y0[q].path);
            }
        }
    }
}

proof fn lemma_listed_drop_last(x: Seq<NodeModel>, p: Seq<NameModel>)
    requires
        outline::by_path(x),
        x.len() > 0,
    ensures
        outline::listed(x.drop_last(), p) <==> outline::listed(x, p) && p != x.last().path,
{
    if outline::listed(x.drop_last(), p) {
        let a = choose|a: int|
            0 <= a < x.drop_last().len() && (#[trigger] x.drop_last()[a]).path == p;
        assert(x[a].path == p);
        path::lemma_path_asymmetric(x[a].path, x.last().path);
    }
    if outline::listed(x, p) && p != x.last().path {
        let a = choose|a: int| 0 <= a < x.len() && (#[trigger] x[a]).path == p;
        assert(x.drop_last()[a].path == p);
    }
}

/// A scan has one result, and it does not rest on the order in which the walk
/// found things.
pub proof fn law_outline_rests_on_the_entries_alone(
    root: ScanRoot,
    settings: ScanSettings,
    es: Seq<EntryModel>,
    fs: Seq<EntryModel>,
    x: Seq<NodeModel>,
    y: Seq<NodeModel>,
)
    requires
        is_walk(es),
        is_walk(fs),
        same_entries(es, fs),
        outline::is_outline(root, settings, es, x),
        outline::is_outline(root, settings, fs, y),
    ensures
        x == y,
{
    assert forall|p: Seq<NameModel>| #[trigger] emptiness::found(root, settings, es, p)
        <==> emptiness::found(root, settings, fs, p) by {
        if emptiness::found(root, settings, es, p) {
            lemma_found_carries_over(root, settings, es, fs, p);
        }
        if emptiness::found(root, settings, fs, p) {
            lemma_found_carries_over(root, settings, fs, es, p);
        }
    }
    assert forall|p: Seq<NameModel>| #[trigger] outline::listed(x, p) <==> outline::listed(y, p) by {
        if outline::included(root, settings, es, p) {
            let q = choose|q: Seq<NameModel>| #[trigger]
                emptiness::found(root, settings, es, q) && p.is_prefix_of(q);
            assert(emptiness::found(root, settings, fs, q));
        }
        if outline::included(root, settings, fs, p) {
            let q = choose|q: Seq<NameModel>| #[trigger]
                emptiness::found(root, settings, fs, q) && p.is_prefix_of(q);
            assert(emptiness::found(root, settings, es, q));
        }
    }
    lemma_by_path_unique(x, y);
    assert forall|a: int| 0 <= a < x.len() implies (#[trigger] x[a]).depth == (
    #[trigger] y[a]).depth by {}
    outline::lemma_flags_from_depths(x, y);
    assert forall|a: int| 0 <= a < x.len() implies #[trigger] x[a] == y[a] by {
        assert(outline::opens(x, a) == outline::opens(y, a));
        assert(outline::closes(x, a) == outline::closes(y, a));
        assert(emptiness::found(root, settings, es, x[a].path) == emptiness::found(
            root,
            settings,
            fs,
            x[a].path,
        ));
    }
    assert(x =~= y);
}

/// An outline is blank exactly when nothing was found, and else begins with
/// the root.
pub proof fn law_outline_begins_with_the_root(
    root: ScanRoot,
    settings: ScanSettings,
    es: Seq<EntryModel>,
    nodes: Seq<NodeModel>,
)
    requires
        outline::is_outline(root, settings, es, nodes),
    ensures
        nodes.len() == 0 <==> forall|p: Seq<NameModel>|
            !#[trigger] emptiness::found(root, settings, es, p),
        nodes.len() > 0 ==> nodes[0].path == Seq::<NameModel>::empty() && nodes[0].depth == 0
            && nodes[0].status == outline::SHOWN && nodes[0].name == root.text@,
{
    let top = Seq::<NameModel>::empty();
    if nodes.len() > 0 {
        assert(outline::listed(nodes, nodes[0].path));
        let q = choose|q: Seq<NameModel>| #[trigger]
            emptiness::found(root, settings, es, q) && nodes[0].path.is_prefix_of(q);
        assert(top.is_prefix_of(q));
        assert(outline::listed(nodes, top));
        let a = choose|a: int| 0 <= a < nodes.len() && (#[trigger] nodes[a]).path == top;
        assert(a == 0);
        if emptiness::found(root, settings, es, top) {
            law_only_walked_directories_are_reported(root, settings, es, top);
        }
    }
    if exists|p: Seq<NameModel>| emptiness::found(root, settings, es, p) {
        let p = choose|p: Seq<NameModel>| emptiness::found(root, settings, es, p);
        assert(top.is_prefix_of(p));
        assert(outline::listed(nodes, top));
    }
}

/// The lines stand by path, each at the depth of its path, and everything
/// above a line is a line too.
pub open spec fn is_tree(nodes: Seq<NodeModel>) -> bool {
    &&& outline::by_path(nodes)
    &&& forall|a: int|
        0 <= a < nodes.len() ==> (#[trigger] nodes[a]).depth == nodes[a].path.len()
    &&& forall|a: int, k: int|
        0 <= a < nodes.len() && 0 <= k <= nodes[a].path.len() ==> outline::listed(
            nodes,
            #[trigger] nodes[a].path.take(k),
        )
}

/// The outline of a walk is a tree: every directory above a line is a line,
/// and each line stands at the depth of its directory.
pub proof fn law_outline_is_a_tree(
    root: ScanRoot,
    settings: ScanSettings,
    es: Seq<EntryModel>,
    nodes: Seq<NodeModel>,
)
    requires
        is_walk(es),
        outline::is_outline(root, settings, es, nodes),
    ensures
        is_tree(nodes),
{
    assert forall|a: int| 0 <= a < nodes.len() implies (#[trigger] nodes[a]).depth
        == nodes[a].path.len() by {
        assert(outline::listed(nodes, nodes[a].path));
        let q = choose|q: Seq<NameModel>| #[trigger]
            emptiness::found(root, settings, es, q) && nodes[a].path.is_prefix_of(q);
        let i = choose|i: int| #[trigger]
            emptiness::vacant(root, settings, es, i) && es[i].path == q;
        assert(es[i].path.len() <= i32::MAX);
    }
    assert forall|a: int, k: int|
        0 <= a < nodes.len() && 0 <= k <= nodes[a].path.len() implies outline::listed(
        nodes,
        #[trigger] nodes[a].path.take(k),
    ) by {
        let p = nodes[a].path;
        assert(outline::listed(nodes, p));
        let q = choose|q: Seq<NameModel>| #[trigger]
            emptiness::found(root, settings, es, q) && p.is_prefix_of(q);
        assert(p.take(k) == q.take(k));
        assert(p.take(k).is_prefix_of(q));
    }
}

/// The line at the first `k` names of line `a`, which stands no later.
pub(crate) proof fn lemma_line_above(nodes: Seq<NodeModel>, a: int, k: int) -> (c: int)
    requires
        is_tree(nodes),
        0 <= a < nodes.len(),
        0 <= k <= nodes[a].path.len(),
    ensures
        0 <= c <= a,
        nodes[c].path == nodes[a].path.take(k),
        k < nodes[a].path.len() ==> c < a,
{
    let p = nodes[a].path;
    assert(outline::listed(nodes, p.take(k)));
    let c = choose|c: int| 0 <= c < nodes.len() && (#[trigger] nodes[c]).path == p.take(k);
    path::lemma_path_irreflexive(p);
    if k < p.len() {
        path::lemma_prefix_before(p.take(k), p);
        path::lemma_path_asymmetric(p.take(k), p);
    } else {
        assert(p.take(k) == p);
    }
    if c > a {
        assert(path::path_before(nodes[a].path, nodes[c].path));
    }
    c
}

/// The line with path `p` stands directly below the line with path `q`.
pub open spec fn child_of(p: Seq<NameModel>, q: Seq<NameModel>) -> bool {
    p.len() == q.len() + 1 && p.take(q.len() as int) == q
}

proof fn lemma_opens_has_child(nodes: Seq<NodeModel>, a: int) -> (b: int)
    requires
        is_tree(nodes),
        0 <= a < nodes.len(),
        outline::opens(nodes, a),
    ensures
        0 <= b < nodes.len(),
        child_of(nodes[b].path, nodes[a].path),
{
    let p = nodes[a].path;
    let n = p.len() as int;
    let x = nodes[a + 1].path;
    assert(nodes[a + 1].depth == x.len() && nodes[a].depth == p.len());
    let c = lemma_line_above(nodes, a + 1, n);
    let y = nodes[c].path;
    assert(path::path_before(p, x));
    if c < a {
        assert(path::path_before(y, p));
        path::lemma_between_prefix(y, p, x);
    }
    assert(c == a);
    let b = lemma_line_above(nodes, a + 1, n + 1);
    assert(x.take(n + 1).take(n) == x.take(n));
    b
}

proof fn lemma_child_opens(nodes: Seq<NodeModel>, a: int, b: int)
    requires
        is_tree(nodes),
        0 <= a < nodes.len(),
        0 <= b < nodes.len(),
        child_of(nodes[b].path, nodes[a].path),
    ensures
        outline::opens(nodes, a),
{
    let p = nodes[a].path;
    let q = nodes[b].path;
    path::lemma_prefix_before(p, q);
    path::lemma_path_asymmetric(p, q);
    assert(a < b) by {
        if b < a {
            assert(path::path_before(nodes[b].path, nodes[a].path));
        }
    }
    let x = nodes[a + 1].path;
    assert(path::path_before(nodes[a].path, nodes[a + 1].path));
    if a + 1 < b {
        assert(path::path_before(nodes[a + 1].path, nodes[b].path));
    }
    path::lemma_between_prefix(p, x, q);
    assert(nodes[a + 1].depth == x.len() && nodes[a].depth == p.len());
}

/// In the outline of a walk, a line is marked as having children exactly when
/// a line stands directly below its directory.
pub proof fn law_children_mark(
    root: ScanRoot,
    settings: ScanSettings,
    es: Seq<EntryModel>,
    nodes: Seq<NodeModel>,
    a: int,
)
    requires
        is_walk(es),
        outline::is_outline(root, settings, es, nodes),
        0 <= a < nodes.len(),
    ensures
        nodes[a].has_children <==> exists|b: int|
            0 <= b < nodes.len() && child_of((#[trigger] nodes[b]).path, nodes[a].path),
{
    law_outline_is_a_tree(root, settings, es, nodes);
    assert(nodes[a].has_children == outline::opens(nodes, a));
    if outline::opens(nodes, a) {
        let b = lemma_opens_has_child(nodes, a);
        assert(child_of(nodes[b].path, nodes[a].path));
    }
    if exists|b: int| 0 <= b < nodes.len() && child_of((#[trigger] nodes[b]).path, nodes[a].path) {
        let b = choose|b: int|
            0 <= b < nodes.len() && child_of((#[trigger] nodes[b]).path, nodes[a].path);
        lemma_child_opens(nodes, a, b);
    }
}

/// The two paths stand directly below the same path.
pub open spec fn siblings(p: Seq<NameModel>, q: Seq<NameModel>) -> bool {
    p.len() > 0 && p.len() == q.len() && p.drop_last() == q.drop_last()
}

proof fn lemma_first_at_depth(nodes: Seq<NodeModel>, a: int, from: int, b: int) -> (k: int)
    requires
        0 <= a < from <= b < nodes.len(),
        nodes[b].depth == nodes[a].depth,
        forall|k: int| a < k <= b ==> (#[trigger] nodes[k]).depth >= nodes[a].depth,
        forall|k: int| a < k < from ==> (#[trigger] nodes[k]).depth > nodes[a].depth,
    ensures
        outline::next_sibling(nodes, a, k),
    decreases b - from,
{
    if nodes[from].depth == nodes[a].depth {
        from
    } else {
        lemma_first_at_depth(nodes, a, from + 1, b)
    }
}

proof fn lemma_next_is_sibling(nodes: Seq<NodeModel>, a: int, b: int)
    requires
        is_tree(nodes),
        0 <= a < nodes.len(),
        outline::next_sibling(nodes, a, b),
    ensures
        siblings(nodes[b].path, nodes[a].path),
{
    let p = nodes[a].path;
    let q = nodes[b].path;
    assert(nodes[b].depth == q.len() && nodes[a].depth == p.len());
    assert(path::path_before(p, q));
    let n = q.len() - 1;
    let c = lemma_line_above(nodes, b, n);
    let y = nodes[c].path;
    assert(nodes[c].depth == y.len());
    assert(c < a) by {
        if a < c {
            assert(nodes[c].depth > nodes[a].depth);
        }
    }
    assert(path::path_before(y, p));
    path::lemma_between_prefix(y, p, q);
    assert(p.take(n) == y);
    assert(p.drop_last() == p.take(n));
    assert(q.drop_last() == q.take(n));
}

proof fn lemma_sibling_is_next(nodes: Seq<NodeModel>, a: int, b: int)
    requires
        is_tree(nodes),
        0 <= a < b < nodes.len(),
        siblings(nodes[b].path, nodes[a].path),
    ensures
        !outline::closes(nodes, a),
{
    let p = nodes[a].path;
    let q = nodes[b].path;
    let y = p.drop_last();
    assert(nodes[b].depth == q.len() && nodes[a].depth == p.len());
    assert(y.is_prefix_of(p));
    assert(y.is_prefix_of(q)) by {
        assert(q.drop_last().is_prefix_of(q));
    }
    path::lemma_prefix_before(y, p);
    assert forall|k: int| a < k <= b implies (#[trigger] nodes[k]).depth >= nodes[a].depth by {
        let x = nodes[k].path;
        assert(nodes[k].depth == x.len());
        assert(path::path_before(nodes[a].path, nodes[k].path));
        path::lemma_path_transitive(y, p, x);
        if k < b {
            assert(path::path_before(nodes[k].path, nodes[b].path));
        }
        path::lemma_between_prefix(y, x, q);
    }
    let k = lemma_first_at_depth(nodes, a, a + 1, b);
    assert(outline::next_sibling(nodes, a, k));
}

/// In the outline of a walk, a line is marked as the last one exactly when no
/// later line stands below the same directory.
pub proof fn law_last_sibling_mark(
    root: ScanRoot,
    settings: ScanSettings,
    es: Seq<EntryModel>,
    nodes: Seq<NodeModel>,
    a: int,
)
    requires
        is_walk(es),
        outline::is_outline(root, settings, es, nodes),
        0 <= a < nodes.len(),
    ensures
        nodes[a].is_last_sibling <==> forall|b: int|
            a < b < nodes.len() ==> !siblings((#[trigger] nodes[b]).path, nodes[a].path),
{
    law_outline_is_a_tree(root, settings, es, nodes);
    assert(nodes[a].is_last_sibling == outline::closes(nodes, a));
    if !outline::closes(nodes, a) {
        let b = choose|b: int| outline::next_sibling(nodes, a, b);
        lemma_next_is_sibling(nodes, a, b);
    }
    if exists|b: int| a < b < nodes.len() && siblings((#[trigger] nodes[b]).path, nodes[a].path) {
        let b = choose|b: int|
            a < b < nodes.len() && siblings((#[trigger] nodes[b]).path, nodes[a].path);
        lemma_sibling_is_next(nodes, a, b);
    }
}

/// A scan judges an entry by no more than what it asks to be read of it: the
/// age of a directory where a least age is set, the size of a file where empty
/// files do not count.
pub proof fn law_probes_are_all_that_matters(
    root: ScanRoot,
    settings: ScanSettings,
    e: EntryModel,
    f: EntryModel,
)
    requires
        e.path == f.path,
        e.kind == f.kind,
        e.kind == EntryKind::Dir && settings.min_age_hours > 0 ==> e.age_secs == f.age_secs,
        e.kind == EntryKind::File && settings.consider_empty_files_empty ==> e.size == f.size,
    ensures
        settings.over_depth(e) == settings.over_depth(f),
        settings.keeps(e) == settings.keeps(f),
        e.kind == EntryKind::Dir ==> settings.protects(root, e) == settings.protects(root, f),
        settings.anchors(root, e) == settings.anchors(root, f),
{
}

/// The text `t` stands in a list.
pub open spec fn lists(v: Seq<String>, t: Seq<char>) -> bool {
    exists|j: int| 0 <= j < v.len() && (#[trigger] v[j])@ == t
}

/// Every text of `less` stands in `more` too.
pub open spec fn lists_all(more: Seq<String>, less: Seq<String>) -> bool {
    forall|i: int| 0 <= i < less.len() ==> lists(more, (#[trigger] less[i])@)
}

/// Each setting of `loose` protects at most what that of `strict` does: it
/// ignores at least the same files, bars at most the same directories, skips
/// directories with a dot only where `strict` does, asks for no greater age
/// and looks at least as deep.
pub open spec fn is_looser(strict: ScanSettings, loose: ScanSettings) -> bool {
    &&& lists_all(loose.ignore_files@, strict.ignore_files@)
    &&& strict.consider_empty_files_empty ==> loose.consider_empty_files_empty
    &&& lists_all(strict.ignore_dirs@, loose.ignore_dirs@)
    &&& loose.ignore_hidden || loose.keep_system ==> strict.ignore_hidden || strict.keep_system
    &&& loose.min_age_hours <= strict.min_age_hours
    &&& loose.max_depth < 0 || 0 <= strict.max_depth <= loose.max_depth
}

/// What keeps a directory from being empty under looser settings does so under
/// the stricter ones.
proof fn lemma_looser_entry(root: ScanRoot, strict: ScanSettings, loose: ScanSettings, e: EntryModel)
    requires
        is_looser(strict, loose),
    ensures
        loose.over_depth(e) ==> strict.over_depth(e),
        loose.protects(root, e) ==> strict.protects(root, e),
        loose.anchors(root, e) ==> strict.anchors(root, e),
{
    let name = e.path.last().text;
    if wild::any_matches(strict.ignore_files@, name) {
        let i = choose|i: int|
            0 <= i < strict.ignore_files@.len() && #[trigger] wild::wild_matches(
                strict.ignore_files@[i]@,
                name,
            );
        assert(lists(loose.ignore_files@, strict.ignore_files@[i]@));
        let j = choose|j: int|
            0 <= j < loose.ignore_files@.len() && (#[trigger] loose.ignore_files@[j])@
                == strict.ignore_files@[i]@;
        assert(wild::wild_matches(loose.ignore_files@[j]@, name));
    }
    let shown = root.text_of(e.path);
    if loose.off_limits(shown) {
        let i = choose|i: int|
            0 <= i < loose.ignore_dirs@.len() && #[trigger] text::contains_text(
                entry::folded(shown),
                entry::folded(loose.ignore_dirs@[i]@),
            );
        assert(lists(strict.ignore_dirs@, loose.ignore_dirs@[i]@));
        let j = choose|j: int|
            0 <= j < strict.ignore_dirs@.len() && (#[trigger] strict.ignore_dirs@[j])@
                == loose.ignore_dirs@[i]@;
        assert(text::contains_text(
            entry::folded(shown),
            entry::folded(strict.ignore_dirs@[j]@),
        ));
    }
}

/// A path of `n` names lies deeper than the scan looks.
spec fn too_deep(settings: ScanSettings, n: nat) -> bool {
    settings.max_depth >= 0 && (n as i32) > settings.max_depth
}

/// The first number from `from` up to `to` that is too deep, or `to`.
proof fn lemma_first_too_deep(settings: ScanSettings, from: nat, to: nat) -> (k: nat)
    requires
        from <= to,
    ensures
        from <= k <= to,
        k < to ==> too_deep(settings, k),
        forall|m: nat| from <= m < k ==> !#[trigger] too_deep(settings, m),
    decreases to - from,
{
    if from == to || too_deep(settings, from) {
        from
    } else {
        lemma_first_too_deep(settings, from + 1, to)
    }
}

/// Loosening settings never takes a directory off the report.
pub proof fn law_looser_settings_report_no_less(
    root: ScanRoot,
    strict: ScanSettings,
    loose: ScanSettings,
    es: Seq<EntryModel>,
    p: Seq<NameModel>,
)
    requires
        is_looser(strict, loose),
        emptiness::found(root, strict, es, p),
    ensures
        emptiness::found(root, loose, es, p),
{
    let i = choose|i: int| #[trigger]
        emptiness::vacant(root, strict, es, i) && es[i].path == p;
    lemma_looser_entry(root, strict, loose, es[i]);
    if emptiness::held(root, loose, es, p) {
        let x = choose|x: int| emptiness::held_by(root, loose, es, p, x);
        let whole = es[x].path;
        lemma_looser_entry(root, strict, loose, es[x]);
        let k = lemma_first_too_deep(strict, p.len() + 1, whole.len());
        let y = if k < whole.len() {
            assert(emptiness::has_dir(loose, es, whole.take(k as int)));
            choose|y: int|
                0 <= y < es.len() && (#[trigger] es[y]).kind == EntryKind::Dir && es[y].path
                    == whole.take(k as int) && !loose.over_depth(es[y])
        } else {
            x
        };
        let top = es[y].path;
        assert(top == whole.take(k as int));
        assert(top.take(p.len() as int) == whole.take(p.len() as int));
        assert forall|m: int| p.len() < m < top.len() implies emptiness::has_dir(
            strict,
            es,
            #[trigger] top.take(m),
        ) by {
            assert(top.take(m) == whole.take(m));
            assert(emptiness::has_dir(loose, es, whole.take(m)));
            let d = choose|d: int|
                0 <= d < es.len() && (#[trigger] es[d]).kind == EntryKind::Dir && es[d].path
                    == whole.take(m) && !loose.over_depth(es[d]);
            assert(!too_deep(strict, m as nat));
            assert(!strict.over_depth(es[d]));
        }
        assert(emptiness::held_by(root, strict, es, p, y));
    }
    assert forall|j: int|
        0 <= j <= i && (#[trigger] es[j]).kind == EntryKind::Dir && es[j].path
            == es[i].path implies !loose.protects(root, es[j]) by {
        lemma_looser_entry(root, strict, loose, es[j]);
    }
    assert(emptiness::vacant(root, loose, es, i));
}

/// Ignoring more files never takes a directory off the report.
pub proof fn law_ignoring_more_files_reports_no_less(
    root: ScanRoot,
    less: ScanSettings,
    more: ScanSettings,
    es: Seq<EntryModel>,
    p: Seq<NameModel>,
)
    requires
        lists_all(more.ignore_files@, less.ignore_files@),
        less.consider_empty_files_empty ==> more.consider_empty_files_empty,
        less.ignore_dirs@ == more.ignore_dirs@,
        less.ignore_hidden == more.ignore_hidden,
        less.keep_system == more.keep_system,
        less.min_age_hours == more.min_age_hours,
        less.max_depth == more.max_depth,
        emptiness::found(root, less, es, p),
    ensures
        emptiness::found(root, more, es, p),
{
    law_looser_settings_report_no_less(root, less, more, es, p);
}

/// An outline marks the directory at `p` as empty.
pub open spec fn reported(nodes: Seq<NodeModel>, p: Seq<NameModel>) -> bool {
    exists|a: int| 0 <= a < nodes.len() && (#[trigger] nodes[a]).path == p && nodes[a].status == 1
}

proof fn lemma_reported(
    root: ScanRoot,
    settings: ScanSettings,
    es: Seq<EntryModel>,
    nodes: Seq<NodeModel>,
    p: Seq<NameModel>,
)
    requires
        outline::is_outline(root, settings, es, nodes),
    ensures
        reported(nodes, p) <==> emptiness::found(root, settings, es, p),
{
    if emptiness::found(root, settings, es, p) {
        assert(p.is_prefix_of(p));
        assert(outline::listed(nodes, p));
        let a = choose|a: int| 0 <= a < nodes.len() && (#[trigger] nodes[a]).path == p;
        assert(nodes[a].status == 1);
    }
}

/// What settings say of an entry, in terms of what the entry is.
proof fn lemma_in_plain_terms(root: ScanRoot, settings: ScanSettings, e: EntryModel)
    requires
        e.path.len() <= i32::MAX,
    ensures
        settings.over_depth(e) <==> settings.max_depth >= 0 && e.path.len() > settings.max_depth,
        settings.keeps(e) <==> {
            &&& e.kind == EntryKind::File
            &&& e.path.len() > 0
            &&& !settings.consider_empty_files_empty || e.size != Some(0u64)
            &&& forall|j: int|
                0 <= j < settings.ignore_files@.len() ==> !wild::wild_matches(
                    (#[trigger] settings.ignore_files@[j])@,
                    e.path.last().text,
                )
        },
        settings.protects(root, e) <==> {
            ||| exists|j: int|
                0 <= j < settings.ignore_dirs@.len() && text::contains_text(
                    text::lowercase(text::slashed(root.text_of(e.path))),
                    text::lowercase(text::slashed((#[trigger] settings.ignore_dirs@[j])@)),
                )
            ||| (settings.ignore_hidden || settings.keep_system) && e.path.len() > 0
                && e.path.last().text.len() > 0 && e.path.last().text[0] == '.'
            ||| settings.min_age_hours > 0 && e.age_secs is Some && e.age_secs->0
                < settings.min_age_hours * 3600
        },
{
    let name = e.path.last().text;
    if wild::any_matches(settings.ignore_files@, name) {
        let j = choose|j: int|
            0 <= j < settings.ignore_files@.len() && #[trigger] wild::wild_matches(
                settings.ignore_files@[j]@,
                name,
            );
        assert(wild::wild_matches((settings.ignore_files@[j])@, name));
    }
    let shown = entry::folded(root.text_of(e.path));
    if settings.off_limits(root.text_of(e.path)) {
        let j = choose|j: int|
            0 <= j < settings.ignore_dirs@.len() && #[trigger] text::contains_text(
                shown,
                entry::folded(settings.ignore_dirs@[j]@),
            );
        assert(text::contains_text(shown, text::lowercase(text::slashed((settings.ignore_dirs@[j])@))));
    }
    if exists|j: int|
        0 <= j < settings.ignore_dirs@.len() && text::contains_text(
            text::lowercase(text::slashed(root.text_of(e.path))),
            text::lowercase(text::slashed((#[trigger] settings.ignore_dirs@[j])@)),
        ) {
        let j = choose|j: int|
            0 <= j < settings.ignore_dirs@.len() && text::contains_text(
                text::lowercase(text::slashed(root.text_of(e.path))),
                text::lowercase(text::slashed((#[trigger] settings.ignore_dirs@[j])@)),
            );
        assert(text::contains_text(shown, entry::folded(settings.ignore_dirs@[j]@)));
    }
}

/// What is reported, in terms of the walk alone. A directory is marked as
/// empty exactly when it lies within the depth, no barred text stands in its
/// path, its name does not begin with a dot where such names are skipped, it
/// is as old as it has to be, and below it, however deep, there is nothing
/// too deep, no file but those of 0 bytes or with an ignored name that do not
/// count, and no directory that is barred, skipped or too young.
pub proof fn law_what_is_reported(
    root: ScanRoot,
    settings: ScanSettings,
    es: Seq<EntryModel>,
    nodes: Seq<NodeModel>,
    i: int,
)
    requires
        is_walk(es),
        outline::is_outline(root, settings, es, nodes),
        0 <= i < es.len(),
        es[i].kind == EntryKind::Dir,
        es[i].path.len() > 0,
    ensures
        reported(nodes, es[i].path) <==> forall|x: int|
            0 <= x < es.len() && ((#[trigger] es[x]).path == es[i].path || below(
                es[x].path,
                es[i].path,
            )) ==> {
                &&& settings.max_depth < 0 || es[x].path.len() <= settings.max_depth
                &&& es[x].kind == EntryKind::File ==> {
                    ||| settings.consider_empty_files_empty && es[x].size == Some(0u64)
                    ||| exists|j: int|
                        0 <= j < settings.ignore_files@.len() && wild::wild_matches(
                            (#[trigger] settings.ignore_files@[j])@,
                            es[x].path.last().text,
                        )
                }
                &&& es[x].kind == EntryKind::Dir ==> {
                    &&& forall|j: int|
                        0 <= j < settings.ignore_dirs@.len() ==> !text::contains_text(
                            text::lowercase(text::slashed(root.text_of(es[x].path))),
                            text::lowercase(text::slashed((#[trigger] settings.ignore_dirs@[j])@)),
                        )
                    &&& !settings.ignore_hidden && !settings.keep_system
                        || es[x].path.last().text.len() == 0 || es[x].path.last().text[0] != '.'
                    &&& settings.min_age_hours == 0 || es[x].age_secs is None || es[x].age_secs->0
                        >= settings.min_age_hours * 3600
                }
            },
{
    lemma_reported(root, settings, es, nodes, es[i].path);
    assert forall|x: int| 0 <= x < es.len() && (#[trigger] es[x]).path == es[i].path implies x == i by {
        if x < i {
            assert(es[x].path != es[i].path);
        } else if i < x {
            assert(es[i].path != es[x].path);
        }
    }
    assert forall|x: int| 0 <= x < es.len() implies (#[trigger] es[x]).path.len() <= i32::MAX by {}
    lemma_in_plain_terms(root, settings, es[i]);
    if settings.over_depth(es[i]) {
        if emptiness::found(root, settings, es, es[i].path) {
            law_only_walked_directories_are_reported(root, settings, es, es[i].path);
        }
    } else {
        law_empty_when_nothing_below_counts(root, settings, es, i);
        assert forall|x: int| 0 <= x < es.len() && below((#[trigger] es[x]).path, es[i].path) implies {
            &&& settings.anchors(root, es[x]) == (settings.over_depth(es[x]) || settings.keeps(es[x])
                || es[x].kind == EntryKind::Dir && settings.protects(root, es[x]))
            &&& settings.over_depth(es[x]) <==> settings.max_depth >= 0 && es[x].path.len()
                > settings.max_depth
        } by {
            lemma_in_plain_terms(root, settings, es[x]);
        }
        if emptiness::found(root, settings, es, es[i].path) {
            assert forall|x: int| 0 <= x < es.len() && below((#[trigger] es[x]).path, es[i].path) implies {
                &&& settings.max_depth < 0 || es[x].path.len() <= settings.max_depth
                &&& es[x].kind == EntryKind::File ==> {
                    ||| settings.consider_empty_files_empty && es[x].size == Some(0u64)
                    ||| exists|j: int|
                        0 <= j < settings.ignore_files@.len() && wild::wild_matches(
                            (#[trigger] settings.ignore_files@[j])@,
                            es[x].path.last().text,
                        )
                }
            } by {
                lemma_in_plain_terms(root, settings, es[x]);
            }
            assert forall|x: int|
                0 <= x < es.len() && below((#[trigger] es[x]).path, es[i].path) && es[x].kind
                    == EntryKind::Dir implies !settings.protects(root, es[x]) by {}
            assert forall|x: int|
                0 <= x < es.len() && ((#[trigger] es[x]).path == es[i].path || below(
                    es[x].path,
                    es[i].path,
                )) && es[x].kind == EntryKind::Dir implies {
                &&& forall|j: int|
                    0 <= j < settings.ignore_dirs@.len() ==> !text::contains_text(
                        text::lowercase(text::slashed(root.text_of(es[x].path))),
                        text::lowercase(text::slashed((#[trigger] settings.ignore_dirs@[j])@)),
                    )
                &&& !settings.ignore_hidden && !settings.keep_system || es[x].path.last().text.len()
                    == 0 || es[x].path.last().text[0] != '.'
                &&& settings.min_age_hours == 0 || es[x].age_secs is None || es[x].age_secs->0
                    >= settings.min_age_hours * 3600
            } by {
                lemma_in_plain_terms(root, settings, es[x]);
            }
        } else if !settings.protects(root, es[i]) {
            let x = choose|x: int|
                0 <= x < es.len() && below((#[trigger] es[x]).path, es[i].path)
                    && settings.anchors(root, es[x]);
            lemma_in_plain_terms(root, settings, es[x]);
        }
    }
}

/// Only directories of the walk below its root are reported.
pub proof fn law_reported_directories_were_walked(
    root: ScanRoot,
    settings: ScanSettings,
    es: Seq<EntryModel>,
    nodes: Seq<NodeModel>,
    p: Seq<NameModel>,
)
    requires
        outline::is_outline(root, settings, es, nodes),
        reported(nodes, p),
    ensures
        p.len() > 0,
        exists|i: int| 0 <= i < es.len() && (#[trigger] es[i]).kind == EntryKind::Dir && es[i].path == p,
{
    lemma_reported(root, settings, es, nodes, p);
    let i = choose|i: int| #[trigger]
        emptiness::vacant(root, settings, es, i) && es[i].path == p;
    assert(es[i].kind == EntryKind::Dir);
}

/// A file with content whose name no pattern matches keeps every directory
/// above it off the report, whatever it is called and whatever else is set.
pub proof fn law_file_that_counts_keeps_what_is_above(
    root: ScanRoot,
    settings: ScanSettings,
    es: Seq<EntryModel>,
    nodes: Seq<NodeModel>,
    x: int,
    p: Seq<NameModel>,
)
    requires
        is_walk(es),
        outline::is_outline(root, settings, es, nodes),
        0 <= x < es.len(),
        es[x].kind == EntryKind::File,
        es[x].path.len() > 0,
        es[x].size != Some(0u64) || !settings.consider_empty_files_empty,
        forall|j: int|
            0 <= j < settings.ignore_files@.len() ==> !wild::wild_matches(
                (#[trigger] settings.ignore_files@[j])@,
                es[x].path.last().text,
            ),
        below(es[x].path, p),
    ensures
        !emptiness::found(root, settings, es, p),
        forall|a: int|
            0 <= a < nodes.len() && (#[trigger] nodes[a]).path == p ==> nodes[a].status == 0,
{
    lemma_in_plain_terms(root, settings, es[x]);
    law_content_keeps_what_is_above(root, settings, es, x, p);
}

/// A directory whose name begins with a dot, where such names are skipped,
/// stays off the report with every directory above it.
pub proof fn law_dotted_directory_stays(
    root: ScanRoot,
    settings: ScanSettings,
    es: Seq<EntryModel>,
    nodes: Seq<NodeModel>,
    x: int,
    p: Seq<NameModel>,
)
    requires
        is_walk(es),
        outline::is_outline(root, settings, es, nodes),
        settings.ignore_hidden || settings.keep_system,
        0 <= x < es.len(),
        es[x].kind == EntryKind::Dir,
        es[x].path.len() > 0,
        es[x].path.last().text.len() > 0,
        es[x].path.last().text[0] == '.',
        p.is_prefix_of(es[x].path),
    ensures
        !reported(nodes, p),
{
    lemma_in_plain_terms(root, settings, es[x]);
    lemma_protected_stays(root, settings, es, nodes, x, p);
}

/// A directory in whose path a barred text stands, slashes and case aside,
/// stays off the report with every directory above it.
pub proof fn law_barred_directory_stays(
    root: ScanRoot,
    settings: ScanSettings,
    es: Seq<EntryModel>,
    nodes: Seq<NodeModel>,
    x: int,
    j: int,
    p: Seq<NameModel>,
)
    requires
        is_walk(es),
        outline::is_outline(root, settings, es, nodes),
        0 <= x < es.len(),
        es[x].kind == EntryKind::Dir,
        0 <= j < settings.ignore_dirs@.len(),
        text::contains_text(
            text::lowercase(text::slashed(root.text_of(es[x].path))),
            text::lowercase(text::slashed(settings.ignore_dirs@[j]@)),
        ),
        p.is_prefix_of(es[x].path),
    ensures
        !reported(nodes, p),
{
    lemma_in_plain_terms(root, settings, es[x]);
    assert(text::contains_text(
        text::lowercase(text::slashed(root.text_of(es[x].path))),
        text::lowercase(text::slashed((settings.ignore_dirs@[j])@)),
    ));
    lemma_protected_stays(root, settings, es, nodes, x, p);
}

/// A directory younger than the least age stays off the report with every
/// directory above it.
pub proof fn law_young_directory_stays(
    root: ScanRoot,
    settings: ScanSettings,
    es: Seq<EntryModel>,
    nodes: Seq<NodeModel>,
    x: int,
    secs: u64,
    p: Seq<NameModel>,
)
    requires
        is_walk(es),
        outline::is_outline(root, settings, es, nodes),
        0 <= x < es.len(),
        es[x].kind == EntryKind::Dir,
        es[x].age_secs == Some(secs),
        secs < settings.min_age_hours * 3600,
        p.is_prefix_of(es[x].path),
    ensures
        !reported(nodes, p),
{
    lemma_in_plain_terms(root, settings, es[x]);
    lemma_protected_stays(root, settings, es, nodes, x, p);
}

proof fn lemma_protected_stays(
    root: ScanRoot,
    settings: ScanSettings,
    es: Seq<EntryModel>,
    nodes: Seq<NodeModel>,
    x: int,
    p: Seq<NameModel>,
)
    requires
        is_walk(es),
        outline::is_outline(root, settings, es, nodes),
        0 <= x < es.len(),
        es[x].kind == EntryKind::Dir,
        settings.protects(root, es[x]),
        p.is_prefix_of(es[x].path),
    ensures
        !reported(nodes, p),
{
    lemma_reported(root, settings, es, nodes, p);
    if p.len() < es[x].path.len() {
        law_content_keeps_what_is_above(root, settings, es, x, p);
    } else {
        assert(p == es[x].path);
        law_protected_directory_stays(root, settings, es, x);
    }
}

/// Whatever lies deeper than the scan looks is not reported, and keeps every
/// directory above it off the report.
pub proof fn law_what_is_too_deep_stays(
    root: ScanRoot,
    settings: ScanSettings,
    es: Seq<EntryModel>,
    nodes: Seq<NodeModel>,
    x: int,
    p: Seq<NameModel>,
)
    requires
        is_walk(es),
        outline::is_outline(root, settings, es, nodes),
        0 <= settings.max_depth,
        0 <= x < es.len(),
        es[x].path.len() > settings.max_depth,
        p.is_prefix_of(es[x].path),
    ensures
        !reported(nodes, p),
{
    lemma_reported(root, settings, es, nodes, p);
    lemma_in_plain_terms(root, settings, es[x]);
    if p.len() < es[x].path.len() {
        law_content_keeps_what_is_above(root, settings, es, x, p);
    } else {
        assert(p == es[x].path);
        if emptiness::found(root, settings, es, p) {
            law_only_walked_directories_are_reported(root, settings, es, p);
            let i = choose|i: int|
                0 <= i < es.len() && (#[trigger] es[i]).kind == EntryKind::Dir && es[i].path == p
                    && !settings.over_depth(es[i]);
            lemma_in_plain_terms(root, settings, es[i]);
        }
    }
}

/// An age at or over the threshold never keeps a directory back: one that no
/// barred text and no dot keeps back is not protected.
pub proof fn law_old_directory_is_not_kept_back(
    root: ScanRoot,
    settings: ScanSettings,
    e: EntryModel,
)
    requires
        e.path.len() <= i32::MAX,
        e.age_secs is None || e.age_secs->0 >= settings.min_age_hours * 3600,
        forall|j: int|
            0 <= j < settings.ignore_dirs@.len() ==> !text::contains_text(
                text::lowercase(text::slashed(root.text_of(e.path))),
                text::lowercase(text::slashed((#[trigger] settings.ignore_dirs@[j])@)),
            ),
        !settings.ignore_hidden && !settings.keep_system || e.path.len() == 0
            || e.path.last().text.len() == 0 || e.path.last().text[0] != '.',
    ensures
        !settings.protects(root, e),
        !settings.young(e),
{
    lemma_in_plain_terms(root, settings, e);
}

/// Growing older never takes a directory off the report.
pub proof fn law_growing_older_reports_no_less(
    root: ScanRoot,
    settings: ScanSettings,
    es: Seq<EntryModel>,
    later: Seq<EntryModel>,
    x: Seq<NodeModel>,
    y: Seq<NodeModel>,
    p: Seq<NameModel>,
)
    requires
        is_walk(es),
        later.len() == es.len(),
        forall|i: int|
            0 <= i < es.len() ==> {
                &&& (#[trigger] later[i]).path == (#[trigger] es[i]).path
                &&& later[i].kind == es[i].kind
                &&& later[i].size == es[i].size
                &&& later[i].age_secs is Some ==> es[i].age_secs is Some && later[i].age_secs->0
                    >= es[i].age_secs->0
            },
        outline::is_outline(root, settings, es, x),
        outline::is_outline(root, settings, later, y),
        reported(x, p),
    ensures
        reported(y, p),
{
    lemma_reported(root, settings, es, x, p);
    lemma_reported(root, settings, later, y, p);
    assert forall|q: Seq<NameModel>| dir_at(es, q) implies #[trigger] dir_at(later, q) by {
        let j = choose|j: int|
            0 <= j < es.len() && (#[trigger] es[j]).kind == EntryKind::Dir && es[j].path == q;
        assert(later[j].kind == EntryKind::Dir && later[j].path == q);
    }
    assert(is_walk(later)) by {
        assert forall|i: int, j: int| 0 <= i < j < later.len() implies (#[trigger] later[i]).path != (
        #[trigger] later[j]).path by {
            assert(es[i].path != es[j].path);
        }
        assert forall|i: int| 0 <= i < later.len() implies (#[trigger] later[i]).path.len()
            <= i32::MAX by {
            assert(es[i].path.len() <= i32::MAX);
        }
        assert forall|i: int| 0 <= i < later.len() && (#[trigger] later[i]).path.len() > 0 implies dir_at(
            later,
            later[i].path.drop_last(),
        ) by {
            assert(es[i].path.len() > 0);
            assert(dir_at(es, es[i].path.drop_last()));
        }
    }
    let i = choose|i: int| #[trigger]
        emptiness::vacant(root, settings, es, i) && es[i].path == p;
    law_empty_when_nothing_below_counts(root, settings, es, i);
    assert(later[i].path == es[i].path);
    lemma_in_plain_terms(root, settings, es[i]);
    lemma_in_plain_terms(root, settings, later[i]);
    assert forall|z: int| 0 <= z < later.len() && below((#[trigger] later[z]).path, later[i].path) implies
        !settings.anchors(root, later[z]) by {
        assert(below(es[z].path, es[i].path));
        assert(!settings.anchors(root, es[z]));
        lemma_in_plain_terms(root, settings, es[z]);
        lemma_in_plain_terms(root, settings, later[z]);
    }
    law_empty_when_nothing_below_counts(root, settings, later, i);
}

/// Finding more on disk never adds a directory that was there before to the
/// report.
pub proof fn law_more_on_disk_reports_no_more(
    root: ScanRoot,
    settings: ScanSettings,
    es: Seq<EntryModel>,
    more: Seq<EntryModel>,
    x: Seq<NodeModel>,
    y: Seq<NodeModel>,
    i: int,
)
    requires
        is_walk(es),
        is_walk(more),
        forall|e: EntryModel| es.contains(e) ==> #[trigger] more.contains(e),
        outline::is_outline(root, settings, es, x),
        outline::is_outline(root, settings, more, y),
        0 <= i < es.len(),
        es[i].kind == EntryKind::Dir,
        reported(y, es[i].path),
    ensures
        reported(x, es[i].path),
{
    let p = es[i].path;
    lemma_reported(root, settings, es, x, p);
    lemma_reported(root, settings, more, y, p);
    let j = choose|j: int| #[trigger]
        emptiness::vacant(root, settings, more, j) && more[j].path == p;
    law_empty_when_nothing_below_counts(root, settings, more, j);
    assert(es.contains(es[i]));
    assert(more.contains(es[i]));
    let k = choose|k: int| 0 <= k < more.len() && more[k] == es[i];
    if k < j {
        assert(more[k].path != more[j].path);
    } else if j < k {
        assert(more[j].path != more[k].path);
    }
    assert forall|z: int| 0 <= z < es.len() && below((#[trigger] es[z]).path, p) implies
        !settings.anchors(root, es[z]) by {
        assert(es.contains(es[z]));
        assert(more.contains(es[z]));
        let w = choose|w: int| 0 <= w < more.len() && more[w] == es[z];
        assert(!settings.anchors(root, more[w]));
    }
    law_empty_when_nothing_below_counts(root, settings, es, i);
}

/// What does not count changes nothing: links and other things, and files of
/// 0 bytes or with an ignored name where those do not count, may come and go
/// within the depth, and the report stays the same.
pub proof fn law_what_does_not_count_changes_nothing(
    root: ScanRoot,
    settings: ScanSettings,
    es: Seq<EntryModel>,
    more: Seq<EntryModel>,
    x: Seq<NodeModel>,
    y: Seq<NodeModel>,
    p: Seq<NameModel>,
)
    requires
        is_walk(es),
        is_walk(more),
        forall|e: EntryModel| es.contains(e) ==> #[trigger] more.contains(e),
        forall|e: EntryModel| #[trigger]
            more.contains(e) && !es.contains(e) ==> {
                &&& settings.max_depth < 0 || e.path.len() <= settings.max_depth
                &&& {
                    ||| e.kind == EntryKind::Other
                    ||| e.kind == EntryKind::File && settings.consider_empty_files_empty && e.size
                        == Some(0u64)
                    ||| e.kind == EntryKind::File && exists|j: int|
                        0 <= j < settings.ignore_files@.len() && wild::wild_matches(
                            (#[trigger] settings.ignore_files@[j])@,
                            e.path.last().text,
                        )
                }
            },
        outline::is_outline(root, settings, es, x),
        outline::is_outline(root, settings, more, y),
    ensures
        reported(x, p) <==> reported(y, p),
{
    lemma_reported(root, settings, es, x, p);
    lemma_reported(root, settings, more, y, p);
    if reported(y, p) {
        law_reported_directories_were_walked(root, settings, more, y, p);
        let k = choose|k: int|
            0 <= k < more.len() && (#[trigger] more[k]).kind == EntryKind::Dir && more[k].path == p;
        assert(more.contains(more[k]));
        assert(es.contains(more[k]));
        let i = choose|i: int| 0 <= i < es.len() && es[i] == more[k];
        law_more_on_disk_reports_no_more(root, settings, es, more, x, y, i);
    }
    if reported(x, p) {
        let i = choose|i: int| #[trigger]
            emptiness::vacant(root, settings, es, i) && es[i].path == p;
        law_empty_when_nothing_below_counts(root, settings, es, i);
        assert(es.contains(es[i]));
        assert(more.contains(es[i]));
        let k = choose|k: int| 0 <= k < more.len() && more[k] == es[i];
        assert forall|z: int| 0 <= z < more.len() && below((#[trigger] more[z]).path, p) implies
            !settings.anchors(root, more[z]) by {
            assert(more.contains(more[z]));
            if es.contains(more[z]) {
                let w = choose|w: int| 0 <= w < es.len() && es[w] == more[z];
                assert(!settings.anchors(root, es[w]));
            } else {
                lemma_in_plain_terms(root, settings, more[z]);
            }
        }
        law_empty_when_nothing_below_counts(root, settings, more, k);
    }
}

/// A line tells of its directory: the root by its whole text and any other by
/// its last name, at the depth of its path, marked 1 where the directory is
/// empty and 0 where it only leads to one that is, and opened up.
pub proof fn law_line_tells_of_its_directory(
    root: ScanRoot,
    settings: ScanSettings,
    es: Seq<EntryModel>,
    nodes: Seq<NodeModel>,
    a: int,
)
    requires
        is_walk(es),
        outline::is_outline(root, settings, es, nodes),
        0 <= a < nodes.len(),
    ensures
        nodes[a].depth == nodes[a].path.len(),
        nodes[a].path.len() == 0 ==> nodes[a].name == root.text@,
        nodes[a].path.len() > 0 ==> nodes[a].name == nodes[a].path.last().text,
        nodes[a].is_expanded,
        emptiness::found(root, settings, es, nodes[a].path) ==> nodes[a].status == 1,
        !emptiness::found(root, settings, es, nodes[a].path) ==> nodes[a].status == 0,
{
    law_outline_is_a_tree(root, settings, es, nodes);
}

/// The lines of an outline are the reported directories and those above them,
/// each once, in the order of their paths.
pub proof fn law_lines_lead_to_what_is_reported(
    root: ScanRoot,
    settings: ScanSettings,
    es: Seq<EntryModel>,
    nodes: Seq<NodeModel>,
    a: int,
    b: int,
    p: Seq<NameModel>,
)
    requires
        outline::is_outline(root, settings, es, nodes),
    ensures
        0 <= a < b < nodes.len() ==> path::path_before(nodes[a].path, nodes[b].path),
        (exists|c: int| 0 <= c < nodes.len() && (#[trigger] nodes[c]).path == p) <==> (exists|
            d: int,
        |
            0 <= d < nodes.len() && (#[trigger] nodes[d]).status == 1 && p.is_prefix_of(
                nodes[d].path,
            )),
{
    if outline::listed(nodes, p) {
        let q = choose|q: Seq<NameModel>| #[trigger]
            emptiness::found(root, settings, es, q) && p.is_prefix_of(q);
        lemma_reported(root, settings, es, nodes, q);
        let d = choose|d: int|
            0 <= d < nodes.len() && (#[trigger] nodes[d]).path == q && nodes[d].status == 1;
        assert(nodes[d].status == 1 && p.is_prefix_of(nodes[d].path));
    }
    if exists|d: int|
        0 <= d < nodes.len() && (#[trigger] nodes[d]).status == 1 && p.is_prefix_of(nodes[d].path) {
        let d = choose|d: int|
            0 <= d < nodes.len() && (#[trigger] nodes[d]).status == 1 && p.is_prefix_of(
                nodes[d].path,
            );
        assert(reported(nodes, nodes[d].path));
        lemma_reported(root, settings, es, nodes, nodes[d].path);
        assert(outline::listed(nodes, p));
    }
}

/// Where a directory was found more than once, the first find decides: it is
/// reported exactly when that find is not protected and nothing that stands
/// directly in the directory lies too deep, counts, is protected, or is a
/// directory that something holds in turn.
pub proof fn law_first_find_decides(
    root: ScanRoot,
    settings: ScanSettings,
    es: Seq<EntryModel>,
    i: int,
)
    requires
        0 <= i < es.len(),
        es[i].kind == EntryKind::Dir,
        es[i].path.len() > 0,
        !settings.over_depth(es[i]),
        forall|j: int|
            0 <= j < i && (#[trigger] es[j]).kind == EntryKind::Dir ==> es[j].path != es[i].path,
    ensures
        emptiness::found(root, settings, es, es[i].path) <==> {
            &&& !settings.protects(root, es[i])
            &&& forall|c: int|
                0 <= c < es.len() && child_of((#[trigger] es[c]).path, es[i].path) ==> {
                    &&& !settings.over_depth(es[c])
                    &&& !settings.keeps(es[c])
                    &&& es[c].kind == EntryKind::Dir ==> !settings.protects(root, es[c])
                        && !emptiness::held(root, settings, es, es[c].path)
                }
        },
{
    let p = es[i].path;
    emptiness::lemma_held_by_child(root, settings, es, p);
    if emptiness::found(root, settings, es, p) {
        let j = choose|j: int| #[trigger]
            emptiness::vacant(root, settings, es, j) && es[j].path == p;
        assert(es[j].kind == EntryKind::Dir);
        assert(i <= j);
        assert(!settings.protects(root, es[i]));
        assert forall|c: int| 0 <= c < es.len() && child_of((#[trigger] es[c]).path, p) implies
            !emptiness::blocks(root, settings, es, c) by {
            assert(emptiness::stands_in(es, c, p));
        }
    } else if !settings.protects(root, es[i]) {
        assert(emptiness::held(root, settings, es, p)) by {
            if !emptiness::held(root, settings, es, p) {
                assert(emptiness::vacant(root, settings, es, i));
            }
        }
        let c = choose|c: int| #[trigger]
            emptiness::stands_in(es, c, p) && emptiness::blocks(root, settings, es, c);
        assert(child_of(es[c].path, p));
    }
}

/// What is read of an entry is enough to judge it: two entries that agree in
/// that are judged alike.
pub proof fn law_probes_are_enough(
    root: ScanRoot,
    settings: ScanSettings,
    e: EntryModel,
    f: EntryModel,
)
    requires
        e.path == f.path,
        e.kind == f.kind,
        entry::probe_of(settings, e.kind) == Probe::Age ==> e.age_secs == f.age_secs,
        entry::probe_of(settings, e.kind) == Probe::Size ==> e.size == f.size,
    ensures
        settings.over_depth(e) == settings.over_depth(f),
        settings.keeps(e) == settings.keeps(f),
        e.kind == EntryKind::Dir ==> settings.protects(root, e) == settings.protects(root, f),
        settings.anchors(root, e) == settings.anchors(root, f),
{
    law_probes_are_all_that_matters(root, settings, e, f);
}

/// No more is read than has to be: an age only of directories and where a
/// least age is set, a size only of files and where those of 0 bytes do not
/// count.
pub proof fn law_probes_ask_for_no_more(settings: ScanSettings, kind: EntryKind)
    ensures
        entry::probe_of(settings, kind) == Probe::Age <==> kind == EntryKind::Dir
            && settings.min_age_hours != 0,
        entry::probe_of(settings, kind) == Probe::Size <==> kind == EntryKind::File
            && settings.consider_empty_files_empty,
{
}

} // verus!
