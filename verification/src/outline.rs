//! The outline of a scan: the empty directories and those above them, as a
//! tree that is written down line by line.
use vstd::prelude::*;
use crate::emptiness;
use crate::emptiness::{order_by_path, vacancies};
use crate::entry;
use crate::entry::{Entry, EntryModel};
use crate::path;
use crate::path::{NameModel, ScanRoot, TreePath};
use crate::settings::ScanSettings;

verus! {

/// The status of a directory that is shown but not to be deleted.
pub const SHOWN: i32 = 0;

/// The status of a directory that was found to be empty.
pub const EMPTY: i32 = 1;

/// The status of a directory that was deleted.
pub const DELETED: i32 = 2;

/// The status of a directory that could not be deleted.
pub const FAILED: i32 = 4;

/// One line of an outline.
#[derive(Clone, Debug)]
pub struct DirectoryNode {
    pub path: TreePath,
    pub name: String,
    pub depth: i32,
    pub status: i32,
    pub has_children: bool,
    pub is_expanded: bool,
    pub is_last_sibling: bool,
}

/// A line of an outline, with its path as names and its name as characters.
pub struct NodeModel {
    pub path: Seq<NameModel>,
    pub name: Seq<char>,
    pub depth: i32,
    pub status: i32,
    pub has_children: bool,
    pub is_expanded: bool,
    pub is_last_sibling: bool,
}

impl View for DirectoryNode {
    type V = NodeModel;

    open spec fn view(&self) -> NodeModel {
        NodeModel {
            path: self.path@,
            name: self.name@,
            depth: self.depth,
            status: self.status,
            has_children: self.has_children,
            is_expanded: self.is_expanded,
            is_last_sibling: self.is_last_sibling,
        }
    }
}

/// The views of a list of lines.
pub open spec fn lines(v: Seq<DirectoryNode>) -> Seq<NodeModel> {
    v.map_values(|n: DirectoryNode| n@)
}

/// The line after line `a` lies deeper.
pub open spec fn opens(nodes: Seq<NodeModel>, a: int) -> bool {
    a + 1 < nodes.len() && nodes[a + 1].depth > nodes[a].depth
}

/// Line `b` is the next one after line `a` that lies no deeper, and lies at the
/// same depth.
pub open spec fn next_sibling(nodes: Seq<NodeModel>, a: int, b: int) -> bool {
    &&& a < b < nodes.len()
    &&& nodes[b].depth == nodes[a].depth
    &&& forall|k: int| a < k < b ==> (#[trigger] nodes[k]).depth > nodes[a].depth
}

/// No line follows line `a` at its depth before one that lies less deep.
pub open spec fn closes(nodes: Seq<NodeModel>, a: int) -> bool {
    forall|b: int| !next_sibling(nodes, a, b)
}

/// A line as it stands in an outline before the tree is drawn.
pub open spec fn bare_line(root: ScanRoot, p: Seq<NameModel>, is_empty: bool) -> NodeModel {
    NodeModel {
        path: p,
        name: root.label_of(p),
        depth: p.len() as i32,
        status: if is_empty {
            EMPTY
        } else {
            SHOWN
        },
        has_children: false,
        is_expanded: true,
        is_last_sibling: false,
    }
}

/// A directory to be reported as empty is at `p` or below it.
pub open spec fn included(
    root: ScanRoot,
    settings: ScanSettings,
    es: Seq<EntryModel>,
    p: Seq<NameModel>,
) -> bool {
    exists|q: Seq<NameModel>| #[trigger]
        emptiness::found(root, settings, es, q) && p.is_prefix_of(q)
}

/// A line with path `p` stands in the outline.
pub open spec fn listed(nodes: Seq<NodeModel>, p: Seq<NameModel>) -> bool {
    exists|a: int| 0 <= a < nodes.len() && (#[trigger] nodes[a]).path == p
}

/// The lines stand by path, each path once.
pub open spec fn by_path(nodes: Seq<NodeModel>) -> bool {
    forall|a: int, b: int|
        0 <= a < b < nodes.len() ==> path::path_before(
            (#[trigger] nodes[a]).path,
            (#[trigger] nodes[b]).path,
        )
}

/// The outline of a walk: a line for each directory to be reported as empty
/// and for each directory above one, the root included, by path. A line is
/// marked as empty exactly when its directory is to be reported.
pub open spec fn is_outline(
    root: ScanRoot,
    settings: ScanSettings,
    es: Seq<EntryModel>,
    nodes: Seq<NodeModel>,
) -> bool {
    &&& by_path(nodes)
    &&& forall|p: Seq<NameModel>| #[trigger]
        listed(nodes, p) <==> included(root, settings, es, p)
    &&& forall|a: int|
        0 <= a < nodes.len() ==> #[trigger] nodes[a] == (NodeModel {
            has_children: opens(nodes, a),
            is_last_sibling: closes(nodes, a),
            ..bare_line(
                root,
                nodes[a].path,
                emptiness::found(root, settings, es, nodes[a].path),
            )
        })
}

/// Of two paths in order, every beginning of the second that is longer than
/// what they share stands after the first.
proof fn lemma_new_prefix_after(last: Seq<NameModel>, p: Seq<NameModel>, s: int, k: int)
    requires
        path::path_before(last, p),
        0 <= s <= last.len(),
        s < k <= p.len(),
        last.take(s) == p.take(s),
        s < last.len() ==> last[s] != p[s],
    ensures
        path::path_before(last, p.take(k)),
{
    path::lemma_path_skip(last, p, s);
    assert(p.take(k).take(s) == p.take(s));
    path::lemma_path_skip(last, p.take(k), s);
    assert(p.take(k).skip(s)[0] == p[s]);
    assert(p.skip(s)[0] == p[s]);
    if s < last.len() {
        assert(last.skip(s)[0] == last[s]);
    }
}

/// The bare lines of an outline.
spec fn bare_outline(
    root: ScanRoot,
    settings: ScanSettings,
    es: Seq<EntryModel>,
    nodes: Seq<NodeModel>,
) -> bool {
    &&& by_path(nodes)
    &&& forall|p: Seq<NameModel>| #[trigger]
        listed(nodes, p) <==> included(root, settings, es, p)
    &&& forall|a: int|
        0 <= a < nodes.len() ==> #[trigger] nodes[a] == bare_line(
            root,
            nodes[a].path,
            emptiness::found(root, settings, es, nodes[a].path),
        )
}

/// An entry to be reported stands at a place before `i`, with path `p`.
spec fn found_until(
    root: ScanRoot,
    settings: ScanSettings,
    es: Seq<EntryModel>,
    order: Seq<usize>,
    i: int,
    p: Seq<NameModel>,
) -> bool {
    exists|b: int|
        0 <= b < i && #[trigger] emptiness::vacant(root, settings, es, order[b] as int)
            && es[order[b] as int].path == p
}

/// The bare lines for the paths that `f` picks and for those above them.
spec fn partial_outline(
    root: ScanRoot,
    f: spec_fn(Seq<NameModel>) -> bool,
    nodes: Seq<NodeModel>,
) -> bool {
    &&& by_path(nodes)
    &&& forall|a: int| 0 <= a < nodes.len() ==> above_picked(f, (#[trigger] nodes[a]).path)
    &&& forall|q: Seq<NameModel>, k: int|
        f(q) && 0 <= k <= q.len() ==> listed(nodes, #[trigger] q.take(k))
    &&& forall|a: int|
        0 <= a < nodes.len() ==> #[trigger] nodes[a] == bare_line(
            root,
            nodes[a].path,
            f(nodes[a].path),
        )
    &&& nodes.len() > 0 ==> f(nodes.last().path)
}

/// A path that `f` picks is at `p` or below it.
spec fn above_picked(f: spec_fn(Seq<NameModel>) -> bool, p: Seq<NameModel>) -> bool {
    exists|q: Seq<NameModel>| #[trigger] f(q) && p.is_prefix_of(q)
}

/// What was found at the places before `i`.
spec fn picked_until(
    root: ScanRoot,
    settings: ScanSettings,
    es: Seq<EntryModel>,
    order: Seq<usize>,
    i: int,
) -> spec_fn(Seq<NameModel>) -> bool {
    |q: Seq<NameModel>| found_until(root, settings, es, order, i, q)
}

proof fn lemma_found_until_end(
    root: ScanRoot,
    settings: ScanSettings,
    es: Seq<EntryModel>,
    order: Seq<usize>,
    p: Seq<NameModel>,
)
    requires
        emptiness::sorted_part(es, order, 0, es.len() as int),
        es.len() <= usize::MAX,
    ensures
        found_until(root, settings, es, order, order.len() as int, p) == emptiness::found(
            root,
            settings,
            es,
            p,
        ),
{
    if emptiness::found(root, settings, es, p) {
        let i = choose|i: int| #[trigger]
            emptiness::vacant(root, settings, es, i) && es[i].path == p;
        assert(order.contains(i as usize));
        let b = choose|b: int| 0 <= b < order.len() && order[b] == i as usize;
        assert(emptiness::vacant(root, settings, es, order[b] as int));
    }
}

proof fn lemma_found_until_step(
    root: ScanRoot,
    settings: ScanSettings,
    es: Seq<EntryModel>,
    order: Seq<usize>,
    i: int,
    p: Seq<NameModel>,
)
    requires
        0 <= i < order.len(),
    ensures
        found_until(root, settings, es, order, i + 1, p) == (found_until(
            root,
            settings,
            es,
            order,
            i,
            p,
        ) || (emptiness::vacant(root, settings, es, order[i] as int) && es[order[i] as int].path
            == p)),
{
    if found_until(root, settings, es, order, i + 1, p) {
        let b = choose|b: int|
            0 <= b < i + 1 && #[trigger] emptiness::vacant(root, settings, es, order[b] as int)
                && es[order[b] as int].path == p;
        assert(b == i || b < i);
    }
    if found_until(root, settings, es, order, i, p) {
        let b = choose|b: int|
            0 <= b < i && #[trigger] emptiness::vacant(root, settings, es, order[b] as int)
                && es[order[b] as int].path == p;
        assert(0 <= b < i + 1);
    }
}

/// Writes the lines for one more directory to be reported, `p`: those of its
/// beginnings that do not stand yet.
fn write_down(root: &ScanRoot, nodes: &mut Vec<DirectoryNode>, p: &TreePath)
    requires
        by_path(lines(old(nodes)@)),
        old(nodes)@.len() > 0 ==> old(nodes)@.last().path@ == p@ || path::path_before(
            old(nodes)@.last().path@,
            p@,
        ),
    ensures
        by_path(lines(final(nodes)@)),
        lines(final(nodes)@).len() > 0,
        lines(final(nodes)@).last().path == p@,
        old(nodes)@.len() <= final(nodes)@.len(),
        forall|a: int|
            0 <= a < old(nodes)@.len() ==> #[trigger] lines(final(nodes)@)[a] == lines(old(nodes)@)[a],
        forall|a: int|
            old(nodes)@.len() <= a < final(nodes)@.len() ==> ({
                let q = (#[trigger] lines(final(nodes)@)[a]).path;
                &&& q.is_prefix_of(p@)
                &&& lines(final(nodes)@)[a] == bare_line(*root, q, q == p@)
                &&& old(nodes)@.len() > 0 ==> path::path_before(old(nodes)@.last().path@, q)
            }),
        forall|k: int|
            0 <= k <= p@.len() ==> listed(lines(final(nodes)@), #[trigger] p@.take(k)) || (old(
                nodes,
            )@.len() > 0 && k <= old(nodes)@.last().path@.len() && p@.take(k) == old(
                nodes,
            )@.last().path@.take(k)),
{
    let len: usize = p.names.len();
    let ghost was = lines(nodes@);
    let ghost old_len = nodes@.len();
    let mut k: usize = 0;
    if nodes.len() > 0 {
        let s = nodes[nodes.len() - 1].path.shared_len(p);
        let ghost last = was.last().path;
        proof {
            assert(last == nodes@.last().path@);
            if last == p@ && s < len {
                assert(last[s as int] == p@[s as int]);
            }
            if s == len && last != p@ {
                assert(p@.take(s as int) == p@);
                assert(p@.is_prefix_of(last));
                assert(last != p@ && p@.len() < last.len()) by {
                    if last.len() == p@.len() {
                        assert(last.take(s as int) == last);
                    }
                }
                path::lemma_prefix_before(p@, last);
                path::lemma_path_asymmetric(last, p@);
            }
        }
        if s == len {
            assert(last == p@);
            return;
        }
        k = s + 1;
        proof {
            assert(last != p@) by {
                if last == p@ {
                    assert(s < last.len());
                }
            }
            assert forall|j: int| s < j <= len implies path::path_before(last, #[trigger] p@.take(j)) by {
                lemma_new_prefix_after(last, p@, s as int, j);
            }
            assert forall|j: int| 0 <= j < k implies p@.take(j) == #[trigger] last.take(j) by {
                assert(p@.take(j) == p@.take(s as int).take(j));
                assert(last.take(j) == last.take(s as int).take(j));
            }
        }
    }
    let ghost k0 = k as int;
    while k < len
        invariant
            len == p@.len(),
            old_len == was.len(),
            k0 <= k <= len,
            nodes@.len() == old_len + (k - k0),
            forall|a: int| 0 <= a < old_len ==> #[trigger] lines(nodes@)[a] == was[a],
            forall|a: int|
                old_len <= a < nodes@.len() ==> (#[trigger] lines(nodes@)[a]) == bare_line(
                    *root,
                    p@.take(k0 + (a - old_len)),
                    false,
                ),
        decreases len - k,
    {
        let ghost prev = nodes@;
        let node = new_line(root, p, k, SHOWN);
        nodes.push(node);
        assert(lines(nodes@) == lines(prev).push(node@));
        k += 1;
    }
    let ghost prev = nodes@;
    let node = new_line(root, p, len, EMPTY);
    nodes.push(node);
    proof {
        let now = lines(nodes@);
        assert(now == lines(prev).push(node@));
        assert(p@.take(len as int) == p@);
        assert forall|a: int| old_len <= a < now.len() implies (#[trigger] now[a]) == bare_line(
            *root,
            p@.take(k0 + (a - old_len)),
            now[a].path == p@,
        ) by {
            if a < now.len() - 1 {
                assert(now[a].path.len() < p@.len());
            }
        }
        assert forall|a: int, b: int| 0 <= a < b < now.len() implies path::path_before(
            (#[trigger] now[a]).path,
            (#[trigger] now[b]).path,
        ) by {
            if b < old_len {
            } else if a < old_len {
                let last = was.last().path;
                assert(path::path_before(last, p@.take(k0 + (b - old_len))));
                if a < old_len - 1 {
                    path::lemma_path_transitive(now[a].path, last, now[b].path);
                }
            } else {
                path::lemma_prefix_before(now[a].path, now[b].path);
            }
        }
        assert forall|j: int| 0 <= j <= p@.len() implies listed(now, #[trigger] p@.take(j)) || (old_len
            > 0 && j <= was.last().path.len() && p@.take(j) == was.last().path.take(j)) by {
            if j >= k0 {
                assert(now[old_len + (j - k0)].path == p@.take(j));
            } else {
                assert(p@.take(j) == was.last().path.take(j));
            }
        }
    }
}

/// The bare line for the first `k` names of `p`.
fn new_line(root: &ScanRoot, p: &TreePath, k: usize, status: i32) -> (r: DirectoryNode)
    requires
        k <= p@.len(),
        status == EMPTY || status == SHOWN,
    ensures
        r@ == bare_line(*root, p@.take(k as int), status == EMPTY),
{
    let path = p.prefix(k);
    let name = root.label(&path);
    DirectoryNode {
        path,
        name,
        depth: k as i32,
        status,
        has_children: false,
        is_expanded: true,
        is_last_sibling: false,
    }
}

/// The bare lines of the outline of a walk.
fn write_outline(root: &ScanRoot, settings: &ScanSettings, entries: &Vec<Entry>) -> (r: Vec<
    DirectoryNode,
>)
    ensures
        bare_outline(*root, *settings, entry::models(entries@), lines(r@)),
{
    let ghost es = entry::models(entries@);
    assert(es.len() == entries.len());
    let order = order_by_path(entries);
    let vacant_at = vacancies(root, settings, entries, &order);
    let mut nodes: Vec<DirectoryNode> = Vec::new();
    let mut i: usize = 0;
    while i < order.len()
        invariant
            es == entry::models(entries@),
            es.len() == entries@.len() <= usize::MAX,
            emptiness::sorted_part(es, order@, 0, es.len() as int),
            i <= order@.len(),
            vacant_at@.len() == order@.len(),
            forall|a: int|
                0 <= a < order@.len() ==> vacant_at@[a] == emptiness::vacant(
                    *root,
                    *settings,
                    es,
                    #[trigger] order@[a] as int,
                ),
            partial_outline(*root, picked_until(*root, *settings, es, order@, i as int), lines(nodes@)),
        decreases order@.len() - i,
    {
        let ghost was = lines(nodes@);
        let ghost f = picked_until(*root, *settings, es, order@, i as int);
        let ghost g = picked_until(*root, *settings, es, order@, i + 1);
        proof {
            assert forall|q: Seq<NameModel>| #[trigger] g(q) == (f(q) || (vacant_at@[i as int]
                && es[order@[i as int] as int].path == q)) by {
                lemma_found_until_step(*root, *settings, es, order@, i as int, q);
            }
            assert forall|q: Seq<NameModel>| #[trigger] f(q) implies q
                == es[order@[i as int] as int].path || path::path_before(
                q,
                es[order@[i as int] as int].path,
            ) by {
                lemma_found_until_order(*root, *settings, es, order@, i as int, q);
            }
        }
        if vacant_at[i] {
            let p = &entries[order[i]].path;
            assert(p@ == es[order@[i as int] as int].path);
            assert(was.len() > 0 ==> was.last() == nodes@.last()@);
            write_down(root, &mut nodes, p);
            proof {
                lemma_partial_step(*root, f, g, p@, was, lines(nodes@));
            }
        } else {
            assert(f =~= g);
        }
        i += 1;
    }
    proof {
        let now = lines(nodes@);
        let f = picked_until(*root, *settings, es, order@, order@.len() as int);
        assert forall|q: Seq<NameModel>| #[trigger] f(q) == emptiness::found(*root, *settings, es, q) by {
            lemma_found_until_end(*root, *settings, es, order@, q);
        }
        assert forall|q: Seq<NameModel>| #[trigger]
            listed(now, q) <==> included(*root, *settings, es, q) by {
            if listed(now, q) {
                let a = choose|a: int| 0 <= a < now.len() && (#[trigger] now[a]).path == q;
                let below = choose|below: Seq<NameModel>| #[trigger] f(below) && q.is_prefix_of(below);
                assert(emptiness::found(*root, *settings, es, below));
            }
            if included(*root, *settings, es, q) {
                let below = choose|below: Seq<NameModel>| #[trigger]
                    emptiness::found(*root, *settings, es, below) && q.is_prefix_of(below);
                assert(f(below));
                assert(below.take(q.len() as int) == q);
            }
        }
        assert forall|a: int| 0 <= a < now.len() implies #[trigger] now[a] == bare_line(
            *root,
            now[a].path,
            emptiness::found(*root, *settings, es, now[a].path),
        ) by {
            assert(f(now[a].path) == emptiness::found(*root, *settings, es, now[a].path));
        }
    }
    nodes
}

/// What was found before place `i` does not stand after the path at `i`.
proof fn lemma_found_until_order(
    root: ScanRoot,
    settings: ScanSettings,
    es: Seq<EntryModel>,
    order: Seq<usize>,
    i: int,
    q: Seq<NameModel>,
)
    requires
        emptiness::sorted_part(es, order, 0, es.len() as int),
        0 <= i < order.len(),
        found_until(root, settings, es, order, i, q),
    ensures
        q == es[order[i] as int].path || path::path_before(q, es[order[i] as int].path),
{
    let b = choose|b: int|
        0 <= b < i && #[trigger] emptiness::vacant(root, settings, es, order[b] as int)
            && es[order[b] as int].path == q;
    assert(emptiness::comes_before(es, order[b] as int, order[i] as int));
}

/// Writing the lines for one more path, `p`, keeps the outline in step.
proof fn lemma_partial_step(
    root: ScanRoot,
    f: spec_fn(Seq<NameModel>) -> bool,
    g: spec_fn(Seq<NameModel>) -> bool,
    p: Seq<NameModel>,
    was: Seq<NodeModel>,
    now: Seq<NodeModel>,
)
    requires
        partial_outline(root, f, was),
        forall|q: Seq<NameModel>| #[trigger] g(q) == (f(q) || q == p),
        forall|q: Seq<NameModel>| #[trigger] f(q) ==> q == p || path::path_before(q, p),
        by_path(now),
        was.len() <= now.len(),
        now.len() > 0,
        now.last().path == p,
        forall|a: int| 0 <= a < was.len() ==> #[trigger] now[a] == was[a],
        forall|a: int|
            was.len() <= a < now.len() ==> ({
                let q = (#[trigger] now[a]).path;
                &&& q.is_prefix_of(p)
                &&& now[a] == bare_line(root, q, q == p)
                &&& was.len() > 0 ==> path::path_before(was.last().path, q)
            }),
        forall|k: int|
            0 <= k <= p.len() ==> listed(now, #[trigger] p.take(k)) || (was.len() > 0 && k
                <= was.last().path.len() && p.take(k) == was.last().path.take(k)),
    ensures
        partial_outline(root, g, now),
{
    assert(p.is_prefix_of(p));
    assert(g(p));
    assert forall|q: Seq<NameModel>| listed(was, q) implies #[trigger] listed(now, q) by {
        let a = choose|a: int| 0 <= a < was.len() && (#[trigger] was[a]).path == q;
        assert(now[a].path == q);
    }
    assert forall|a: int| 0 <= a < now.len() implies above_picked(g, (#[trigger] now[a]).path) by {
        if a < was.len() {
            assert(above_picked(f, was[a].path));
            let q = choose|q: Seq<NameModel>| #[trigger] f(q) && was[a].path.is_prefix_of(q);
            assert(g(q) && now[a].path.is_prefix_of(q));
        } else {
            assert(g(p) && now[a].path.is_prefix_of(p));
        }
    }
    assert forall|q: Seq<NameModel>, k: int| g(q) && 0 <= k <= q.len() implies listed(
        now,
        #[trigger] q.take(k),
    ) by {
        if f(q) {
            assert(listed(was, q.take(k)));
        } else if !listed(now, p.take(k)) {
            assert(listed(was, was.last().path.take(k)));
        }
    }
    assert forall|a: int| 0 <= a < now.len() implies #[trigger] now[a] == bare_line(
        root,
        now[a].path,
        g(now[a].path),
    ) by {
        let q = now[a].path;
        if a < was.len() {
            if q == p && !f(q) {
                let last = was.last().path;
                assert(f(last));
                if a < was.len() - 1 {
                    assert(path::path_before(was[a].path, last));
                    path::lemma_path_asymmetric(p, last);
                }
                assert(false);
            }
        } else if f(q) {
            assert(q.take(q.len() as int) == q);
            assert(listed(was, q));
            let b = choose|b: int| 0 <= b < was.len() && (#[trigger] was[b]).path == q;
            path::lemma_path_asymmetric(was.last().path, q);
            if b < was.len() - 1 {
                assert(path::path_before(was[b].path, was.last().path));
            }
            assert(false);
        }
    }
}

/// Marks each line of an outline that has lines below it, and each that is
/// the last below its parent.
pub fn link_tree(nodes: &mut Vec<DirectoryNode>)
    ensures
        final(nodes)@.len() == old(nodes)@.len(),
        forall|a: int|
            0 <= a < old(nodes)@.len() ==> #[trigger] lines(final(nodes)@)[a] == (NodeModel {
                has_children: lines(old(nodes)@)[a].has_children || opens(lines(old(nodes)@), a),
                is_last_sibling: closes(lines(old(nodes)@), a),
                ..lines(old(nodes)@)[a]
            }),
{
    let ghost was = lines(nodes@);
    let n: usize = nodes.len();
    let mut i: usize = 0;
    while i < n
        invariant
            n == was.len() == nodes@.len(),
            i <= n,
            forall|a: int| i <= a < n ==> #[trigger] lines(nodes@)[a] == was[a],
            forall|a: int| 0 <= a < n ==> (#[trigger] nodes@[a]).depth == was[a].depth,
            forall|a: int|
                0 <= a < i ==> #[trigger] lines(nodes@)[a] == (NodeModel {
                    has_children: was[a].has_children || opens(was, a),
                    is_last_sibling: closes(was, a),
                    ..was[a]
                }),
        decreases n - i,
    {
        let ghost before = nodes@;
        assert(lines(before)[i as int] == was[i as int]);
        let depth: i32 = nodes[i].depth;
        let opened = i + 1 < n && nodes[i + 1].depth > depth;
        let mut last: bool = true;
        let mut j: usize = i + 1;
        while j < n
            invariant_except_break
                last,
                forall|k: int| i < k < j ==> (#[trigger] was[k]).depth > was[i as int].depth,
            invariant
                n == was.len() == nodes@.len(),
                i < j <= n,
                depth == was[i as int].depth,
                nodes@ == before,
                forall|a: int| 0 <= a < n ==> (#[trigger] nodes@[a]).depth == was[a].depth,
            ensures
                last == closes(was, i as int),
            decreases n - j,
        {
            let d: i32 = nodes[j].depth;
            if d < depth {
                assert forall|b: int| !next_sibling(was, i as int, b) by {
                    if next_sibling(was, i as int, b) && b > j {
                        assert(was[j as int].depth > was[i as int].depth);
                    }
                }
                break;
            }
            if d == depth {
                last = false;
                assert(next_sibling(was, i as int, j as int));
                break;
            }
            j += 1;
        }
        if opened {
            nodes[i].has_children = true;
        }
        nodes[i].is_last_sibling = last;
        proof {
            assert(nodes@.len() == n);
            assert forall|a: int| 0 <= a < n && a != i implies #[trigger] nodes@[a] == before[a] by {}
            assert forall|a: int| 0 <= a < n && a != i implies #[trigger] lines(nodes@)[a] == lines(
                before,
            )[a] by {
                assert(nodes@[a] == before[a]);
            }
        }
        i += 1;
    }
}

/// The outline of a walk over `entries` below `root`: the directories that
/// are empty under `settings`, and those above them.
pub fn scan_empty_dirs(
    root: &ScanRoot,
    settings: &ScanSettings,
    entries: &Vec<Entry>,
) -> (r: Result<Vec<DirectoryNode>, String>)
    ensures
        r matches Ok(nodes) && is_outline(
            *root,
            *settings,
            entry::models(entries@),
            lines(nodes@),
        ),
{
    let mut nodes = write_outline(root, settings, entries);
    let ghost bare = lines(nodes@);
    link_tree(&mut nodes);
    proof {
        let now = lines(nodes@);
        let es = entry::models(entries@);
        assert forall|a: int| 0 <= a < now.len() implies (#[trigger] now[a]).path == bare[a].path
            && now[a].depth == bare[a].depth by {}
        assert forall|q: Seq<NameModel>| #[trigger] listed(now, q) == listed(bare, q) by {
            if listed(now, q) {
                let a = choose|a: int| 0 <= a < now.len() && (#[trigger] now[a]).path == q;
                assert(bare[a].path == q);
            }
            if listed(bare, q) {
                let a = choose|a: int| 0 <= a < bare.len() && (#[trigger] bare[a]).path == q;
                assert(now[a].path == q);
            }
        }
        lemma_flags_from_depths(bare, now);
    }
    Ok(nodes)
}

/// The tree marks rest on the depths of the lines alone.
pub(crate) proof fn lemma_flags_from_depths(x: Seq<NodeModel>, y: Seq<NodeModel>)
    requires
        x.len() == y.len(),
        forall|a: int| 0 <= a < x.len() ==> (#[trigger] x[a]).depth == (#[trigger] y[a]).depth,
    ensures
        forall|a: int| 0 <= a < x.len() ==> #[trigger] opens(x, a) == opens(y, a),
        forall|a: int| 0 <= a < x.len() ==> #[trigger] closes(x, a) == closes(y, a),
{
    assert forall|a: int, b: int| 0 <= a < x.len() implies #[trigger] next_sibling(x, a, b)
        == next_sibling(y, a, b) by {
        if next_sibling(x, a, b) {
            assert forall|k: int| a < k < b implies (#[trigger] y[k]).depth > y[a].depth by {
                assert(x[k].depth > x[a].depth);
            }
        }
        if next_sibling(y, a, b) {
            assert forall|k: int| a < k < b implies (#[trigger] x[k]).depth > x[a].depth by {
                assert(y[k].depth > y[a].depth);
            }
        }
    }
    assert forall|a: int| 0 <= a < x.len() implies #[trigger] closes(x, a) == closes(y, a) by {
        if closes(x, a) {
            assert forall|b: int| !next_sibling(y, a, b) by {
                assert(!next_sibling(x, a, b));
            }
        }
        if closes(y, a) {
            assert forall|b: int| !next_sibling(x, a, b) by {
                assert(!next_sibling(y, a, b));
            }
        }
    }
}

/// A line has children exactly when the next line lies deeper; it is the last
/// of its siblings exactly when the next line that lies no deeper lies less
/// deep, or there is none.
pub proof fn law_marks_follow_the_next_lines(nodes: Seq<NodeModel>, a: int, b: int)
    requires
        0 <= a < b <= nodes.len(),
        forall|k: int| a < k < b ==> (#[trigger] nodes[k]).depth > nodes[a].depth,
        b < nodes.len() ==> nodes[b].depth <= nodes[a].depth,
    ensures
        opens(nodes, a) <==> b > a + 1,
        closes(nodes, a) <==> b == nodes.len() || nodes[b].depth < nodes[a].depth,
{
    if b > a + 1 {
        assert(nodes[a + 1].depth > nodes[a].depth);
    }
    if b < nodes.len() && nodes[b].depth == nodes[a].depth {
        assert(next_sibling(nodes, a, b));
    } else {
        assert forall|c: int| !next_sibling(nodes, a, c) by {
            if next_sibling(nodes, a, c) {
                if c < b {
                    assert(nodes[c].depth > nodes[a].depth);
                } else if b < c {
                    assert(nodes[b].depth > nodes[a].depth);
                }
            }
        }
    }
}

} // verus!
