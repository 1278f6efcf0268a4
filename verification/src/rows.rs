//! The rows in which an outline is shown, with the lines of its tree.
use vstd::prelude::*;
use crate::outline;
use crate::outline::{DirectoryNode, NodeModel, EMPTY};
use crate::path::ScanRoot;

verus! {

/// A column of a row that shows nothing.
pub const BLANK: i32 = 0;

/// A column of a row through which a line runs on.
pub const RUN: i32 = 1;

/// The last column of a row below which the line runs on.
pub const TEE: i32 = 2;

/// The last column of a row at which the line ends.
pub const CORNER: i32 = 3;

/// Lines are drawn for depths below this one.
pub const DRAWN_DEPTHS: usize = 256;

/// A row that shows a line of an outline.
#[derive(Clone, Debug)]
pub struct DirectoryItem {
    pub name: String,
    pub path: String,
    pub depth: i32,
    pub status: i32,
    pub has_children: bool,
    pub is_expanded: bool,
    /// The place of the line in the outline.
    pub id: i32,
    pub is_root: bool,
    pub tree_prefix: String,
    pub tree_lines: Vec<i32>,
}

/// A row, with its texts as characters.
pub struct ItemModel {
    pub name: Seq<char>,
    pub path: Seq<char>,
    pub depth: i32,
    pub status: i32,
    pub has_children: bool,
    pub is_expanded: bool,
    pub id: i32,
    pub is_root: bool,
    pub tree_prefix: Seq<char>,
    pub tree_lines: Seq<i32>,
}

impl View for DirectoryItem {
    type V = ItemModel;

    open spec fn view(&self) -> ItemModel {
        ItemModel {
            name: self.name@,
            path: self.path@,
            depth: self.depth,
            status: self.status,
            has_children: self.has_children,
            is_expanded: self.is_expanded,
            id: self.id,
            is_root: self.is_root,
            tree_prefix: self.tree_prefix@,
            tree_lines: self.tree_lines@,
        }
    }
}

/// The views of a list of rows.
pub open spec fn items(v: Seq<DirectoryItem>) -> Seq<ItemModel> {
    v.map_values(|r: DirectoryItem| r@)
}

/// Line `i` stands below line `j` in the outline.
pub open spec fn under(nodes: Seq<NodeModel>, i: int, j: int) -> bool {
    &&& 0 <= j < i < nodes.len()
    &&& forall|k: int| j < k <= i ==> (#[trigger] nodes[k]).depth > nodes[j].depth
}

/// Line `i` stands below a line that is collapsed.
pub open spec fn hidden(nodes: Seq<NodeModel>, i: int) -> bool {
    exists|j: int| #[trigger] under(nodes, i, j) && !nodes[j].is_expanded
}

/// Whether a line runs on through column `d` of row `i`: the latest line shown
/// up to `i` at the depth after `d` is not the last of its siblings.
pub open spec fn runs_on(nodes: Seq<NodeModel>, i: int, d: int) -> bool
    decreases i + 1,
{
    if i < 0 {
        false
    } else if !hidden(nodes, i) && nodes[i].depth == d + 1 && d + 1 < DRAWN_DEPTHS {
        !nodes[i].is_last_sibling
    } else {
        runs_on(nodes, i - 1, d)
    }
}

/// The columns of row `i`, one for each depth below the root.
pub open spec fn columns(nodes: Seq<NodeModel>, i: int) -> Seq<i32> {
    let depth = nodes[i].depth;
    Seq::new(
        if depth > 0 {
            depth as nat
        } else {
            0
        },
        |d: int|
            if d == depth - 1 {
                if nodes[i].is_last_sibling {
                    CORNER
                } else {
                    TEE
                }
            } else if runs_on(nodes, i, d) {
                RUN
            } else {
                BLANK
            },
    )
}

/// The row that shows line `i`.
pub open spec fn row_of(root: ScanRoot, nodes: Seq<NodeModel>, i: int) -> ItemModel {
    ItemModel {
        name: nodes[i].name,
        path: root.text_of(nodes[i].path),
        depth: nodes[i].depth,
        status: nodes[i].status,
        has_children: nodes[i].has_children,
        is_expanded: nodes[i].is_expanded,
        id: i as i32,
        is_root: nodes[i].depth == 0,
        tree_prefix: Seq::empty(),
        tree_lines: columns(nodes, i),
    }
}

/// The rows that show the first `n` lines: one for each that is not hidden.
pub open spec fn rows_of(root: ScanRoot, nodes: Seq<NodeModel>, n: int) -> Seq<ItemModel>
    decreases n,
{
    if n <= 0 {
        Seq::empty()
    } else if hidden(nodes, n - 1) {
        rows_of(root, nodes, n - 1)
    } else {
        rows_of(root, nodes, n - 1).push(row_of(root, nodes, n - 1))
    }
}

/// Line `j` is collapsed, and every line after it and before `i` lies deeper.
spec fn still_closed(nodes: Seq<NodeModel>, i: int, j: int) -> bool {
    &&& 0 <= j < i <= nodes.len()
    &&& !nodes[j].is_expanded
    &&& forall|k: int| j < k < i ==> (#[trigger] nodes[k]).depth > nodes[j].depth
}

/// `cut` is the least depth of a line that still hides what comes.
spec fn hides_below(nodes: Seq<NodeModel>, i: int, cut: i32) -> bool {
    &&& forall|j: int| #[trigger] still_closed(nodes, i, j) ==> nodes[j].depth >= cut
    &&& cut == i32::MAX || exists|j: int| #[trigger]
        still_closed(nodes, i, j) && nodes[j].depth == cut
}

proof fn lemma_hidden_by_depth(nodes: Seq<NodeModel>, i: int, cut: i32)
    requires
        0 <= i < nodes.len(),
        hides_below(nodes, i, cut),
    ensures
        hidden(nodes, i) <==> nodes[i].depth > cut,
{
    if hidden(nodes, i) {
        let j = choose|j: int| #[trigger] under(nodes, i, j) && !nodes[j].is_expanded;
        assert(still_closed(nodes, i, j));
        assert(nodes[i].depth > nodes[j].depth);
    }
    if nodes[i].depth > cut {
        let j = choose|j: int| #[trigger] still_closed(nodes, i, j) && nodes[j].depth == cut;
        assert(under(nodes, i, j));
    }
}

proof fn lemma_hides_step(nodes: Seq<NodeModel>, i: int, cut: i32)
    requires
        0 <= i < nodes.len(),
        hides_below(nodes, i, cut),
    ensures
        hides_below(
            nodes,
            i + 1,
            if nodes[i].depth > cut {
                cut
            } else if nodes[i].is_expanded {
                i32::MAX
            } else {
                nodes[i].depth
            },
        ),
{
    assert forall|j: int| #[trigger] still_closed(nodes, i + 1, j) implies j == i || (still_closed(
        nodes,
        i,
        j,
    ) && nodes[i].depth > nodes[j].depth) by {
        if j < i {
            assert(nodes[i].depth > nodes[j].depth);
        }
    }
    if nodes[i].depth > cut {
        let j = choose|j: int| #[trigger] still_closed(nodes, i, j) && nodes[j].depth == cut;
        assert(still_closed(nodes, i + 1, j));
    } else if !nodes[i].is_expanded {
        assert(still_closed(nodes, i + 1, i));
    }
}

/// The rows that show an outline: one for each line that no collapsed line
/// hides.
pub fn rebuild_visible_items(root: &ScanRoot, folders: &Vec<DirectoryNode>) -> (r: Vec<
    DirectoryItem,
>)
    requires
        forall|i: int|
            0 <= i < folders@.len() && !hidden(outline::lines(folders@), i) ==> (
            #[trigger] folders@[i]).depth > i32::MIN,
    ensures
        items(r@) == rows_of(*root, outline::lines(folders@), folders@.len() as int),
{
    let ghost ns = outline::lines(folders@);
    let mut out: Vec<DirectoryItem> = Vec::new();
    let mut hide_depth: i32 = i32::MAX;
    let mut active: Vec<bool> = Vec::new();
    while active.len() < DRAWN_DEPTHS
        invariant
            active@.len() <= DRAWN_DEPTHS,
            forall|d: int| 0 <= d < active@.len() ==> !active@[d],
        decreases DRAWN_DEPTHS - active@.len(),
    {
        active.push(false);
    }
    let mut i: usize = 0;
    while i < folders.len()
        invariant
            ns == outline::lines(folders@),
            ns.len() == folders@.len(),
            i <= folders@.len(),
            hides_below(ns, i as int, hide_depth),
            active@.len() == DRAWN_DEPTHS,
            forall|d: int|
                0 <= d < DRAWN_DEPTHS ==> #[trigger] active@[d] == runs_on(ns, i - 1, d),
            items(out@) == rows_of(*root, ns, i as int),
        decreases folders@.len() - i,
    {
        let node = &folders[i];
        let depth: i32 = node.depth;
        let ghost before = active@;
        proof {
            assert(ns[i as int] == node@);
            lemma_hidden_by_depth(ns, i as int, hide_depth);
            lemma_hides_step(ns, i as int, hide_depth);
        }
        if depth <= hide_depth {
            hide_depth = i32::MAX;
            if depth > 0 && depth < DRAWN_DEPTHS as i32 {
                active.set((depth - 1) as usize, !node.is_last_sibling);
            }
            assert forall|d: int| 0 <= d < DRAWN_DEPTHS implies #[trigger] active@[d] == runs_on(
                ns,
                i as int,
                d,
            ) by {
                assert(before[d] == runs_on(ns, i - 1, d));
            }
            let mut tree_lines: Vec<i32> = Vec::new();
            let mut d: i32 = 0;
            while d < depth && d < depth - 1
                invariant
                    ns[i as int].depth == depth,
                    0 <= d,
                    depth > 0 ==> d <= depth - 1,
                    depth <= 0 ==> d == 0,
                    tree_lines@.len() == d,
                    active@.len() == DRAWN_DEPTHS,
                    forall|c: int|
                        0 <= c < DRAWN_DEPTHS ==> #[trigger] active@[c] == runs_on(ns, i as int, c),
                    forall|c: int|
                        0 <= c < d ==> #[trigger] tree_lines@[c] == (if runs_on(ns, i as int, c) {
                            RUN
                        } else {
                            BLANK
                        }),
                decreases depth - d,
            {
                if d >= DRAWN_DEPTHS as i32 {
                    proof {
                        lemma_no_line_so_deep(ns, i as int, d as int);
                    }
                    tree_lines.push(BLANK);
                } else if active[d as usize] {
                    tree_lines.push(RUN);
                } else {
                    tree_lines.push(BLANK);
                }
                d += 1;
            }
            if depth > 0 {
                if node.is_last_sibling {
                    tree_lines.push(CORNER);
                } else {
                    tree_lines.push(TEE);
                }
            }
            assert(tree_lines@ =~= columns(ns, i as int));
            let item = DirectoryItem {
                name: node.name.clone(),
                path: root.path_text(&node.path),
                depth,
                status: node.status,
                has_children: node.has_children,
                is_expanded: node.is_expanded,
                id: i as i32,
                is_root: depth == 0,
                tree_prefix: String::new(),
                tree_lines,
            };
            let ghost prev = out@;
            out.push(item);
            assert(items(out@) == items(prev).push(item@));
            if !node.is_expanded {
                hide_depth = depth;
            }
        } else {
            assert forall|d: int| 0 <= d < DRAWN_DEPTHS implies #[trigger] active@[d] == runs_on(
                ns,
                i as int,
                d,
            ) by {
                assert(before[d] == runs_on(ns, i - 1, d));
            }
        }
        i += 1;
    }
    out
}

pub(crate) proof fn lemma_no_line_so_deep(nodes: Seq<NodeModel>, i: int, d: int)
    requires
        d + 1 >= DRAWN_DEPTHS,
    ensures
        !runs_on(nodes, i, d),
    decreases i + 1,
{
    if i >= 0 {
        lemma_no_line_so_deep(nodes, i - 1, d);
    }
}

/// The lines with line `id` the other way round: collapsed where it was
/// expanded, expanded where it was collapsed.
pub open spec fn toggled(nodes: Seq<NodeModel>, id: int) -> Seq<NodeModel> {
    if 0 <= id < nodes.len() {
        nodes.update(id, NodeModel { is_expanded: !nodes[id].is_expanded, ..nodes[id] })
    } else {
        nodes
    }
}

/// Collapses or expands the line at place `id`, where there is one.
pub fn toggle_expand(folders: &mut Vec<DirectoryNode>, id: i32)
    ensures
        outline::lines(final(folders)@) == toggled(outline::lines(old(folders)@), id as int),
{
    if id >= 0 && (id as usize) < folders.len() {
        let i: usize = id as usize;
        let ghost before = folders@;
        let was: bool = folders[i].is_expanded;
        folders[i].is_expanded = !was;
        assert(folders@ =~= before.update(i as int, folders@[i as int]));
        assert(outline::lines(folders@) =~= toggled(outline::lines(before), id as int));
    }
}

/// How many of the first `n` lines are marked as empty.
pub open spec fn empty_among(nodes: Seq<NodeModel>, n: int) -> int
    decreases n,
{
    if n <= 0 {
        0
    } else {
        empty_among(nodes, n - 1) + (if nodes[n - 1].status == EMPTY {
            1int
        } else {
            0int
        })
    }
}

/// How many lines are marked as empty.
pub fn count_empty(folders: &Vec<DirectoryNode>) -> (r: usize)
    ensures
        r == empty_among(outline::lines(folders@), folders@.len() as int),
{
    let ghost ns = outline::lines(folders@);
    let mut n: usize = 0;
    let mut i: usize = 0;
    while i < folders.len()
        invariant
            ns == outline::lines(folders@),
            i <= folders@.len(),
            n <= i,
            n == empty_among(ns, i as int),
        decreases folders@.len() - i,
    {
        assert(ns[i as int] == folders@[i as int]@);
        if folders[i].status == EMPTY {
            n += 1;
        }
        i += 1;
    }
    n
}

/// The lines after each of a list of changes gave the line at its place its
/// status; a change for a place where no line stands changes nothing.
pub open spec fn with_statuses(nodes: Seq<NodeModel>, changes: Seq<(usize, i32)>) -> Seq<NodeModel>
    decreases changes.len(),
{
    if changes.len() == 0 {
        nodes
    } else {
        let before = with_statuses(nodes, changes.drop_last());
        let (at, status) = changes.last();
        if at < before.len() {
            before.update(at as int, NodeModel { status, ..before[at as int] })
        } else {
            before
        }
    }
}

/// Gives each line that a change names the status of the last such change.
pub fn apply_statuses(folders: &mut Vec<DirectoryNode>, changes: &Vec<(usize, i32)>)
    ensures
        outline::lines(final(folders)@) == with_statuses(outline::lines(old(folders)@), changes@),
{
    let ghost ns = outline::lines(folders@);
    let mut k: usize = 0;
    assert(changes@.take(0) == Seq::<(usize, i32)>::empty());
    while k < changes.len()
        invariant
            k <= changes@.len(),
            outline::lines(folders@) == with_statuses(ns, changes@.take(k as int)),
        decreases changes@.len() - k,
    {
        let (at, status): (usize, i32) = changes[k];
        let ghost before = folders@;
        assert(changes@.take(k + 1).drop_last() == changes@.take(k as int));
        assert(changes@.take(k + 1).last() == changes@[k as int]);
        if at < folders.len() {
            folders[at].status = status;
            assert(folders@ =~= before.update(at as int, folders@[at as int]));
            assert(outline::lines(folders@) =~= with_statuses(ns, changes@.take(k + 1)));
        }
        k += 1;
    }
    assert(changes@.take(changes@.len() as int) == changes@);
}

} // verus!
