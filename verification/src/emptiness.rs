//! Which directories of a walk are empty.
use vstd::prelude::*;
use crate::entry;
use crate::entry::{Entry, EntryKind, EntryModel};
use crate::path;
use crate::path::{NameModel, Place, ScanRoot, TreePath};
use crate::settings::ScanSettings;

verus! {

/// A directory within the depth that the scan looks to stands at `p`.
pub open spec fn has_dir(settings: ScanSettings, es: Seq<EntryModel>, p: Seq<NameModel>) -> bool {
    exists|i: int|
        0 <= i < es.len() && (#[trigger] es[i]).kind == EntryKind::Dir && es[i].path == p
            && !settings.over_depth(es[i])
}

/// Entry `x` stands somewhere below `p`, with directories all the way, and
/// keeps the directory that it stands in from being empty.
pub open spec fn held_by(
    root: ScanRoot,
    settings: ScanSettings,
    es: Seq<EntryModel>,
    p: Seq<NameModel>,
    x: int,
) -> bool {
    &&& 0 <= x < es.len()
    &&& settings.anchors(root, es[x])
    &&& p.len() < es[x].path.len()
    &&& p.is_prefix_of(es[x].path)
    &&& forall|k: int|
        p.len() < k < es[x].path.len() ==> has_dir(settings, es, #[trigger] es[x].path.take(k))
}

/// Something below `p` keeps it from being empty.
pub open spec fn held(
    root: ScanRoot,
    settings: ScanSettings,
    es: Seq<EntryModel>,
    p: Seq<NameModel>,
) -> bool {
    exists|x: int| held_by(root, settings, es, p, x)
}

/// Entry `i` is a directory below the root, within the depth that the scan
/// looks to, that is to be reported as empty: nothing below holds it, and
/// neither it nor an earlier find of the same directory is protected.
pub open spec fn vacant(
    root: ScanRoot,
    settings: ScanSettings,
    es: Seq<EntryModel>,
    i: int,
) -> bool {
    &&& 0 <= i < es.len()
    &&& es[i].kind == EntryKind::Dir
    &&& es[i].path.len() > 0
    &&& !settings.over_depth(es[i])
    &&& !held(root, settings, es, es[i].path)
    &&& forall|j: int|
        0 <= j <= i && (#[trigger] es[j]).kind == EntryKind::Dir && es[j].path == es[i].path
            ==> !settings.protects(root, es[j])
}

/// A directory that is to be reported as empty stands at `p`.
pub open spec fn found(
    root: ScanRoot,
    settings: ScanSettings,
    es: Seq<EntryModel>,
    p: Seq<NameModel>,
) -> bool {
    exists|i: int| #[trigger] vacant(root, settings, es, i) && es[i].path == p
}

/// Entry `c` keeps the directory that it stands in from being empty, by itself
/// or because something below holds it.
pub open spec fn blocks(
    root: ScanRoot,
    settings: ScanSettings,
    es: Seq<EntryModel>,
    c: int,
) -> bool {
    ||| settings.anchors(root, es[c])
    ||| es[c].kind == EntryKind::Dir && !settings.over_depth(es[c]) && held(
        root,
        settings,
        es,
        es[c].path,
    )
}

/// Entry `c` stands directly in `p`.
pub open spec fn stands_in(es: Seq<EntryModel>, c: int, p: Seq<NameModel>) -> bool {
    &&& 0 <= c < es.len()
    &&& es[c].path.len() == p.len() + 1
    &&& es[c].path.take(p.len() as int) == p
}

/// A directory is held exactly when something that stands directly in it
/// blocks it.
pub(crate) proof fn lemma_held_by_child(
    root: ScanRoot,
    settings: ScanSettings,
    es: Seq<EntryModel>,
    p: Seq<NameModel>,
)
    ensures
        held(root, settings, es, p) <==> exists|c: int| #[trigger]
            stands_in(es, c, p) && blocks(root, settings, es, c),
{
    if held(root, settings, es, p) {
        let x = choose|x: int| held_by(root, settings, es, p, x);
        let whole = es[x].path;
        assert(whole.take(p.len() as int) == p);
        if whole.len() == p.len() + 1 {
            assert(stands_in(es, x, p) && blocks(root, settings, es, x));
        } else {
            let k = p.len() + 1;
            assert(has_dir(settings, es, whole.take(k as int)));
            let c = choose|i: int|
                0 <= i < es.len() && (#[trigger] es[i]).kind == EntryKind::Dir && es[i].path
                    == whole.take(k as int) && !settings.over_depth(es[i]);
            assert(whole.take(k as int).take(p.len() as int) == p);
            assert(held_by(root, settings, es, es[c].path, x));
            assert(stands_in(es, c, p) && blocks(root, settings, es, c));
        }
    }
    if exists|c: int| #[trigger] stands_in(es, c, p) && blocks(root, settings, es, c) {
        let c = choose|c: int| #[trigger] stands_in(es, c, p) && blocks(root, settings, es, c);
        if settings.anchors(root, es[c]) {
            assert(held_by(root, settings, es, p, c));
        } else {
            let x = choose|x: int| held_by(root, settings, es, es[c].path, x);
            let whole = es[x].path;
            assert(whole.take(es[c].path.len() as int) == es[c].path);
            assert(whole.take(p.len() as int) == whole.take(es[c].path.len() as int).take(
                p.len() as int,
            ));
            assert forall|k: int| p.len() < k < whole.len() implies has_dir(
                settings,
                es,
                #[trigger] whole.take(k),
            ) by {
                if k == es[c].path.len() {
                    assert(es[c].path == whole.take(k));
                }
            }
            assert(held_by(root, settings, es, p, x));
        }
    }
}

/// Entry `a` is to be looked at before entry `b`: by path, and among finds of
/// the same path as they came.
pub open spec fn comes_before(es: Seq<EntryModel>, a: int, b: int) -> bool {
    path::path_before(es[a].path, es[b].path) || (es[a].path == es[b].path && a < b)
}

/// `order` lists the entries `lo..hi` by path.
pub open spec fn sorted_part(es: Seq<EntryModel>, order: Seq<usize>, lo: int, hi: int) -> bool {
    &&& forall|k: int| 0 <= k < order.len() ==> lo <= #[trigger] order[k] < hi
    &&& forall|v: usize| lo <= v < hi ==> order.contains(v)
    &&& forall|a: int, b: int|
        0 <= a < b < order.len() ==> comes_before(es, #[trigger] order[a] as int, #[trigger] order[b] as int)
}

proof fn lemma_comes_before_transitive(es: Seq<EntryModel>, a: int, b: int, c: int)
    requires
        comes_before(es, a, b),
        comes_before(es, b, c),
    ensures
        comes_before(es, a, c),
{
    if path::path_before(es[a].path, es[b].path) && path::path_before(es[b].path, es[c].path) {
        path::lemma_path_transitive(es[a].path, es[b].path, es[c].path);
    }
}

fn before(entries: &Vec<Entry>, a: usize, b: usize) -> (r: bool)
    requires
        a < entries@.len(),
        b < entries@.len(),
        a != b,
    ensures
        r == comes_before(entry::models(entries@), a as int, b as int),
        !r == comes_before(entry::models(entries@), b as int, a as int),
{
    let ghost pa = entries@[a as int].path@;
    let ghost pb = entries@[b as int].path@;
    proof {
        path::lemma_path_total(pa, pb);
        if path::path_before(pa, pb) {
            path::lemma_path_asymmetric(pa, pb);
        }
        if path::path_before(pb, pa) {
            path::lemma_path_asymmetric(pb, pa);
        }
    }
    match entries[a].path.place(&entries[b].path) {
        Place::Before => true,
        Place::Same => a < b,
        Place::After => false,
    }
}

fn merge(entries: &Vec<Entry>, x: &Vec<usize>, y: &Vec<usize>, lo: usize, mid: usize, hi: usize) -> (r: Vec<usize>)
    requires
        lo <= mid <= hi <= entries@.len(),
        sorted_part(entry::models(entries@), x@, lo as int, mid as int),
        sorted_part(entry::models(entries@), y@, mid as int, hi as int),
    ensures
        sorted_part(entry::models(entries@), r@, lo as int, hi as int),
{
    let ghost es = entry::models(entries@);
    let mut out: Vec<usize> = Vec::new();
    let mut i: usize = 0;
    let mut j: usize = 0;
    while i < x.len() || j < y.len()
        invariant
            es == entry::models(entries@),
            lo <= mid <= hi <= entries@.len(),
            sorted_part(es, x@, lo as int, mid as int),
            sorted_part(es, y@, mid as int, hi as int),
            i <= x@.len(),
            j <= y@.len(),
            forall|k: int| 0 <= k < out@.len() ==> lo <= #[trigger] out@[k] < hi,
            forall|k: int| 0 <= k < i ==> out@.contains(#[trigger] x@[k]),
            forall|k: int| 0 <= k < j ==> out@.contains(#[trigger] y@[k]),
            forall|a: int, b: int|
                0 <= a < b < out@.len() ==> comes_before(
                    es,
                    #[trigger] out@[a] as int,
                    #[trigger] out@[b] as int,
                ),
            forall|a: int, b: int|
                0 <= a < out@.len() && i <= b < x@.len() ==> comes_before(
                    es,
                    #[trigger] out@[a] as int,
                    #[trigger] x@[b] as int,
                ),
            forall|a: int, b: int|
                0 <= a < out@.len() && j <= b < y@.len() ==> comes_before(
                    es,
                    #[trigger] out@[a] as int,
                    #[trigger] y@[b] as int,
                ),
        decreases x@.len() - i + y@.len() - j,
    {
        let ghost prev = out@;
        let take_x = if i < x.len() {
            if j < y.len() {
                before(entries, x[i], y[j])
            } else {
                true
            }
        } else {
            false
        };
        if take_x {
            out.push(x[i]);
            proof {
                assert forall|b: int| j <= b < y@.len() implies comes_before(
                    es,
                    x@[i as int] as int,
                    #[trigger] y@[b] as int,
                ) by {
                    if b > j {
                        lemma_comes_before_transitive(es, x@[i as int] as int, y@[j as int] as int, y@[b] as int);
                    }
                }
            }
            i += 1;
        } else {
            out.push(y[j]);
            proof {
                assert forall|b: int| i <= b < x@.len() implies comes_before(
                    es,
                    y@[j as int] as int,
                    #[trigger] x@[b] as int,
                ) by {
                    if b > i {
                        lemma_comes_before_transitive(es, y@[j as int] as int, x@[i as int] as int, x@[b] as int);
                    }
                }
            }
            j += 1;
        }
        assert forall|v: usize| prev.contains(v) implies out@.contains(v) by {
            let q = choose|q: int| 0 <= q < prev.len() && prev[q] == v;
            assert(out@[q] == v);
        }
        assert(out@[prev.len() as int] == out@.last());
    }
    assert forall|v: usize| lo <= v < hi implies out@.contains(v) by {
        if v < mid {
            assert(x@.contains(v));
            let q = choose|q: int| 0 <= q < x@.len() && x@[q] == v;
            assert(out@.contains(x@[q]));
        } else {
            assert(y@.contains(v));
            let q = choose|q: int| 0 <= q < y@.len() && y@[q] == v;
            assert(out@.contains(y@[q]));
        }
    }
    out
}

fn sort_part(entries: &Vec<Entry>, lo: usize, hi: usize) -> (r: Vec<usize>)
    requires
        lo <= hi <= entries@.len(),
    ensures
        sorted_part(entry::models(entries@), r@, lo as int, hi as int),
    decreases hi - lo,
{
    if hi - lo == 0 {
        return Vec::new();
    }
    if hi - lo == 1 {
        let mut one: Vec<usize> = Vec::new();
        one.push(lo);
        assert(one@[0] == lo);
        return one;
    }
    let mid: usize = lo + (hi - lo) / 2;
    let x = sort_part(entries, lo, mid);
    let y = sort_part(entries, mid, hi);
    merge(entries, &x, &y, lo, mid, hi)
}

/// The positions of the entries, by path.
pub fn order_by_path(entries: &Vec<Entry>) -> (r: Vec<usize>)
    ensures
        sorted_part(entry::models(entries@), r@, 0, entries@.len() as int),
{
    sort_part(entries, 0, entries.len())
}

/// The first place in `order` whose path does not stand before `p`.
fn first_from(entries: &Vec<Entry>, order: &Vec<usize>, p: &TreePath) -> (g: usize)
    requires
        sorted_part(entry::models(entries@), order@, 0, entries@.len() as int),
    ensures
        g <= order@.len(),
        forall|a: int|
            0 <= a < g ==> path::path_before(
                entry::models(entries@)[#[trigger] order@[a] as int].path,
                p@,
            ),
        forall|a: int|
            g <= a < order@.len() ==> !path::path_before(
                entry::models(entries@)[#[trigger] order@[a] as int].path,
                p@,
            ),
{
    let ghost es = entry::models(entries@);
    let mut lo: usize = 0;
    let mut hi: usize = order.len();
    while lo < hi
        invariant
            es == entry::models(entries@),
            sorted_part(es, order@, 0, entries@.len() as int),
            lo <= hi <= order@.len(),
            forall|a: int| 0 <= a < lo ==> path::path_before(es[#[trigger] order@[a] as int].path, p@),
            forall|a: int|
                hi <= a < order@.len() ==> !path::path_before(es[#[trigger] order@[a] as int].path, p@),
        decreases hi - lo,
    {
        let mid: usize = lo + (hi - lo) / 2;
        let ghost here = es[order@[mid as int] as int].path;
        match entries[order[mid]].path.place(p) {
            Place::Before => {
                assert forall|a: int| 0 <= a < mid + 1 implies path::path_before(
                    es[#[trigger] order@[a] as int].path,
                    p@,
                ) by {
                    if a < mid {
                        assert(comes_before(es, order@[a] as int, order@[mid as int] as int));
                        if path::path_before(es[order@[a] as int].path, here) {
                            path::lemma_path_transitive(es[order@[a] as int].path, here, p@);
                        }
                    }
                }
                lo = mid + 1;
            },
            _ => {
                assert forall|a: int| mid <= a < order@.len() implies !path::path_before(
                    es[#[trigger] order@[a] as int].path,
                    p@,
                ) by {
                    if a > mid {
                        assert(comes_before(es, order@[mid as int] as int, order@[a] as int));
                        if path::path_before(es[order@[a] as int].path, p@) && path::path_before(
                            here,
                            es[order@[a] as int].path,
                        ) {
                            path::lemma_path_transitive(here, es[order@[a] as int].path, p@);
                        }
                    }
                }
                hi = mid;
            },
        }
    }
    lo
}

/// What is known of the entries, in the order in which they are looked at.
pub(crate) struct Survey {
    /// Whether something below the entry's path holds it.
    pub held: Vec<bool>,
    /// Whether the entry is a protected directory.
    pub guarded: Vec<bool>,
}

/// Place `g` is the first in `order` with its path.
spec fn leads(es: Seq<EntryModel>, order: Seq<usize>, g: int) -> bool {
    forall|b: int| 0 <= b < g ==> es[#[trigger] order[b] as int].path != es[order[g] as int].path
}

/// An entry at place `from` or later blocks path `p`.
spec fn blocked_from(
    root: ScanRoot,
    settings: ScanSettings,
    es: Seq<EntryModel>,
    order: Seq<usize>,
    from: int,
    p: Seq<NameModel>,
) -> bool {
    exists|b: int|
        from <= b < order.len() && #[trigger] stands_in(es, order[b] as int, p) && blocks(
            root,
            settings,
            es,
            order[b] as int,
        )
}

/// Everything that stands directly in the path at place `i` comes after `i`, so
/// that the path is held exactly when a later entry blocks it.
proof fn lemma_blocked_later(
    root: ScanRoot,
    settings: ScanSettings,
    es: Seq<EntryModel>,
    order: Seq<usize>,
    i: int,
)
    requires
        sorted_part(es, order, 0, es.len() as int),
        0 <= i < order.len(),
        es.len() <= usize::MAX,
    ensures
        blocked_from(root, settings, es, order, i + 1, es[order[i] as int].path) == held(
            root,
            settings,
            es,
            es[order[i] as int].path,
        ),
{
    let p = es[order[i] as int].path;
    lemma_held_by_child(root, settings, es, p);
    if held(root, settings, es, p) {
        let c = choose|c: int| #[trigger] stands_in(es, c, p) && blocks(root, settings, es, c);
        assert(order.contains(c as usize));
        let b = choose|b: int| 0 <= b < order.len() && order[b] == c as usize;
        path::lemma_prefix_before(p, es[c].path);
        path::lemma_path_asymmetric(p, es[c].path);
        if b < i {
            assert(comes_before(es, order[b] as int, order[i] as int));
        }
        assert(b >= i + 1);
        assert(stands_in(es, order[b] as int, p));
    }
}

/// Looks at every entry, those below a path before the path itself.
pub(crate) fn survey(
    root: &ScanRoot,
    settings: &ScanSettings,
    entries: &Vec<Entry>,
    order: &Vec<usize>,
) -> (r: Survey)
    requires
        sorted_part(entry::models(entries@), order@, 0, entries@.len() as int),
    ensures
        r.held@.len() == order@.len(),
        r.guarded@.len() == order@.len(),
        forall|a: int|
            0 <= a < order@.len() ==> r.held@[a] == held(
                *root,
                *settings,
                entry::models(entries@),
                entry::models(entries@)[#[trigger] order@[a] as int].path,
            ),
        forall|a: int|
            0 <= a < order@.len() ==> r.guarded@[a] == ({
                let e = entry::models(entries@)[#[trigger] order@[a] as int];
                e.kind == EntryKind::Dir && settings.protects(*root, e)
            }),
{
    let ghost es = entry::models(entries@);
    let n: usize = order.len();
    let needles = settings.needles();
    let mut marked: Vec<bool> = Vec::new();
    let mut held_at: Vec<bool> = Vec::new();
    let mut guarded: Vec<bool> = Vec::new();
    let mut f: usize = 0;
    while f < n
        invariant
            f <= n,
            marked@.len() == f,
            held_at@.len() == f,
            guarded@.len() == f,
            forall|a: int| 0 <= a < f ==> !marked@[a],
        decreases n - f,
    {
        marked.push(false);
        held_at.push(false);
        guarded.push(false);
        f += 1;
    }
    assert(es.len() == entries.len());
    let mut i: usize = n;
    while i > 0
        invariant
            es == entry::models(entries@),
            es.len() == entries@.len() <= usize::MAX,
            sorted_part(es, order@, 0, es.len() as int),
            n == order@.len(),
            i <= n,
            marked@.len() == n,
            held_at@.len() == n,
            guarded@.len() == n,
            needles@.len() == settings.ignore_dirs@.len(),
            forall|k: int|
                0 <= k < needles@.len() ==> (#[trigger] needles@[k])@ == entry::folded(
                    settings.ignore_dirs@[k]@,
                ),
            forall|a: int|
                i <= a < n ==> held_at@[a] == held(
                    *root,
                    *settings,
                    es,
                    es[#[trigger] order@[a] as int].path,
                ),
            forall|a: int|
                i <= a < n ==> guarded@[a] == ({
                    let e = es[#[trigger] order@[a] as int];
                    e.kind == EntryKind::Dir && settings.protects(*root, e)
                }),
            forall|g: int|
                0 <= g < n ==> #[trigger] marked@[g] == (leads(es, order@, g) && blocked_from(
                    *root,
                    *settings,
                    es,
                    order@,
                    i as int,
                    es[order@[g] as int].path,
                )),
        decreases i,
    {
        i -= 1;
        let at: usize = order[i];
        let e = &entries[at];
        let ghost p = e.path@;
        assert(es[at as int] == e@);
        let g = first_from(entries, order, &e.path);
        proof {
            path::lemma_path_irreflexive(p);
            assert(g <= i);
            let gp = es[order@[g as int] as int].path;
            if g < i {
                assert(comes_before(es, order@[g as int] as int, order@[i as int] as int));
                assert(gp == p);
            }
            assert forall|b: int| 0 <= b < g implies es[#[trigger] order@[b] as int].path != gp by {
                path::lemma_path_asymmetric(es[order@[b] as int].path, p);
            }
            assert(leads(es, order@, g as int));
            lemma_blocked_later(*root, *settings, es, order@, i as int);
        }
        let is_held: bool = marked[g];
        held_at.set(i, is_held);
        let is_dir = e.kind == EntryKind::Dir;
        let is_guarded = is_dir && settings.is_protected(root, &needles, e);
        guarded.set(i, is_guarded);
        let deep = settings.is_over_depth(e);
        let does_block = deep || settings.is_kept(e) || is_guarded || (is_dir && is_held);
        assert(does_block == blocks(*root, *settings, es, at as int));
        let len: usize = e.path.names.len();
        let ghost was = marked@;
        if does_block && len > 0 {
            let parent = e.path.prefix(len - 1);
            let h = first_from(entries, order, &parent);
            assert(stands_in(es, at as int, parent@));
            if h < n {
                match entries[order[h]].path.place(&parent) {
                    Place::Same => {
                        marked.set(h, true);
                    },
                    _ => {},
                }
            }
            proof {
                assert forall|q: int| 0 <= q < n implies #[trigger] marked@[q] == (leads(es, order@, q)
                    && blocked_from(*root, *settings, es, order@, i as int, es[order@[q] as int].path)) by {
                    let qp = es[order@[q] as int].path;
                    lemma_blocked_step(*root, *settings, es, order@, i as int, qp);
                    assert(was[q] == (leads(es, order@, q) && blocked_from(
                        *root,
                        *settings,
                        es,
                        order@,
                        i + 1,
                        qp,
                    )));
                    if qp == parent@ {
                        assert(stands_in(es, order@[i as int] as int, qp));
                        path::lemma_path_irreflexive(qp);
                        assert(h <= q);
                        if h < q {
                            assert(comes_before(es, order@[h as int] as int, order@[q] as int));
                            assert(es[order@[h as int] as int].path == qp);
                            assert(!leads(es, order@, q));
                        } else {
                            assert forall|b: int| 0 <= b < q implies es[#[trigger] order@[b] as int].path
                                != qp by {
                                path::lemma_path_asymmetric(es[order@[b] as int].path, parent@);
                            }
                            assert(leads(es, order@, q));
                        }
                    } else {
                        assert(!stands_in(es, order@[i as int] as int, qp)) by {
                            if stands_in(es, order@[i as int] as int, qp) {
                                assert(qp == p.take(len - 1));
                            }
                        }
                    }
                }
            }
        } else {
            proof {
                assert forall|q: int| 0 <= q < n implies #[trigger] marked@[q] == (leads(es, order@, q)
                    && blocked_from(*root, *settings, es, order@, i as int, es[order@[q] as int].path)) by {
                    let qp = es[order@[q] as int].path;
                    lemma_blocked_step(*root, *settings, es, order@, i as int, qp);
                    assert(was[q] == (leads(es, order@, q) && blocked_from(
                        *root,
                        *settings,
                        es,
                        order@,
                        i + 1,
                        qp,
                    )));
                }
            }
        }
    }
    Survey { held: held_at, guarded }
}

proof fn lemma_blocked_step(
    root: ScanRoot,
    settings: ScanSettings,
    es: Seq<EntryModel>,
    order: Seq<usize>,
    i: int,
    p: Seq<NameModel>,
)
    requires
        0 <= i < order.len(),
    ensures
        blocked_from(root, settings, es, order, i, p) == (blocked_from(
            root,
            settings,
            es,
            order,
            i + 1,
            p,
        ) || (stands_in(es, order[i] as int, p) && blocks(root, settings, es, order[i] as int))),
{
    if blocked_from(root, settings, es, order, i, p) {
        let b = choose|b: int|
            i <= b < order.len() && #[trigger] stands_in(es, order[b] as int, p) && blocks(
                root,
                settings,
                es,
                order[b] as int,
            );
        assert(b == i || i + 1 <= b);
    }
}

/// For each place in `order`, whether the entry there is to be reported as
/// empty.
pub(crate) fn vacancies(
    root: &ScanRoot,
    settings: &ScanSettings,
    entries: &Vec<Entry>,
    order: &Vec<usize>,
) -> (r: Vec<bool>)
    requires
        sorted_part(entry::models(entries@), order@, 0, entries@.len() as int),
    ensures
        r@.len() == order@.len(),
        forall|a: int|
            0 <= a < order@.len() ==> r@[a] == vacant(
                *root,
                *settings,
                entry::models(entries@),
                #[trigger] order@[a] as int,
            ),
{
    let ghost es = entry::models(entries@);
    assert(es.len() == entries.len());
    let n: usize = order.len();
    let known = survey(root, settings, entries, order);
    let mut out: Vec<bool> = Vec::new();
    let mut shadowed: bool = false;
    let mut i: usize = 0;
    while i < n
        invariant
            es == entry::models(entries@),
            es.len() == entries@.len() <= usize::MAX,
            sorted_part(es, order@, 0, es.len() as int),
            n == order@.len(),
            i <= n,
            out@.len() == i,
            known.held@.len() == n,
            known.guarded@.len() == n,
            forall|a: int|
                0 <= a < n ==> known.held@[a] == held(
                    *root,
                    *settings,
                    es,
                    es[#[trigger] order@[a] as int].path,
                ),
            forall|a: int|
                0 <= a < n ==> known.guarded@[a] == ({
                    let e = es[#[trigger] order@[a] as int];
                    e.kind == EntryKind::Dir && settings.protects(*root, e)
                }),
            i == 0 ==> !shadowed,
            i > 0 ==> shadowed == shadow(*root, *settings, es, order@, i as int, es[order@[i - 1] as int].path),
            forall|a: int|
                0 <= a < i ==> out@[a] == vacant(*root, *settings, es, #[trigger] order@[a] as int),
        decreases n - i,
    {
        let at: usize = order[i];
        let e = &entries[at];
        assert(es[at as int] == e@);
        if i > 0 {
            match entries[order[i - 1]].path.place(&e.path) {
                Place::Same => {},
                _ => {
                    shadowed = false;
                },
            }
        }
        proof {
            lemma_shadow_new(*root, *settings, es, order@, i as int);
        }
        if known.guarded[i] {
            shadowed = true;
        }
        proof {
            lemma_shadow_step(*root, *settings, es, order@, i as int);
            lemma_shadow_vacant(*root, *settings, es, order@, i as int);
        }
        let is_vacant = e.kind == EntryKind::Dir && e.path.names.len() > 0 && !settings.is_over_depth(e)
            && !known.held[i] && !shadowed;
        out.push(is_vacant);
        i += 1;
    }
    out
}

/// A protected directory with path `p` stands at a place before `i`.
spec fn shadow(
    root: ScanRoot,
    settings: ScanSettings,
    es: Seq<EntryModel>,
    order: Seq<usize>,
    i: int,
    p: Seq<NameModel>,
) -> bool {
    exists|b: int|
        0 <= b < i && es[#[trigger] order[b] as int].path == p && es[order[b] as int].kind
            == EntryKind::Dir && settings.protects(root, es[order[b] as int])
}

proof fn lemma_shadow_new(
    root: ScanRoot,
    settings: ScanSettings,
    es: Seq<EntryModel>,
    order: Seq<usize>,
    i: int,
)
    requires
        sorted_part(es, order, 0, es.len() as int),
        0 <= i < order.len(),
    ensures
        i == 0 ==> !shadow(root, settings, es, order, i, es[order[i] as int].path),
        i > 0 && es[order[i - 1] as int].path != es[order[i] as int].path ==> !shadow(
            root,
            settings,
            es,
            order,
            i,
            es[order[i] as int].path,
        ),
{
    let p = es[order[i] as int].path;
    if i > 0 && es[order[i - 1] as int].path != p && shadow(root, settings, es, order, i, p) {
        let b = choose|b: int|
            0 <= b < i && es[#[trigger] order[b] as int].path == p && es[order[b] as int].kind
                == EntryKind::Dir && settings.protects(root, es[order[b] as int]);
        let q = es[order[i - 1] as int].path;
        assert(comes_before(es, order[i - 1] as int, order[i] as int));
        if b < i - 1 {
            assert(comes_before(es, order[b] as int, order[i - 1] as int));
            path::lemma_path_asymmetric(q, p);
        }
    }
}

proof fn lemma_shadow_step(
    root: ScanRoot,
    settings: ScanSettings,
    es: Seq<EntryModel>,
    order: Seq<usize>,
    i: int,
)
    requires
        0 <= i < order.len(),
    ensures
        shadow(root, settings, es, order, i + 1, es[order[i] as int].path) == (shadow(
            root,
            settings,
            es,
            order,
            i,
            es[order[i] as int].path,
        ) || (es[order[i] as int].kind == EntryKind::Dir && settings.protects(
            root,
            es[order[i] as int],
        ))),
{
    let p = es[order[i] as int].path;
    if shadow(root, settings, es, order, i + 1, p) {
        let b = choose|b: int|
            0 <= b < i + 1 && es[#[trigger] order[b] as int].path == p && es[order[b] as int].kind
                == EntryKind::Dir && settings.protects(root, es[order[b] as int]);
        assert(b == i || b < i);
    }
    if es[order[i] as int].kind == EntryKind::Dir && settings.protects(root, es[order[i] as int]) {
        assert(es[order[i] as int].path == p);
    }
}

/// The earlier finds of a directory are those at earlier places.
proof fn lemma_shadow_vacant(
    root: ScanRoot,
    settings: ScanSettings,
    es: Seq<EntryModel>,
    order: Seq<usize>,
    i: int,
)
    requires
        sorted_part(es, order, 0, es.len() as int),
        es.len() <= usize::MAX,
        0 <= i < order.len(),
    ensures
        shadow(root, settings, es, order, i + 1, es[order[i] as int].path) == !(forall|j: int|
            0 <= j <= order[i] && (#[trigger] es[j]).kind == EntryKind::Dir && es[j].path
                == es[order[i] as int].path ==> !settings.protects(root, es[j])),
{
    let x = order[i] as int;
    let p = es[x].path;
    path::lemma_path_irreflexive(p);
    if shadow(root, settings, es, order, i + 1, p) {
        let b = choose|b: int|
            0 <= b < i + 1 && es[#[trigger] order[b] as int].path == p && es[order[b] as int].kind
                == EntryKind::Dir && settings.protects(root, es[order[b] as int]);
        if b < i {
            assert(comes_before(es, order[b] as int, order[i] as int));
        }
        assert(0 <= order[b] <= x && es[order[b] as int].kind == EntryKind::Dir);
    }
    if exists|j: int|
        0 <= j <= x && (#[trigger] es[j]).kind == EntryKind::Dir && es[j].path == p
            && settings.protects(root, es[j]) {
        let j = choose|j: int|
            0 <= j <= x && (#[trigger] es[j]).kind == EntryKind::Dir && es[j].path == p
                && settings.protects(root, es[j]);
        assert(order.contains(j as usize));
        let b = choose|b: int| 0 <= b < order.len() && order[b] == j as usize;
        if b > i {
            assert(comes_before(es, order[i] as int, order[b] as int));
        }
        assert(es[order[b] as int].path == p);
    }
}

/// The order of the entries holds each of them once, by path, and finds of the
/// same path as they came.
pub proof fn law_entries_are_ordered(es: Seq<EntryModel>, order: Seq<usize>, i: usize, a: int, b: int)
    requires
        sorted_part(es, order, 0, es.len() as int),
        0 <= a < b < order.len(),
    ensures
        order.contains(i) <==> i < es.len(),
        order[a] != order[b],
        path::path_before(es[order[a] as int].path, es[order[b] as int].path) || es[order[a] as int].path
            == es[order[b] as int].path && order[a] < order[b],
{
    assert(comes_before(es, order[a] as int, order[b] as int));
    path::lemma_path_irreflexive(es[order[a] as int].path);
    if order.contains(i) {
        let k = choose|k: int| 0 <= k < order.len() && order[k] == i;
        assert(order[k] < es.len());
    }
}

} // verus!
