//! Paths below a scanned root: their names, their order and their text.
use vstd::prelude::*;
use vstd::string::*;
use vstd::utf8::*;

verus! {

/// A name on the way down to something on disk.
#[derive(Clone, Debug, PartialEq, Eq, Hash)]
pub struct Name {
    /// The bytes that the system knows it by.
    pub raw: Vec<u8>,
    /// The text that the system shows for it.
    pub text: String,
}

/// A name, with its bytes and its text as sequences.
pub struct NameModel {
    pub raw: Seq<u8>,
    pub text: Seq<char>,
}

impl View for Name {
    type V = NameModel;

    open spec fn view(&self) -> NameModel {
        NameModel { raw: self.raw@, text: self.text@ }
    }
}

/// A path relative to the scanned root: each name on the way down. The root
/// itself is the path without names.
#[derive(Clone, Debug, PartialEq, Eq, Hash)]
pub struct TreePath {
    pub names: Vec<Name>,
}

impl View for TreePath {
    type V = Seq<NameModel>;

    open spec fn view(&self) -> Seq<NameModel> {
        self.names@.map_values(|n: Name| n@)
    }
}

/// How the scanned root is written.
#[derive(Clone, Debug)]
pub struct ScanRoot {
    /// The text of the root's own path.
    pub text: String,
    /// The text that stands before the first name of every path below it.
    pub base: String,
    /// The separator between the names below it.
    pub sep: char,
}

/// The names of a path, joined by a separator.
pub open spec fn joined(p: Seq<NameModel>, sep: char) -> Seq<char>
    decreases p.len(),
{
    if p.len() == 0 {
        Seq::empty()
    } else if p.len() == 1 {
        p[0].text
    } else {
        joined(p.drop_last(), sep).push(sep) + p.last().text
    }
}

impl ScanRoot {
    /// The text of a path below this root.
    pub open spec fn text_of(&self, p: Seq<NameModel>) -> Seq<char> {
        if p.len() == 0 {
            self.text@
        } else {
            self.base@ + joined(p, self.sep)
        }
    }

    /// The text of `path`, which lies below this root or is it.
    pub fn path_text(&self, path: &TreePath) -> (r: String)
        ensures
            r@ == self.text_of(path@),
    {
        let len: usize = path.names.len();
        if len == 0 {
            return self.text.clone();
        }
        let mut out = self.base.clone();
        let mut i: usize = 0;
        assert(out@ == self.base@ + joined(path@.take(0), self.sep));
        while i < len
            invariant
                i <= len == path@.len() == path.names@.len(),
                out@ == self.base@ + joined(path@.take(i as int), self.sep),
            decreases len - i,
        {
            assert(path@.take(i + 1).drop_last() == path@.take(i as int));
            assert(path@.take(i + 1).last() == path.names@[i as int]@);
            if i > 0 {
                out.push(self.sep);
            }
            out.append(path.names[i].text.as_str());
            assert(out@ =~= self.base@ + joined(path@.take(i + 1), self.sep));
            i += 1;
        }
        assert(path@.take(len as int) == path@);
        out
    }

    /// The name that a path is shown under: the root by its whole text, any
    /// other path by its last name.
    pub open spec fn label_of(&self, p: Seq<NameModel>) -> Seq<char> {
        if p.len() == 0 {
            self.text@
        } else {
            p.last().text
        }
    }

    /// The name that `path` is shown under.
    pub fn label(&self, path: &TreePath) -> (r: String)
        ensures
            r@ == self.label_of(path@),
    {
        let len: usize = path.names.len();
        if len == 0 {
            self.text.clone()
        } else {
            path.names[len - 1].text.clone()
        }
    }
}

/// Whether one run of bytes stands before another in lexicographic order.
pub open spec fn bytes_before(a: Seq<u8>, b: Seq<u8>) -> bool
    decreases a.len(),
{
    &&& b.len() > 0
    &&& {
        ||| a.len() == 0
        ||| a[0] < b[0]
        ||| a[0] == b[0] && bytes_before(a.drop_first(), b.drop_first())
    }
}

/// Whether one name stands before another: by their bytes, and among names
/// with the same bytes by their texts.
pub open spec fn name_before(a: NameModel, b: NameModel) -> bool {
    ||| bytes_before(a.raw, b.raw)
    ||| a.raw == b.raw && bytes_before(encode_utf8(a.text), encode_utf8(b.text))
}

/// Whether one path stands before another: name by name, a path before those
/// below it.
pub open spec fn path_before(a: Seq<NameModel>, b: Seq<NameModel>) -> bool
    decreases a.len(),
{
    &&& b.len() > 0
    &&& {
        ||| a.len() == 0
        ||| name_before(a[0], b[0])
        ||| a[0] == b[0] && path_before(a.drop_first(), b.drop_first())
    }
}

/// Where one thing stands relative to another.
#[derive(Clone, Copy, Debug, PartialEq, Eq, Structural)]
pub enum Place {
    Before,
    Same,
    After,
}

proof fn lemma_bytes_irreflexive(a: Seq<u8>)
    ensures
        !bytes_before(a, a),
    decreases a.len(),
{
    if a.len() > 0 {
        lemma_bytes_irreflexive(a.drop_first());
    }
}

proof fn lemma_bytes_transitive(a: Seq<u8>, b: Seq<u8>, c: Seq<u8>)
    requires
        bytes_before(a, b),
        bytes_before(b, c),
    ensures
        bytes_before(a, c),
    decreases a.len(),
{
    if a.len() > 0 && a[0] == b[0] && b[0] == c[0] {
        lemma_bytes_transitive(a.drop_first(), b.drop_first(), c.drop_first());
    }
}

proof fn lemma_bytes_total(a: Seq<u8>, b: Seq<u8>)
    ensures
        a == b || bytes_before(a, b) || bytes_before(b, a),
    decreases a.len(),
{
    if a.len() > 0 && b.len() > 0 && a[0] != b[0] {
        assert(bytes_before(a, b) || bytes_before(b, a));
    } else if a.len() > 0 && b.len() > 0 {
        lemma_bytes_total(a.drop_first(), b.drop_first());
        if a.drop_first() == b.drop_first() {
            assert(a.drop_first().len() == b.drop_first().len());
            assert forall|i: int| 0 <= i < a.len() implies a[i] == b[i] by {
                if i > 0 {
                    assert(a[i] == a.drop_first()[i - 1]);
                    assert(b[i] == b.drop_first()[i - 1]);
                }
            }
            assert(a =~= b);
        }
    } else if a.len() == 0 && b.len() == 0 {
        assert(a =~= b);
    }
}

proof fn lemma_name_irreflexive(a: NameModel)
    ensures
        !name_before(a, a),
{
    lemma_bytes_irreflexive(a.raw);
    lemma_bytes_irreflexive(encode_utf8(a.text));
}

proof fn lemma_name_transitive(a: NameModel, b: NameModel, c: NameModel)
    requires
        name_before(a, b),
        name_before(b, c),
    ensures
        name_before(a, c),
{
    if bytes_before(a.raw, b.raw) && bytes_before(b.raw, c.raw) {
        lemma_bytes_transitive(a.raw, b.raw, c.raw);
    } else if a.raw == b.raw && b.raw == c.raw && !bytes_before(a.raw, c.raw) {
        lemma_bytes_transitive(encode_utf8(a.text), encode_utf8(b.text), encode_utf8(c.text));
    }
}

proof fn lemma_name_total(a: NameModel, b: NameModel)
    ensures
        a == b || name_before(a, b) || name_before(b, a),
{
    lemma_bytes_total(a.raw, b.raw);
    lemma_bytes_total(encode_utf8(a.text), encode_utf8(b.text));
    lemma_same_text(a.text, b.text);
}

/// A text has one encoding, and no two texts share it.
proof fn lemma_same_text(a: Seq<char>, b: Seq<char>)
    ensures
        encode_utf8(a) == encode_utf8(b) <==> a == b,
{
    encode_utf8_decode_utf8(a);
    encode_utf8_decode_utf8(b);
}

/// No path stands before itself.
pub(crate) proof fn lemma_path_irreflexive(a: Seq<NameModel>)
    ensures
        !path_before(a, a),
    decreases a.len(),
{
    if a.len() > 0 {
        lemma_name_irreflexive(a[0]);
        lemma_path_irreflexive(a.drop_first());
    }
}

/// The order of paths is transitive.
pub(crate) proof fn lemma_path_transitive(a: Seq<NameModel>, b: Seq<NameModel>, c: Seq<NameModel>)
    requires
        path_before(a, b),
        path_before(b, c),
    ensures
        path_before(a, c),
    decreases a.len(),
{
    if a.len() > 0 {
        if name_before(a[0], b[0]) && name_before(b[0], c[0]) {
            lemma_name_transitive(a[0], b[0], c[0]);
        } else if a[0] == b[0] && b[0] == c[0] && path_before(a.drop_first(), b.drop_first()) && path_before(
            b.drop_first(),
            c.drop_first(),
        ) {
            lemma_path_transitive(a.drop_first(), b.drop_first(), c.drop_first());
        }
    }
}

/// Of two different paths one stands before the other.
pub(crate) proof fn lemma_path_total(a: Seq<NameModel>, b: Seq<NameModel>)
    ensures
        a == b || path_before(a, b) || path_before(b, a),
    decreases a.len(),
{
    if a.len() > 0 && b.len() > 0 {
        lemma_name_total(a[0], b[0]);
        if a[0] == b[0] {
            lemma_path_total(a.drop_first(), b.drop_first());
            if a.drop_first() == b.drop_first() {
                assert(a.drop_first().len() == b.drop_first().len());
                assert forall|i: int| 0 <= i < a.len() implies a[i] == b[i] by {
                    if i > 0 {
                        assert(a[i] == a.drop_first()[i - 1]);
                        assert(b[i] == b.drop_first()[i - 1]);
                    }
                }
                assert(a =~= b);
            }
        }
    } else if a.len() == 0 && b.len() == 0 {
        assert(a =~= b);
    }
}

/// Two paths never stand each before the other.
pub(crate) proof fn lemma_path_asymmetric(a: Seq<NameModel>, b: Seq<NameModel>)
    requires
        path_before(a, b),
    ensures
        !path_before(b, a),
        a != b,
{
    lemma_path_irreflexive(a);
    if path_before(b, a) {
        lemma_path_transitive(a, b, a);
    }
}

/// A path stands before every path below it.
pub(crate) proof fn lemma_prefix_before(a: Seq<NameModel>, b: Seq<NameModel>)
    requires
        a.is_prefix_of(b),
        a.len() < b.len(),
    ensures
        path_before(a, b),
    decreases a.len(),
{
    if a.len() > 0 {
        assert(a[0] == b[0]);
        assert(a.drop_first().is_prefix_of(b.drop_first()));
        lemma_prefix_before(a.drop_first(), b.drop_first());
    }
}

/// What stands between a path and a path below it is itself below the path.
pub(crate) proof fn lemma_between_prefix(a: Seq<NameModel>, x: Seq<NameModel>, b: Seq<NameModel>)
    requires
        a.is_prefix_of(b),
        path_before(a, x),
        x == b || path_before(x, b),
    ensures
        a.is_prefix_of(x),
        a.len() < x.len(),
    decreases a.len(),
{
    if a.len() > 0 {
        assert(a[0] == b[0]);
        lemma_name_irreflexive(a[0]);
        if name_before(a[0], x[0]) {
            if x != b && name_before(x[0], b[0]) {
                lemma_name_transitive(a[0], x[0], b[0]);
            }
            assert(false);
        }
        assert(a[0] == x[0]);
        assert(a.drop_first().is_prefix_of(b.drop_first()));
        if x == b {
        } else {
            assert(path_before(x.drop_first(), b.drop_first()));
        }
        lemma_between_prefix(a.drop_first(), x.drop_first(), b.drop_first());
        assert forall|i: int| 0 <= i < a.len() implies a[i] == x[i] by {
            if i > 0 {
                assert(a.drop_first()[i - 1] == x.drop_first()[i - 1]);
            }
        }
    }
}

proof fn lemma_bytes_skip(a: Seq<u8>, b: Seq<u8>, k: int)
    requires
        0 <= k <= a.len(),
        k <= b.len(),
        a.take(k) == b.take(k),
    ensures
        bytes_before(a, b) == bytes_before(a.skip(k), b.skip(k)),
        (a == b) == (a.skip(k) == b.skip(k)),
    decreases k,
{
    if k == 0 {
        assert(a.skip(0) == a && b.skip(0) == b);
    } else {
        assert(a.take(k)[0] == b.take(k)[0]);
        assert(a.drop_first().take(k - 1) == a.take(k).drop_first());
        assert(b.drop_first().take(k - 1) == b.take(k).drop_first());
        lemma_bytes_skip(a.drop_first(), b.drop_first(), k - 1);
        assert(a.drop_first().skip(k - 1) == a.skip(k));
        assert(b.drop_first().skip(k - 1) == b.skip(k));
        assert(a == a.take(k) + a.skip(k));
        assert(b == b.take(k) + b.skip(k));
    }
}

/// Two paths that begin alike are ordered as what follows.
pub(crate) proof fn lemma_path_skip(a: Seq<NameModel>, b: Seq<NameModel>, k: int)
    requires
        0 <= k <= a.len(),
        k <= b.len(),
        a.take(k) == b.take(k),
    ensures
        path_before(a, b) == path_before(a.skip(k), b.skip(k)),
        (a == b) == (a.skip(k) == b.skip(k)),
    decreases k,
{
    if k == 0 {
        assert(a.skip(0) == a && b.skip(0) == b);
    } else {
        assert(a.take(k)[0] == b.take(k)[0]);
        lemma_name_irreflexive(a[0]);
        assert(a.drop_first().take(k - 1) == a.take(k).drop_first());
        assert(b.drop_first().take(k - 1) == b.take(k).drop_first());
        lemma_path_skip(a.drop_first(), b.drop_first(), k - 1);
        assert(a.drop_first().skip(k - 1) == a.skip(k));
        assert(b.drop_first().skip(k - 1) == b.skip(k));
        assert(a == a.take(k) + a.skip(k));
        assert(b == b.take(k) + b.skip(k));
    }
}

/// Where `a` stands relative to `b` in lexicographic order.
pub fn place_bytes(a: &Vec<u8>, b: &Vec<u8>) -> (r: Place)
    ensures
        r == Place::Before <==> bytes_before(a@, b@),
        r == Place::Same <==> a@ == b@,
        r == Place::After <==> bytes_before(b@, a@),
{
    let mut k: usize = 0;
    while k < a.len() && k < b.len()
        invariant
            k <= a@.len(),
            k <= b@.len(),
            a@.take(k as int) == b@.take(k as int),
        decreases a@.len() - k,
    {
        proof {
            lemma_bytes_skip(a@, b@, k as int);
            lemma_bytes_skip(b@, a@, k as int);
        }
        if a[k] < b[k] {
            assert(a@.skip(k as int)[0] == a@[k as int]);
            assert(b@.skip(k as int)[0] == b@[k as int]);
            return Place::Before;
        }
        if a[k] > b[k] {
            assert(a@.skip(k as int)[0] == a@[k as int]);
            assert(b@.skip(k as int)[0] == b@[k as int]);
            return Place::After;
        }
        assert(a@.take(k + 1) == a@.take(k as int).push(a@[k as int]));
        assert(b@.take(k + 1) == b@.take(k as int).push(b@[k as int]));
        k += 1;
    }
    proof {
        lemma_bytes_skip(a@, b@, k as int);
        lemma_bytes_skip(b@, a@, k as int);
        assert(a@.skip(k as int).len() == a@.len() - k);
        assert(b@.skip(k as int).len() == b@.len() - k);
    }
    if k < b.len() {
        Place::Before
    } else if k < a.len() {
        Place::After
    } else {
        assert(a@.skip(k as int) =~= b@.skip(k as int));
        Place::Same
    }
}

/// Where `a` stands relative to `b`.
pub fn place_name(a: &Name, b: &Name) -> (r: Place)
    ensures
        r == Place::Before <==> name_before(a@, b@),
        r == Place::Same <==> a@ == b@,
        r == Place::After <==> name_before(b@, a@),
{
    proof {
        lemma_bytes_irreflexive(a@.raw);
        lemma_bytes_irreflexive(encode_utf8(a@.text));
        lemma_same_text(a@.text, b@.text);
    }
    match place_bytes(&a.raw, &b.raw) {
        Place::Same => if a.text == b.text {
            Place::Same
        } else {
            place_bytes(&a.text.as_str().as_bytes_vec(), &b.text.as_str().as_bytes_vec())
        },
        r => r,
    }
}

fn copy_name(a: &Name) -> (r: Name)
    ensures
        r@ == a@,
{
    let raw = a.raw.clone();
    assert(raw@ =~= a.raw@);
    Name { raw, text: a.text.clone() }
}

impl TreePath {
    /// Where this path stands relative to `other`.
    pub fn place(&self, other: &TreePath) -> (r: Place)
        ensures
            r == Place::Before <==> path_before(self@, other@),
            r == Place::Same <==> self@ == other@,
            r == Place::After <==> path_before(other@, self@),
    {
        let k = self.shared_len(other);
        proof {
            lemma_path_skip(self@, other@, k as int);
            lemma_path_skip(other@, self@, k as int);
            assert(self@.skip(k as int).len() == self@.len() - k);
            assert(other@.skip(k as int).len() == other@.len() - k);
        }
        if k < self.names.len() && k < other.names.len() {
            assert(self@.skip(k as int)[0] == self.names@[k as int]@);
            assert(other@.skip(k as int)[0] == other.names@[k as int]@);
            let r = place_name(&self.names[k], &other.names[k]);
            proof {
                if name_before(self@[k as int], other@[k as int]) {
                    lemma_name_irreflexive(self@[k as int]);
                    if name_before(other@[k as int], self@[k as int]) {
                        lemma_name_transitive(self@[k as int], other@[k as int], self@[k as int]);
                    }
                }
            }
            r
        } else if k < other.names.len() {
            Place::Before
        } else if k < self.names.len() {
            Place::After
        } else {
            assert(self@.skip(k as int) =~= other@.skip(k as int));
            Place::Same
        }
    }

    /// How many names this path and `other` share from the top.
    pub fn shared_len(&self, other: &TreePath) -> (k: usize)
        ensures
            k <= self@.len(),
            k <= other@.len(),
            self@.take(k as int) == other@.take(k as int),
            k < self@.len() && k < other@.len() ==> self@[k as int] != other@[k as int],
    {
        let mut k: usize = 0;
        assert(self@.take(0) == other@.take(0));
        while k < self.names.len() && k < other.names.len()
            invariant
                k <= self@.len() == self.names@.len(),
                k <= other@.len() == other.names@.len(),
                self@.take(k as int) == other@.take(k as int),
            decreases self@.len() - k,
        {
            match place_name(&self.names[k], &other.names[k]) {
                Place::Same => {},
                _ => {
                    return k;
                },
            }
            assert(self@.take(k + 1) == self@.take(k as int).push(self@[k as int]));
            assert(other@.take(k + 1) == other@.take(k as int).push(other@[k as int]));
            k += 1;
        }
        k
    }

    /// The path made of the first `k` names of this one.
    pub fn prefix(&self, k: usize) -> (r: TreePath)
        requires
            k <= self@.len(),
        ensures
            r@ == self@.take(k as int),
    {
        let mut names: Vec<Name> = Vec::new();
        let mut i: usize = 0;
        while i < k
            invariant
                i <= k <= self@.len() == self.names@.len(),
                names@.len() == i,
                forall|q: int| 0 <= q < i ==> names@[q]@ == self@[q],
            decreases k - i,
        {
            names.push(copy_name(&self.names[i]));
            i += 1;
        }
        let r = TreePath { names };
        assert(r@ =~= self@.take(k as int));
        r
    }
}

/// The root reads as itself; a path below it reads as the path above it, the
/// separator and its last name.
pub proof fn law_path_text_grows_by_names(root: ScanRoot, p: Seq<NameModel>, n: NameModel)
    ensures
        root.text_of(Seq::empty()) == root.text@,
        root.text_of(seq![n]) == root.base@ + n.text,
        p.len() > 0 ==> root.text_of(p.push(n)) == root.text_of(p) + seq![root.sep] + n.text,
{
    assert(p.push(n).drop_last() =~= p);
    if p.len() > 0 {
        assert(root.text_of(p.push(n)) =~= root.text_of(p) + seq![root.sep] + n.text);
    }
}

/// The root is shown under its whole text, any other path under what its text
/// ends with, its last name.
pub proof fn law_label_ends_the_text(root: ScanRoot, p: Seq<NameModel>, n: NameModel)
    ensures
        root.label_of(Seq::empty()) == root.text@,
        root.label_of(p.push(n)) == n.text,
        exists|before: Seq<char>| root.text_of(p.push(n)) == #[trigger] (before + root.label_of(
            p.push(n),
        )),
{
    law_path_text_grows_by_names(root, p, n);
    if p.len() == 0 {
        assert(p.push(n) =~= seq![n]);
        assert(root.text_of(p.push(n)) == root.base@ + root.label_of(p.push(n)));
    } else {
        assert(root.text_of(p.push(n)) == (root.text_of(p) + seq![root.sep]) + root.label_of(
            p.push(n),
        ));
    }
}

/// Of two different paths exactly one stands before the other, no path stands
/// before itself, and the order carries over.
pub proof fn law_paths_are_in_one_order(a: Seq<NameModel>, b: Seq<NameModel>, c: Seq<NameModel>)
    ensures
        !path_before(a, a),
        a == b || path_before(a, b) || path_before(b, a),
        !(path_before(a, b) && path_before(b, a)),
        path_before(a, b) && path_before(b, c) ==> path_before(a, c),
{
    lemma_path_irreflexive(a);
    lemma_path_total(a, b);
    if path_before(a, b) {
        lemma_path_asymmetric(a, b);
        if path_before(b, c) {
            lemma_path_transitive(a, b, c);
        }
    }
}

/// Runs of bytes are told apart by the first byte in which they differ; a run
/// stands before those that go on from it.
pub proof fn law_first_byte_that_differs_decides(
    common: Seq<u8>,
    x: u8,
    y: u8,
    a: Seq<u8>,
    b: Seq<u8>,
)
    ensures
        x < y ==> bytes_before(common + seq![x] + a, common + seq![y] + b),
        bytes_before(common, common + seq![y] + b),
        !bytes_before(common + seq![y] + b, common),
{
    let s = common + seq![x] + a;
    let t = common + seq![y] + b;
    let k = common.len() as int;
    assert(s.take(k) =~= common);
    assert(t.take(k) =~= common);
    assert(common.take(k) =~= common);
    lemma_bytes_skip(s, t, k);
    assert(s.skip(k)[0] == x);
    assert(t.skip(k)[0] == y);
    lemma_bytes_skip(common, t, k);
    lemma_bytes_skip(t, common, k);
}

/// Paths are told apart by the first name in which they differ, and names by
/// their bytes; a path stands before those below it.
pub proof fn law_first_name_that_differs_decides(
    common: Seq<NameModel>,
    x: NameModel,
    y: NameModel,
    a: Seq<NameModel>,
    b: Seq<NameModel>,
)
    ensures
        x.raw != y.raw ==> (path_before(common + seq![x] + a, common + seq![y] + b)
            <==> bytes_before(x.raw, y.raw)),
        path_before(common, common + seq![y] + b),
        !path_before(common + seq![y] + b, common),
{
    let s = common + seq![x] + a;
    let t = common + seq![y] + b;
    let k = common.len() as int;
    assert(s.take(k) =~= common);
    assert(t.take(k) =~= common);
    assert(common.take(k) =~= common);
    lemma_path_skip(s, t, k);
    assert(s.skip(k)[0] == x);
    assert(t.skip(k)[0] == y);
    lemma_path_skip(common, t, k);
    lemma_path_skip(t, common, k);
}

} // verus!
