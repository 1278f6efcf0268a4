//! Text helpers: characters of a string, slash normalisation, substring
//! search and comma or line separated lists.
use vstd::prelude::*;
use vstd::string::*;

verus! {

/// The lowercase form of a text, as `str::to_lowercase` gives it.
pub uninterp spec fn lowercase(s: Seq<char>) -> Seq<char>;

/// Whether a character has the Unicode property White_Space.
pub open spec fn whitespace(c: char) -> bool {
    ||| '\u{9}' <= c <= '\u{d}'
    ||| c == '\u{20}'
    ||| c == '\u{85}'
    ||| c == '\u{a0}'
    ||| c == '\u{1680}'
    ||| '\u{2000}' <= c <= '\u{200a}'
    ||| c == '\u{2028}'
    ||| c == '\u{2029}'
    ||| c == '\u{202f}'
    ||| c == '\u{205f}'
    ||| c == '\u{3000}'
}

/// Calls `str::to_lowercase`. Unproved: the text handed back is the one that
/// the Unicode lowercase mapping assigns to `s`, which `lowercase` names.
#[verifier::external_body]
pub(crate) fn to_lowercase(s: &str) -> (r: String)
    ensures
        r@ == lowercase(s@),
{
    s.to_lowercase()
}

/// Calls `char::is_whitespace`. Unproved: the answer is whether `c` has the
/// Unicode property White_Space, as `whitespace` lists it.
#[verifier::external_body]
pub(crate) fn is_whitespace(c: char) -> (r: bool)
    ensures
        r == whitespace(c),
{
    c.is_whitespace()
}

/// `String::push`. Unproved: it appends the one character and changes nothing
/// else.
pub assume_specification[ String::push ](s: &mut String, c: char)
    ensures
        final(s)@ == old(s)@.push(c),
;

/// The characters of `s`, in order.
pub fn chars_of(s: &str) -> (r: Vec<char>)
    ensures
        r@ == s@,
{
    let mut out: Vec<char> = Vec::new();
    for c in it: s.chars()
        invariant
            it.seq() == s@,
            out@ == s@.take(it.index()),
    {
        out.push(c);
        assert(s@.take(it.index() + 1) == s@.take(it.index()).push(c));
    }
    assert(s@.take(s@.len() as int) == s@);
    out
}

/// The characters `v[from..to]` as a string.
pub fn string_of(v: &Vec<char>, from: usize, to: usize) -> (r: String)
    requires
        from <= to <= v@.len(),
    ensures
        r@ == v@.subrange(from as int, to as int),
{
    let mut out = String::new();
    let mut i: usize = from;
    while i < to
        invariant
            from <= i <= to <= v@.len(),
            out@ == v@.subrange(from as int, i as int),
        decreases to - i,
    {
        out.push(v[i]);
        assert(v@.subrange(from as int, i + 1) == v@.subrange(from as int, i as int).push(v@[i as int]));
        i += 1;
    }
    out
}

/// A text with every backslash turned into a slash.
pub open spec fn slashed(s: Seq<char>) -> Seq<char> {
    s.map_values(|c: char| if c == '\\' { '/' } else { c })
}

/// `s` with every backslash turned into a slash.
pub fn with_slashes(s: &str) -> (r: String)
    ensures
        r@ == slashed(s@),
{
    let mut out = String::new();
    for c in it: s.chars()
        invariant
            it.seq() == s@,
            out@ == slashed(s@.take(it.index())),
    {
        let d = if c == '\\' { '/' } else { c };
        out.push(d);
        assert(slashed(s@.take(it.index() + 1)) == slashed(s@.take(it.index())).push(d));
    }
    assert(s@.take(s@.len() as int) == s@);
    out
}

/// `part` stands in `whole` at position `at`.
pub open spec fn stands_at(whole: Seq<char>, part: Seq<char>, at: int) -> bool {
    &&& 0 <= at
    &&& at + part.len() <= whole.len()
    &&& whole.subrange(at, at + part.len()) == part
}

/// `part` stands somewhere in `whole`.
pub open spec fn contains_text(whole: Seq<char>, part: Seq<char>) -> bool {
    exists|at: int| stands_at(whole, part, at)
}

fn matches_at(whole: &Vec<char>, part: &Vec<char>, at: usize) -> (r: bool)
    requires
        at + part@.len() <= whole@.len(),
    ensures
        r == stands_at(whole@, part@, at as int),
{
    let len: usize = whole.len();
    let mut k: usize = 0;
    while k < part.len()
        invariant
            at + part@.len() <= len == whole@.len(),
            k <= part@.len(),
            forall|q: int| 0 <= q < k ==> whole@[at + q] == part@[q],
        decreases part@.len() - k,
    {
        if whole[at + k] != part[k] {
            assert(whole@.subrange(at as int, at + part@.len())[k as int] != part@[k as int]);
            return false;
        }
        k += 1;
    }
    assert(whole@.subrange(at as int, at + part@.len()) =~= part@);
    true
}

/// Whether `part` stands somewhere in `whole`; the empty text stands in every
/// text.
pub fn contains(whole: &str, part: &str) -> (r: bool)
    ensures
        r == contains_text(whole@, part@),
{
    let w = chars_of(whole);
    let p = chars_of(part);
    if p.len() > w.len() {
        return false;
    }
    let last: usize = w.len() - p.len();
    let mut at: usize = 0;
    while at <= last
        invariant
            last + p@.len() == w@.len(),
            at <= last + 1,
            w@ == whole@,
            p@ == part@,
            forall|q: int| 0 <= q < at ==> !stands_at(w@, p@, q),
        decreases last + 1 - at,
    {
        if matches_at(&w, &p, at) {
            return true;
        }
        if at == last {
            assert forall|q: int| !stands_at(w@, p@, q) by {}
            return false;
        }
        at += 1;
    }
    false
}

/// Whether a text begins with the character `c`.
pub open spec fn begins_with(s: Seq<char>, c: char) -> bool {
    s.len() > 0 && s[0] == c
}

/// Whether `s` begins with the character `c`.
pub fn starts_with_char(s: &str, c: char) -> (r: bool)
    ensures
        r == begins_with(s@, c),
{
    if s.is_empty() {
        false
    } else {
        s.get_char(0) == c
    }
}

/// The views of a list of strings.
pub open spec fn texts(v: Seq<String>) -> Seq<Seq<char>> {
    v.map_values(|s: String| s@)
}

/// The pieces of a text between the places where `sep` stands; a text
/// without `sep` is its one piece.
pub open spec fn pieces(s: Seq<char>, sep: char) -> Seq<Seq<char>>
    decreases s.len(),
{
    if s.len() == 0 {
        seq![Seq::empty()]
    } else {
        let before = pieces(s.drop_last(), sep);
        if s.last() == sep {
            before.push(Seq::empty())
        } else {
            before.drop_last().push(before.last().push(s.last()))
        }
    }
}

/// A text without the white space that it begins with.
pub open spec fn trimmed_start(s: Seq<char>) -> Seq<char>
    decreases s.len(),
{
    if s.len() > 0 && whitespace(s[0]) {
        trimmed_start(s.drop_first())
    } else {
        s
    }
}

/// A text without the white space that it ends with.
pub open spec fn trimmed_end(s: Seq<char>) -> Seq<char>
    decreases s.len(),
{
    if s.len() > 0 && whitespace(s.last()) {
        trimmed_end(s.drop_last())
    } else {
        s
    }
}

/// A text without the white space at its two ends.
pub open spec fn trimmed(s: Seq<char>) -> Seq<char> {
    trimmed_end(trimmed_start(s))
}

/// The trimmed pieces of a list of pieces, without those that are empty.
pub open spec fn kept_items(p: Seq<Seq<char>>) -> Seq<Seq<char>> {
    p.map_values(|s: Seq<char>| trimmed(s)).filter(|s: Seq<char>| s.len() > 0)
}

/// The items that a text lists, separated by `sep`.
pub open spec fn list_items(s: Seq<char>, sep: char) -> Seq<Seq<char>> {
    kept_items(pieces(s, sep))
}

proof fn lemma_kept_items_push(p: Seq<Seq<char>>, s: Seq<char>)
    ensures
        kept_items(p.push(s)) == if trimmed(s).len() > 0 {
            kept_items(p).push(trimmed(s))
        } else {
            kept_items(p)
        },
{
    let trim = |t: Seq<char>| trimmed(t);
    reveal(Seq::filter);
    let mapped = p.push(s).map_values(trim);
    assert(mapped.drop_last() =~= p.map_values(trim));
    assert(mapped.last() == trimmed(s));
}

proof fn lemma_pieces_nonempty(s: Seq<char>, sep: char)
    ensures
        pieces(s, sep).len() > 0,
    decreases s.len(),
{
    if s.len() > 0 {
        lemma_pieces_nonempty(s.drop_last(), sep);
    }
}

/// `v` as a string, without the white space at its two ends.
pub fn trim(v: &Vec<char>) -> (r: String)
    ensures
        r@ == trimmed(v@),
{
    let len: usize = v.len();
    let mut from: usize = 0;
    assert(v@.skip(0) == v@);
    while from < len && is_whitespace(v[from])
        invariant
            from <= len == v@.len(),
            trimmed_start(v@) == trimmed_start(v@.skip(from as int)),
        decreases len - from,
    {
        assert(v@.skip(from as int).drop_first() == v@.skip(from + 1));
        from += 1;
    }
    let ghost rest = v@.skip(from as int);
    assert(trimmed_start(v@) == rest);
    let mut to: usize = len;
    assert(v@.subrange(from as int, to as int) == rest);
    while to > from && is_whitespace(v[to - 1])
        invariant
            from <= to <= len == v@.len(),
            trimmed_end(rest) == trimmed_end(v@.subrange(from as int, to as int)),
        decreases to,
    {
        assert(v@.subrange(from as int, to as int).drop_last() == v@.subrange(from as int, to - 1));
        to -= 1;
    }
    string_of(v, from, to)
}

/// The items that `s` lists: its pieces between the places where `sep` stands,
/// trimmed, without those that are empty.
pub fn split_list(s: &str, sep: char) -> (r: Vec<String>)
    ensures
        texts(r@) == list_items(s@, sep),
{
    let mut out: Vec<String> = Vec::new();
    let mut cur: Vec<char> = Vec::new();
    assert(texts(out@) =~= kept_items(pieces(Seq::<char>::empty(), sep).drop_last())) by {
        let none = pieces(Seq::<char>::empty(), sep).drop_last();
        assert(none =~= Seq::<Seq<char>>::empty());
        reveal(Seq::filter);
        assert(none.map_values(|t: Seq<char>| trimmed(t)) =~= Seq::<Seq<char>>::empty());
    }
    assert(s@.take(0) == Seq::<char>::empty());
    for c in it: s.chars()
        invariant
            it.seq() == s@,
            cur@ == pieces(s@.take(it.index()), sep).last(),
            texts(out@) == kept_items(pieces(s@.take(it.index()), sep).drop_last()),
    {
        let ghost seen = s@.take(it.index());
        let ghost so_far = pieces(seen, sep);
        proof {
            lemma_pieces_nonempty(seen, sep);
            assert(s@.take(it.index() + 1).drop_last() == seen);
            assert(so_far == so_far.drop_last().push(so_far.last()));
        }
        if c == sep {
            let item = trim(&cur);
            let ghost before = out@;
            proof {
                lemma_kept_items_push(so_far.drop_last(), so_far.last());
                assert(so_far.push(Seq::<char>::empty()).drop_last() == so_far);
            }
            if !item.as_str().is_empty() {
                out.push(item);
                assert(texts(out@) == texts(before).push(item@));
            }
            cur = Vec::new();
        } else {
            cur.push(c);
            assert(pieces(s@.take(it.index() + 1), sep).drop_last() == so_far.drop_last());
        }
    }
    assert(s@.take(s@.len() as int) == s@);
    let ghost all = pieces(s@, sep);
    let item = trim(&cur);
    let ghost before = out@;
    proof {
        lemma_pieces_nonempty(s@, sep);
        assert(all == all.drop_last().push(all.last()));
        lemma_kept_items_push(all.drop_last(), all.last());
    }
    if !item.as_str().is_empty() {
        out.push(item);
        assert(texts(out@) == texts(before).push(item@));
    }
    out
}

/// A trimmed text neither begins nor ends with white space, and is a run of
/// the text.
proof fn lemma_trimmed(s: Seq<char>)
    ensures
        trimmed(s).len() > 0 ==> !whitespace(trimmed(s)[0]) && !whitespace(trimmed(s).last()),
        exists|from: int, to: int| 0 <= from <= to <= s.len() && trimmed(s) == #[trigger] s.subrange(from, to),
{
    let from = lemma_trimmed_start(s);
    let to = lemma_trimmed_end(s.skip(from));
    assert(s.skip(from).take(to) == s.subrange(from, from + to));
}

proof fn lemma_trimmed_start(s: Seq<char>) -> (from: int)
    ensures
        0 <= from <= s.len(),
        trimmed_start(s) == s.skip(from),
        from < s.len() ==> !whitespace(s[from]),
    decreases s.len(),
{
    if s.len() > 0 && whitespace(s[0]) {
        let rest = lemma_trimmed_start(s.drop_first());
        assert(s.drop_first().skip(rest) == s.skip(rest + 1));
        rest + 1
    } else {
        assert(s.skip(0) == s);
        0
    }
}

proof fn lemma_trimmed_end(s: Seq<char>) -> (to: int)
    ensures
        0 <= to <= s.len(),
        trimmed_end(s) == s.take(to),
        to > 0 ==> !whitespace(s[to - 1]),
    decreases s.len(),
{
    if s.len() > 0 && whitespace(s.last()) {
        let rest = lemma_trimmed_end(s.drop_last());
        assert(s.drop_last().take(rest) == s.take(rest));
        rest
    } else {
        assert(s.take(s.len() as int) == s);
        s.len() as int
    }
}

proof fn lemma_pieces_without_sep(s: Seq<char>, sep: char, i: int)
    requires
        0 <= i < pieces(s, sep).len(),
    ensures
        !pieces(s, sep)[i].contains(sep),
    decreases s.len(),
{
    lemma_pieces_nonempty(s, sep);
    if s.len() > 0 {
        let before = pieces(s.drop_last(), sep);
        lemma_pieces_nonempty(s.drop_last(), sep);
        if i < before.len() {
            lemma_pieces_without_sep(s.drop_last(), sep, i);
        }
        if s.last() != sep && i == before.len() - 1 {
            let grown = before.last().push(s.last());
            assert forall|k: int| 0 <= k < grown.len() implies grown[k] != sep by {
                if k < before.last().len() {
                    assert(before.last().contains(before.last()[k]));
                }
            }
        }
    }
}

proof fn lemma_kept_items_from(p: Seq<Seq<char>>, i: int) -> (j: int)
    requires
        0 <= i < kept_items(p).len(),
    ensures
        0 <= j < p.len(),
        kept_items(p)[i] == trimmed(p[j]),
        trimmed(p[j]).len() > 0,
    decreases p.len(),
{
    if p.len() == 0 {
        reveal(Seq::filter);
        assert(p.map_values(|s: Seq<char>| trimmed(s)) =~= Seq::<Seq<char>>::empty());
        0
    } else {
        assert(p == p.drop_last().push(p.last()));
        lemma_kept_items_push(p.drop_last(), p.last());
        if i < kept_items(p.drop_last()).len() {
            lemma_kept_items_from(p.drop_last(), i)
        } else {
            p.len() - 1
        }
    }
}

/// No item of a list is empty, holds the separator, or begins or ends with
/// white space.
pub proof fn law_list_items_are_clean(s: Seq<char>, sep: char, i: int)
    requires
        0 <= i < list_items(s, sep).len(),
    ensures
        list_items(s, sep)[i].len() > 0,
        !list_items(s, sep)[i].contains(sep),
        !whitespace(list_items(s, sep)[i][0]),
        !whitespace(list_items(s, sep)[i].last()),
{
    let j = lemma_kept_items_from(pieces(s, sep), i);
    let piece = pieces(s, sep)[j];
    lemma_trimmed(piece);
    lemma_pieces_without_sep(s, sep, j);
    let (from, to) = choose|from: int, to: int|
        0 <= from <= to <= piece.len() && trimmed(piece) == #[trigger] piece.subrange(from, to);
    let item = trimmed(piece);
    assert forall|k: int| 0 <= k < item.len() implies item[k] != sep by {
        assert(piece.contains(piece[from + k]));
    }
}

/// Turning backslashes into slashes keeps every other character and the length.
pub proof fn law_only_backslashes_turn(s: Seq<char>)
    ensures
        slashed(s).len() == s.len(),
        forall|i: int| 0 <= i < s.len() && s[i] == '\\' ==> #[trigger] slashed(s)[i] == '/',
        forall|i: int| 0 <= i < s.len() && s[i] != '\\' ==> #[trigger] slashed(s)[i] == s[i],
{
}

/// A text holds another exactly when it is something, the other, and something
/// more.
pub proof fn law_containing_means_standing_between(whole: Seq<char>, part: Seq<char>)
    ensures
        contains_text(whole, part) <==> exists|before: Seq<char>, after: Seq<char>|
            whole == #[trigger] (before + part + after),
{
    if contains_text(whole, part) {
        let at = choose|at: int| stands_at(whole, part, at);
        let before = whole.take(at);
        let after = whole.skip(at + part.len());
        assert(whole =~= before + whole.subrange(at, at + part.len()) + after);
        assert(whole == before + part + after);
    }
    if exists|before: Seq<char>, after: Seq<char>| whole == #[trigger] (before + part + after) {
        let (before, after) = choose|before: Seq<char>, after: Seq<char>|
            whole == #[trigger] (before + part + after);
        let at = before.len() as int;
        assert(whole.subrange(at, at + part.len()) =~= part);
        assert(stands_at(whole, part, at));
    }
}

/// A text begins with a character exactly when it is that character and
/// something more.
pub proof fn law_beginning_means_standing_first(s: Seq<char>, c: char)
    ensures
        begins_with(s, c) <==> exists|rest: Seq<char>| s == #[trigger] (seq![c] + rest),
{
    if begins_with(s, c) {
        assert(s =~= seq![c] + s.drop_first());
    }
    if exists|rest: Seq<char>| s == #[trigger] (seq![c] + rest) {
        let rest = choose|rest: Seq<char>| s == #[trigger] (seq![c] + rest);
        assert((seq![c] + rest)[0] == c);
    }
}

/// Trimming takes away white space, at the two ends, and all of it there.
pub proof fn law_trimming_takes_the_ends(before: Seq<char>, core: Seq<char>, after: Seq<char>)
    requires
        forall|i: int| 0 <= i < before.len() ==> whitespace(#[trigger] before[i]),
        forall|i: int| 0 <= i < after.len() ==> whitespace(#[trigger] after[i]),
        core.len() > 0 ==> !whitespace(core[0]) && !whitespace(core.last()),
    ensures
        trimmed(before + core + after) == core,
    decreases before.len() + after.len(),
{
    let s = before + core + after;
    if before.len() > 0 {
        assert(s[0] == before[0]);
        assert(s.drop_first() =~= before.drop_first() + core + after);
        law_trimming_takes_the_ends(before.drop_first(), core, after);
    } else if core.len() == 0 {
        assert(s =~= after);
        lemma_blank_start(after);
        assert(core =~= Seq::<char>::empty());
    } else {
        assert(s =~= core + after);
        assert(s[0] == core[0]);
        assert(trimmed_start(s) == s);
        lemma_trim_after(core, after);
    }
}

proof fn lemma_blank_start(s: Seq<char>)
    requires
        forall|i: int| 0 <= i < s.len() ==> whitespace(#[trigger] s[i]),
    ensures
        trimmed(s) == Seq::<char>::empty(),
    decreases s.len(),
{
    if s.len() > 0 {
        lemma_blank_start(s.drop_first());
    } else {
        assert(s =~= Seq::<char>::empty());
    }
}

proof fn lemma_trim_after(core: Seq<char>, after: Seq<char>)
    requires
        core.len() > 0,
        !whitespace(core.last()),
        forall|i: int| 0 <= i < after.len() ==> whitespace(#[trigger] after[i]),
    ensures
        trimmed_end(core + after) == core,
    decreases after.len(),
{
    let s = core + after;
    if after.len() > 0 {
        assert(s.last() == after.last());
        assert(s.drop_last() =~= core + after.drop_last());
        lemma_trim_after(core, after.drop_last());
    } else {
        assert(s =~= core);
    }
}

proof fn lemma_pieces_joined(a: Seq<char>, b: Seq<char>, sep: char)
    ensures
        pieces(a + seq![sep] + b, sep) == pieces(a, sep) + pieces(b, sep),
    decreases b.len(),
{
    let s = a + seq![sep] + b;
    if b.len() == 0 {
        assert(s.drop_last() =~= a);
        assert(s.last() == sep);
        assert(pieces(a, sep).push(Seq::empty()) =~= pieces(a, sep) + pieces(b, sep));
    } else {
        lemma_pieces_joined(a, b.drop_last(), sep);
        lemma_pieces_nonempty(b.drop_last(), sep);
        assert(s.drop_last() =~= a + seq![sep] + b.drop_last());
        assert(s.last() == b.last());
        assert(pieces(s, sep) =~= pieces(a, sep) + pieces(b, sep));
    }
}

proof fn lemma_kept_items_joined(p: Seq<Seq<char>>, q: Seq<Seq<char>>)
    ensures
        kept_items(p + q) == kept_items(p) + kept_items(q),
    decreases q.len(),
{
    if q.len() == 0 {
        assert(p + q =~= p);
        reveal(Seq::filter);
        assert(q.map_values(|s: Seq<char>| trimmed(s)) =~= Seq::<Seq<char>>::empty());
        assert(kept_items(p) + kept_items(q) =~= kept_items(p));
    } else {
        lemma_kept_items_joined(p, q.drop_last());
        assert(q == q.drop_last().push(q.last()));
        assert(p + q =~= (p + q.drop_last()).push(q.last()));
        lemma_kept_items_push(p + q.drop_last(), q.last());
        lemma_kept_items_push(q.drop_last(), q.last());
        assert(kept_items(p + q) =~= kept_items(p) + kept_items(q));
    }
}

/// What a list says before a separator and what it says after it are listed
/// one after the other.
pub proof fn law_separator_parts_the_list(a: Seq<char>, b: Seq<char>, sep: char)
    ensures
        list_items(a + seq![sep] + b, sep) == list_items(a, sep) + list_items(b, sep),
{
    lemma_pieces_joined(a, b, sep);
    lemma_kept_items_joined(pieces(a, sep), pieces(b, sep));
}

proof fn lemma_pieces_of_one(s: Seq<char>, sep: char)
    requires
        !s.contains(sep),
    ensures
        pieces(s, sep) == seq![s],
    decreases s.len(),
{
    if s.len() == 0 {
        assert(s =~= Seq::<char>::empty());
    } else {
        assert(s.last() != sep);
        assert forall|i: int| 0 <= i < s.drop_last().len() implies s.drop_last()[i] != sep by {
            assert(s.contains(s[i]));
        }
        lemma_pieces_of_one(s.drop_last(), sep);
        assert(s.drop_last().push(s.last()) =~= s);
        assert(pieces(s, sep) =~= seq![s]);
    }
}

/// A list without a separator has one item, what stands between the white
/// space at its ends, or none if nothing does.
pub proof fn law_list_of_one(before: Seq<char>, core: Seq<char>, after: Seq<char>, sep: char)
    requires
        !(before + core + after).contains(sep),
        forall|i: int| 0 <= i < before.len() ==> whitespace(#[trigger] before[i]),
        forall|i: int| 0 <= i < after.len() ==> whitespace(#[trigger] after[i]),
        core.len() > 0 ==> !whitespace(core[0]) && !whitespace(core.last()),
    ensures
        core.len() > 0 ==> list_items(before + core + after, sep) == seq![core],
        core.len() == 0 ==> list_items(before + core + after, sep) == Seq::<Seq<char>>::empty(),
{
    let s = before + core + after;
    lemma_pieces_of_one(s, sep);
    law_trimming_takes_the_ends(before, core, after);
    let none = Seq::<Seq<char>>::empty();
    reveal(Seq::filter);
    assert(none.map_values(|t: Seq<char>| trimmed(t)) =~= none);
    lemma_kept_items_push(none, s);
    assert(none.push(s) =~= seq![s]);
    assert(none.push(core) =~= seq![core]);
}

} // verus!
