//! Wildcard patterns for file names.
use vstd::prelude::*;
use crate::text;

verus! {

/// Whether a wildcard pattern matches the whole of a text: `?` stands for any
/// one character, `*` for any run of characters, the empty run too, and every
/// other character for itself.
pub open spec fn wild_matches(pattern: Seq<char>, text: Seq<char>) -> bool
    decreases pattern.len() + text.len(),
{
    if pattern.len() == 0 {
        text.len() == 0
    } else if pattern[0] == '*' {
        ||| wild_matches(pattern.drop_first(), text)
        ||| text.len() > 0 && wild_matches(pattern, text.drop_first())
    } else {
        &&& text.len() > 0
        &&& pattern[0] == '?' || pattern[0] == text[0]
        &&& wild_matches(pattern.drop_first(), text.drop_first())
    }
}

/// Calls `WildMatch::new` and `WildMatch::matches` of the `wildmatch` crate.
/// Unproved: the answer is whether `pattern`, with `*` and `?` as its
/// wildcards and letters compared exactly, matches the whole of `text`.
#[verifier::external_body]
pub(crate) fn wild_match(pattern: &str, text: &str) -> (r: bool)
    ensures
        r == wild_matches(pattern@, text@),
{
    wildmatch::WildMatch::new(pattern).matches(text)
}

/// Whether some pattern of a list matches a text.
pub open spec fn any_matches(patterns: Seq<String>, text: Seq<char>) -> bool {
    exists|i: int| 0 <= i < patterns.len() && #[trigger] wild_matches(patterns[i]@, text)
}

/// Which patterns match rests on their texts alone.
pub(crate) proof fn lemma_matches_by_texts(x: Seq<String>, y: Seq<String>, s: Seq<char>)
    requires
        text::texts(x) == text::texts(y),
    ensures
        any_matches(x, s) == any_matches(y, s),
{
    assert(x.len() == text::texts(x).len() && y.len() == text::texts(y).len());
    assert forall|i: int| 0 <= i < x.len() implies (#[trigger] x[i])@ == y[i]@ by {
        assert(text::texts(x)[i] == text::texts(y)[i]);
    }
    if any_matches(x, s) {
        let i = choose|i: int| 0 <= i < x.len() && #[trigger] wild_matches(x[i]@, s);
        assert(wild_matches(y[i]@, s));
    }
    if any_matches(y, s) {
        let i = choose|i: int| 0 <= i < y.len() && #[trigger] wild_matches(y[i]@, s);
        assert(x[i]@ == y[i]@);
        assert(wild_matches(x[i]@, s));
    }
}

/// Whether some pattern of `patterns` matches the whole of `text`.
pub fn matches_any(patterns: &Vec<String>, text: &str) -> (r: bool)
    ensures
        r == any_matches(patterns@, text@),
{
    let mut i: usize = 0;
    while i < patterns.len()
        invariant
            i <= patterns@.len(),
            forall|k: int| 0 <= k < i ==> !#[trigger] wild_matches(patterns@[k]@, text@),
        decreases patterns@.len() - i,
    {
        if wild_match(patterns[i].as_str(), text) {
            return true;
        }
        i += 1;
    }
    false
}

/// The empty pattern matches the empty text alone; one character matches as it
/// stands: a star anything, a question mark any one character, every other
/// character itself.
pub proof fn law_pattern_of_one(c: char, text: Seq<char>)
    ensures
        wild_matches(Seq::empty(), text) <==> text.len() == 0,
        c == '*' ==> wild_matches(seq![c], text),
        c == '?' ==> (wild_matches(seq![c], text) <==> text.len() == 1),
        c != '*' && c != '?' ==> (wild_matches(seq![c], text) <==> text == seq![c]),
    decreases text.len(),
{
    assert(seq![c].drop_first() =~= Seq::<char>::empty());
    if text.len() > 0 {
        law_pattern_of_one(c, text.drop_first());
        if text.len() == 1 {
            assert(text =~= seq![text[0]]);
        }
    }
    assert(wild_matches(Seq::empty(), text) <==> text.len() == 0);
    if text.len() > 0 {
        assert(wild_matches(Seq::empty(), text.drop_first()) <==> text.drop_first().len() == 0);
    }
}

/// A pattern in two parts matches exactly the texts in two parts that they
/// match.
pub proof fn law_pattern_in_parts(p: Seq<char>, q: Seq<char>, text: Seq<char>)
    ensures
        wild_matches(p + q, text) <==> exists|k: int|
            0 <= k <= text.len() && wild_matches(p, #[trigger] text.take(k)) && wild_matches(
                q,
                text.skip(k),
            ),
{
    if wild_matches(p + q, text) {
        let k = lemma_parts_found(p, q, text);
        assert(wild_matches(p, text.take(k)));
    }
    if exists|k: int|
        0 <= k <= text.len() && wild_matches(p, #[trigger] text.take(k)) && wild_matches(
            q,
            text.skip(k),
        ) {
        let k = choose|k: int|
            0 <= k <= text.len() && wild_matches(p, #[trigger] text.take(k)) && wild_matches(
                q,
                text.skip(k),
            );
        lemma_parts_join(p, q, text, k);
    }
}

proof fn lemma_parts_found(p: Seq<char>, q: Seq<char>, text: Seq<char>) -> (k: int)
    requires
        wild_matches(p + q, text),
    ensures
        0 <= k <= text.len(),
        wild_matches(p, text.take(k)),
        wild_matches(q, text.skip(k)),
    decreases p.len() + text.len(),
{
    if p.len() == 0 {
        assert(p + q =~= q);
        assert(text.skip(0) =~= text);
        0
    } else {
        assert((p + q).drop_first() =~= p.drop_first() + q);
        assert((p + q)[0] == p[0]);
        if p[0] == '*' && wild_matches((p + q).drop_first(), text) {
            lemma_parts_found(p.drop_first(), q, text)
        } else {
            let rest = text.drop_first();
            let k = if p[0] == '*' {
                lemma_parts_found(p, q, rest)
            } else {
                lemma_parts_found(p.drop_first(), q, rest)
            };
            assert(text.take(k + 1).drop_first() =~= rest.take(k));
            assert(text.skip(k + 1) =~= rest.skip(k));
            assert(text.take(k + 1)[0] == text[0]);
            k + 1
        }
    }
}

proof fn lemma_parts_join(p: Seq<char>, q: Seq<char>, text: Seq<char>, k: int)
    requires
        0 <= k <= text.len(),
        wild_matches(p, text.take(k)),
        wild_matches(q, text.skip(k)),
    ensures
        wild_matches(p + q, text),
    decreases p.len() + k,
{
    if p.len() == 0 {
        assert(p + q =~= q);
        assert(text.skip(0) =~= text);
    } else {
        assert((p + q).drop_first() =~= p.drop_first() + q);
        assert((p + q)[0] == p[0]);
        if p[0] == '*' && wild_matches(p.drop_first(), text.take(k)) {
            lemma_parts_join(p.drop_first(), q, text, k);
        } else {
            let rest = text.drop_first();
            assert(text.take(k).drop_first() =~= rest.take(k - 1));
            assert(text.skip(k) =~= rest.skip(k - 1));
            assert(text.take(k)[0] == text[0]);
            if p[0] == '*' {
                lemma_parts_join(p, q, rest, k - 1);
            } else {
                lemma_parts_join(p.drop_first(), q, rest, k - 1);
            }
        }
    }
}

/// A list of patterns matches what one of its patterns matches, and nothing
/// else.
pub proof fn law_list_matches_by_its_patterns(
    patterns: Seq<String>,
    more: Seq<String>,
    pattern: String,
    text: Seq<char>,
)
    ensures
        !any_matches(Seq::empty(), text),
        any_matches(seq![pattern], text) <==> wild_matches(pattern@, text),
        any_matches(patterns + more, text) <==> any_matches(patterns, text) || any_matches(
            more,
            text,
        ),
{
    if wild_matches(pattern@, text) {
        assert(wild_matches(seq![pattern][0]@, text));
    }
    let all = patterns + more;
    if any_matches(patterns, text) {
        let i = choose|i: int|
            0 <= i < patterns.len() && #[trigger] wild_matches(patterns[i]@, text);
        assert(wild_matches(all[i]@, text));
    }
    if any_matches(more, text) {
        let i = choose|i: int| 0 <= i < more.len() && #[trigger] wild_matches(more[i]@, text);
        assert(all[patterns.len() + i] == more[i]);
        assert(wild_matches(all[patterns.len() + i]@, text));
    }
    if any_matches(all, text) {
        let i = choose|i: int| 0 <= i < all.len() && #[trigger] wild_matches(all[i]@, text);
        if i < patterns.len() {
            assert(wild_matches(patterns[i]@, text));
        } else {
            assert(wild_matches(more[i - patterns.len()]@, text));
        }
    }
}

} // verus!
