//! The mathematical model of a tag set: a strictly ascending sequence of
//! character sequences, and what adding and removing a tag does to it.

use crate::lex::{
    lemma_lex_lt_asymmetric, lemma_lex_lt_irreflexive, lemma_lex_lt_total,
    lemma_lex_lt_transitive, lex_lt,
};
use crate::smallstring::SmallStringError;
use crate::tagset::TagSetError;
use crate::text::{is_plain, joined, lemma_tag_texts_of_joined, tag_texts};
use vstd::prelude::*;

verus! {

/// Every element comes strictly before all later ones, so none occurs twice.
pub open spec fn strictly_ascending(s: Seq<Seq<char>>) -> bool {
    forall|i: int, j: int| 0 <= i < j < s.len() ==> lex_lt(#[trigger] s[i], #[trigger] s[j])
}

/// How many elements of `s` come strictly before `t`.
pub open spec fn rank(s: Seq<Seq<char>>, t: Seq<char>) -> int
    decreases s.len(),
{
    if s.len() == 0 {
        0
    } else {
        rank(s.drop_last(), t) + if lex_lt(s.last(), t) {
            1int
        } else {
            0int
        }
    }
}

/// `s` with `t` among its elements: unchanged if `t` is there already,
/// else with `t` put behind the elements that come before it.
pub open spec fn with_tag(s: Seq<Seq<char>>, t: Seq<char>) -> Seq<Seq<char>> {
    if s.contains(t) {
        s
    } else {
        s.insert(rank(s, t), t)
    }
}

/// `s` without `t`: unchanged if `t` is not there, else with its first
/// occurrence taken out.
pub open spec fn without_tag(s: Seq<Seq<char>>, t: Seq<char>) -> Seq<Seq<char>> {
    if s.contains(t) {
        s.remove(s.index_of(t))
    } else {
        s
    }
}

/// What adding the text `t` to the set `s` gives, where a set has room for
/// `max_tags` tags of at most `max_len` characters: the error if `t` is too
/// long, `s` itself if it holds `t` already, the error if `s` is full, and
/// else `s` with `t` at its place in the order.
pub open spec fn add_outcome(s: Seq<Seq<char>>, t: Seq<char>, max_tags: usize, max_len: usize) -> Result<
    Seq<Seq<char>>,
    TagSetError,
> {
    if t.len() > max_len {
        Err(
            TagSetError::InvalidTag(
                SmallStringError::TooLong { actual: t.len() as usize, max: max_len },
            ),
        )
    } else if s.contains(t) {
        Ok(s)
    } else if s.len() >= max_tags {
        Err(TagSetError::TooManyTags { actual: (s.len() + 1) as usize, max: max_tags })
    } else {
        Ok(with_tag(s, t))
    }
}

/// What adding the texts of `tags` to `s` one after the other gives: the
/// first error, if adding one of them fails, and else the set that holds
/// them all.
pub open spec fn add_all(
    s: Seq<Seq<char>>,
    tags: Seq<Seq<char>>,
    max_tags: usize,
    max_len: usize,
) -> Result<Seq<Seq<char>>, TagSetError>
    decreases tags.len(),
{
    if tags.len() == 0 {
        Ok(s)
    } else {
        match add_outcome(s, tags[0], max_tags, max_len) {
            Ok(next) => add_all(next, tags.drop_first(), max_tags, max_len),
            Err(e) => Err(e),
        }
    }
}

/// What reading a set from the comma-separated `text` gives: the tags
/// that the text names, added to the empty set in the order in which it
/// names them, or the error of the first that cannot be added.
pub open spec fn parse_outcome(text: Seq<char>, max_tags: usize, max_len: usize) -> Result<
    Seq<Seq<char>>,
    TagSetError,
> {
    add_all(Seq::empty(), tag_texts(text), max_tags, max_len)
}

/// The elements of `a` that are elements of `b` too, in the order of `a`.
pub open spec fn common(a: Seq<Seq<char>>, b: Seq<Seq<char>>) -> Seq<Seq<char>> {
    a.filter(|t: Seq<char>| b.contains(t))
}

/// Adding a first text and then others is adding that text and, if that
/// went well, the others to what it gave.
pub proof fn lemma_add_all_first(
    s: Seq<Seq<char>>,
    t: Seq<char>,
    rest: Seq<Seq<char>>,
    max_tags: usize,
    max_len: usize,
)
    ensures
        add_all(s, seq![t] + rest, max_tags, max_len) == match add_outcome(
            s,
            t,
            max_tags,
            max_len,
        ) {
            Ok(next) => add_all(next, rest, max_tags, max_len),
            Err(e) => Err(e),
        },
{
    let tags = seq![t] + rest;
    assert(tags[0] == t);
    assert(tags.drop_first() =~= rest);
}

/// Adding two lists of texts one after the other is adding the first and,
/// if that went well, the second to what it gave.
pub proof fn lemma_add_all_split(
    s: Seq<Seq<char>>,
    first: Seq<Seq<char>>,
    second: Seq<Seq<char>>,
    max_tags: usize,
    max_len: usize,
)
    ensures
        add_all(s, first + second, max_tags, max_len) == match add_all(
            s,
            first,
            max_tags,
            max_len,
        ) {
            Ok(next) => add_all(next, second, max_tags, max_len),
            Err(e) => Err(e),
        },
    decreases first.len(),
{
    if first.len() == 0 {
        assert(first + second =~= second);
    } else {
        let tags = first + second;
        assert(tags[0] == first[0]);
        assert(tags.drop_first() =~= first.drop_first() + second);
        match add_outcome(s, first[0], max_tags, max_len) {
            Ok(next) => {
                lemma_add_all_split(next, first.drop_first(), second, max_tags, max_len);
            },
            Err(_) => {},
        }
    }
}

/// The rank is a position of the sequence, its end included.
pub proof fn lemma_rank_bounds(s: Seq<Seq<char>>, t: Seq<char>)
    ensures
        0 <= rank(s, t) <= s.len(),
    decreases s.len(),
{
    if s.len() > 0 {
        lemma_rank_bounds(s.drop_last(), t);
    }
}

/// In an ascending sequence the rank of `t` is the one position that has
/// only smaller elements before it and none from it on.
pub proof fn lemma_rank_is_split_point(s: Seq<Seq<char>>, t: Seq<char>, p: int)
    requires
        0 <= p <= s.len(),
        forall|i: int| 0 <= i < p ==> lex_lt(#[trigger] s[i], t),
        forall|i: int| p <= i < s.len() ==> !lex_lt(#[trigger] s[i], t),
    ensures
        rank(s, t) == p,
    decreases s.len(),
{
    if s.len() > 0 {
        let init = s.drop_last();
        if p == s.len() {
            lemma_rank_is_split_point(init, t, p - 1);
        } else {
            lemma_rank_is_split_point(init, t, p);
        }
    }
}

/// Where an ascending sequence splits around `t`: everything before the
/// rank is smaller than `t`, everything from the rank on is not.
pub proof fn lemma_rank_splits(s: Seq<Seq<char>>, t: Seq<char>)
    requires
        strictly_ascending(s),
    ensures
        0 <= rank(s, t) <= s.len(),
        forall|i: int| 0 <= i < rank(s, t) ==> lex_lt(#[trigger] s[i], t),
        forall|i: int| rank(s, t) <= i < s.len() ==> !lex_lt(#[trigger] s[i], t),
    decreases s.len(),
{
    if s.len() > 0 {
        let init = s.drop_last();
        lemma_rank_splits(init, t);
        let p = rank(init, t);
        if lex_lt(s.last(), t) {
            assert forall|i: int| 0 <= i < s.len() implies lex_lt(#[trigger] s[i], t) by {
                if i < s.len() - 1 {
                    lemma_lex_lt_transitive(s[i], s.last(), t);
                }
            }
            assert(p == init.len()) by {
                lemma_rank_is_split_point(init, t, init.len() as int);
            }
        } else {
            assert forall|i: int| 0 <= i < p implies lex_lt(#[trigger] s[i], t) by {
                assert(s[i] == init[i]);
            }
            assert forall|i: int| p <= i < s.len() implies !lex_lt(#[trigger] s[i], t) by {
                if i < s.len() - 1 {
                    assert(s[i] == init[i]);
                }
            }
        }
    }
}

/// Adding a tag keeps the sequence strictly ascending.
pub proof fn lemma_with_tag_ascending(s: Seq<Seq<char>>, t: Seq<char>)
    requires
        strictly_ascending(s),
    ensures
        strictly_ascending(with_tag(s, t)),
{
    if !s.contains(t) {
        lemma_rank_splits(s, t);
        let p = rank(s, t);
        let r = s.insert(p, t);
        assert forall|i: int, j: int| 0 <= i < j < r.len() implies lex_lt(
            #[trigger] r[i],
            #[trigger] r[j],
        ) by {
            if j == p {
                assert(r[i] == s[i]);
            } else if i == p {
                assert(r[j] == s[j - 1]);
                assert(s.contains(s[j - 1]));
                lemma_lex_lt_total(s[j - 1], t);
            } else {
                let i0 = if i < p { i } else { i - 1 };
                let j0 = if j < p { j } else { j - 1 };
                assert(r[i] == s[i0]);
                assert(r[j] == s[j0]);
            }
        }
    }
}

/// After adding a tag the elements are the old ones and the tag.
pub proof fn lemma_with_tag_contains(s: Seq<Seq<char>>, t: Seq<char>, x: Seq<char>)
    ensures
        with_tag(s, t).contains(x) <==> (s.contains(x) || x == t),
{
    if !s.contains(t) {
        lemma_rank_bounds(s, t);
        let p = rank(s, t);
        let r = s.insert(p, t);
        assert(r[p] == t);
        if s.contains(x) {
            let i = s.index_of(x);
            if i < p {
                assert(r[i] == x);
            } else {
                assert(r[i + 1] == x);
            }
        }
        if r.contains(x) && x != t {
            let j = r.index_of(x);
            if j < p {
                assert(s[j] == x);
            } else {
                assert(s[j - 1] == x);
            }
        }
    }
}

/// Removing a tag keeps the sequence strictly ascending.
pub proof fn lemma_without_tag_ascending(s: Seq<Seq<char>>, t: Seq<char>)
    requires
        strictly_ascending(s),
    ensures
        strictly_ascending(without_tag(s, t)),
{
    if s.contains(t) {
        let p = s.index_of(t);
        let r = s.remove(p);
        assert forall|i: int, j: int| 0 <= i < j < r.len() implies lex_lt(
            #[trigger] r[i],
            #[trigger] r[j],
        ) by {
            let i0 = if i < p { i } else { i + 1 };
            let j0 = if j < p { j } else { j + 1 };
            assert(r[i] == s[i0]);
            assert(r[j] == s[j0]);
        }
    }
}

/// An ascending sequence holds each of its elements at one position only.
pub proof fn lemma_ascending_position_unique(s: Seq<Seq<char>>, i: int, j: int)
    requires
        strictly_ascending(s),
        0 <= i < s.len(),
        0 <= j < s.len(),
        s[i] == s[j],
    ensures
        i == j,
{
    lemma_lex_lt_irreflexive(s[i]);
}

/// After removing a tag from an ascending sequence the elements are the
/// old ones but the tag.
pub proof fn lemma_without_tag_contains(s: Seq<Seq<char>>, t: Seq<char>, x: Seq<char>)
    requires
        strictly_ascending(s),
    ensures
        without_tag(s, t).contains(x) <==> (s.contains(x) && x != t),
{
    if s.contains(t) {
        let p = s.index_of(t);
        let r = s.remove(p);
        if s.contains(x) && x != t {
            let i = s.index_of(x);
            if i < p {
                assert(r[i] == x);
            } else {
                assert(r[i - 1] == x);
            }
        }
        if r.contains(x) {
            let j = r.index_of(x);
            let j0 = if j < p { j } else { j + 1 };
            assert(s[j0] == x);
            if x == t {
                lemma_ascending_position_unique(s, j0, p);
            }
        }
    }
}

/// A strictly ascending sequence holds nothing twice.
pub proof fn lemma_ascending_no_duplicates(s: Seq<Seq<char>>)
    requires
        strictly_ascending(s),
    ensures
        s.no_duplicates(),
{
    assert forall|i: int, j: int| 0 <= i < s.len() && 0 <= j < s.len() && i != j implies s[i]
        != s[j] by {
        if s[i] == s[j] {
            lemma_ascending_position_unique(s, i, j);
        }
    }
}

/// Two strictly ascending sequences with the same elements are the same
/// sequence: the order in which the elements came in leaves no trace.
pub proof fn lemma_ascending_determined_by_elements(a: Seq<Seq<char>>, b: Seq<Seq<char>>)
    requires
        strictly_ascending(a),
        strictly_ascending(b),
        forall|x: Seq<char>| a.contains(x) <==> b.contains(x),
    ensures
        a == b,
    decreases a.len(),
{
    if a.len() == 0 {
        if b.len() > 0 {
            assert(b.contains(b[0]));
        }
        assert(a =~= b);
    } else {
        assert(a.contains(a[0]));
        let la = a.last();
        let lb = b.last();
        assert(a.contains(la));
        assert(b.contains(lb));
        let ja = a.index_of(lb);
        let jb = b.index_of(la);
        lemma_lex_lt_asymmetric(la, lb);
        assert(la == lb);
        let a0 = a.drop_last();
        let b0 = b.drop_last();
        assert forall|x: Seq<char>| a0.contains(x) <==> b0.contains(x) by {
            lemma_lex_lt_irreflexive(la);
            if a0.contains(x) {
                let i = a0.index_of(x);
                assert(a[i] == x);
                assert(a.contains(x));
                let j = b.index_of(x);
                assert(b0[j] == x);
            }
            if b0.contains(x) {
                let i = b0.index_of(x);
                assert(b[i] == x);
                assert(b.contains(x));
                let j = a.index_of(x);
                assert(a0[j] == x);
            }
        }
        lemma_ascending_determined_by_elements(a0, b0);
        assert(a =~= a0.push(la));
        assert(b =~= b0.push(lb));
    }
}

/// Adding a tag a second time changes nothing: what the first adding
/// gave, the second gives again.
pub proof fn lemma_add_idempotent(s: Seq<Seq<char>>, t: Seq<char>, max_tags: usize, max_len: usize)
    ensures
        add_outcome(s, t, max_tags, max_len) matches Ok(once) ==> add_outcome(
            once,
            t,
            max_tags,
            max_len,
        ) == Ok::<Seq<Seq<char>>, TagSetError>(once),
{
    lemma_with_tag_contains(s, t, t);
}

/// Adding a tag to a set within its bounds gives a set within its bounds:
/// strictly ascending, with room for it, each tag of a length that fits.
pub proof fn lemma_add_keeps_bounds(s: Seq<Seq<char>>, t: Seq<char>, max_tags: usize, max_len: usize)
    requires
        strictly_ascending(s),
        s.len() <= max_tags,
        forall|i: int| 0 <= i < s.len() ==> (#[trigger] s[i]).len() <= max_len,
    ensures
        add_outcome(s, t, max_tags, max_len) matches Ok(next) ==> {
            &&& strictly_ascending(next)
            &&& next.len() <= max_tags
            &&& forall|i: int| 0 <= i < next.len() ==> (#[trigger] next[i]).len() <= max_len
            &&& forall|x: Seq<char>| next.contains(x) <==> (s.contains(x) || x == t)
        },
{
    if let Ok(next) = add_outcome(s, t, max_tags, max_len) {
        lemma_with_tag_ascending(s, t);
        lemma_rank_bounds(s, t);
        assert forall|x: Seq<char>| next.contains(x) <==> (s.contains(x) || x == t) by {
            lemma_with_tag_contains(s, t, x);
        }
        assert forall|i: int| 0 <= i < next.len() implies (#[trigger] next[i]).len()
            <= max_len by {
            assert(next.contains(next[i]));
            if next[i] != t {
                let j = s.index_of(next[i]);
            }
        }
    }
}

/// Adding several tags to a set within its bounds gives, where it goes
/// well, a strictly ascending set within its bounds.
pub proof fn lemma_add_all_keeps_bounds(
    s: Seq<Seq<char>>,
    tags: Seq<Seq<char>>,
    max_tags: usize,
    max_len: usize,
)
    requires
        strictly_ascending(s),
        s.len() <= max_tags,
        forall|i: int| 0 <= i < s.len() ==> (#[trigger] s[i]).len() <= max_len,
    ensures
        add_all(s, tags, max_tags, max_len) matches Ok(all) ==> {
            &&& strictly_ascending(all)
            &&& all.len() <= max_tags
            &&& forall|i: int| 0 <= i < all.len() ==> (#[trigger] all[i]).len() <= max_len
        },
    decreases tags.len(),
{
    if tags.len() > 0 {
        lemma_add_keeps_bounds(s, tags[0], max_tags, max_len);
        if let Ok(next) = add_outcome(s, tags[0], max_tags, max_len) {
            lemma_add_all_keeps_bounds(next, tags.drop_first(), max_tags, max_len);
        }
    }
}

/// The order in which two tags are added leaves no trace.
pub proof fn lemma_with_tag_commutes(s: Seq<Seq<char>>, a: Seq<char>, b: Seq<char>)
    requires
        strictly_ascending(s),
    ensures
        with_tag(with_tag(s, a), b) == with_tag(with_tag(s, b), a),
{
    let ab = with_tag(with_tag(s, a), b);
    let ba = with_tag(with_tag(s, b), a);
    lemma_with_tag_ascending(s, a);
    lemma_with_tag_ascending(with_tag(s, a), b);
    lemma_with_tag_ascending(s, b);
    lemma_with_tag_ascending(with_tag(s, b), a);
    assert forall|x: Seq<char>| ab.contains(x) <==> ba.contains(x) by {
        lemma_with_tag_contains(s, a, x);
        lemma_with_tag_contains(with_tag(s, a), b, x);
        lemma_with_tag_contains(s, b, x);
        lemma_with_tag_contains(with_tag(s, b), a, x);
    }
    lemma_ascending_determined_by_elements(ab, ba);
}

/// Removing a tag that is in a strictly ascending set makes the set one
/// shorter and leaves the tag in it no more; removing one that is not in
/// it changes nothing.
pub proof fn lemma_without_tag_outcome(s: Seq<Seq<char>>, t: Seq<char>)
    requires
        strictly_ascending(s),
    ensures
        s.contains(t) ==> without_tag(s, t).len() == s.len() - 1,
        !s.contains(t) ==> without_tag(s, t) == s,
        !without_tag(s, t).contains(t),
{
    lemma_without_tag_contains(s, t, t);
}

/// What two sets have in common is what is an element of both.
pub proof fn lemma_common_contains(a: Seq<Seq<char>>, b: Seq<Seq<char>>, x: Seq<char>)
    ensures
        common(a, b).contains(x) <==> (a.contains(x) && b.contains(x)),
{
    let pred = |t: Seq<char>| b.contains(t);
    if common(a, b).contains(x) {
        a.lemma_filter_contains_rev(pred, x);
        let i = common(a, b).index_of(x);
        a.lemma_filter_pred(pred, i);
    }
    if a.contains(x) && b.contains(x) {
        let i = a.index_of(x);
        a.lemma_filter_contains(pred, i);
    }
}

/// What a strictly ascending set has in common with another is strictly
/// ascending and no longer than either.
pub proof fn lemma_common_ascending(a: Seq<Seq<char>>, b: Seq<Seq<char>>)
    requires
        strictly_ascending(a),
    ensures
        strictly_ascending(common(a, b)),
        common(a, b).len() <= a.len(),
    decreases a.len(),
{
    let pred = |t: Seq<char>| b.contains(t);
    reveal(Seq::filter);
    if a.len() > 0 {
        let a0 = a.drop_last();
        lemma_common_ascending(a0, b);
        let c0 = common(a0, b);
        let c = common(a, b);
        if pred(a.last()) {
            assert(c == c0.push(a.last()));
            assert forall|i: int, j: int| 0 <= i < j < c.len() implies lex_lt(
                #[trigger] c[i],
                #[trigger] c[j],
            ) by {
                if j == c.len() - 1 {
                    assert(c0.contains(c0[i]));
                    lemma_common_contains(a0, b, c0[i]);
                    let k = a0.index_of(c0[i]);
                    assert(a[k] == c0[i]);
                } else {
                    assert(c[i] == c0[i] && c[j] == c0[j]);
                }
            }
        }
    }
}

/// What two strictly ascending sets have in common does not depend on
/// which of them is asked.
pub proof fn lemma_common_symmetric(a: Seq<Seq<char>>, b: Seq<Seq<char>>)
    requires
        strictly_ascending(a),
        strictly_ascending(b),
    ensures
        common(a, b) == common(b, a),
{
    lemma_common_ascending(a, b);
    lemma_common_ascending(b, a);
    assert forall|x: Seq<char>| common(a, b).contains(x) <==> common(b, a).contains(x) by {
        lemma_common_contains(a, b, x);
        lemma_common_contains(b, a, x);
    }
    lemma_ascending_determined_by_elements(common(a, b), common(b, a));
}

/// Where adding several tags goes well, the set then holds what it held
/// before and the tags that were added, and nothing else.
pub proof fn lemma_add_all_contains(
    s: Seq<Seq<char>>,
    tags: Seq<Seq<char>>,
    max_tags: usize,
    max_len: usize,
    x: Seq<char>,
)
    ensures
        add_all(s, tags, max_tags, max_len) matches Ok(all) ==> (all.contains(x) <==> (s.contains(
            x,
        ) || tags.contains(x))),
    decreases tags.len(),
{
    if tags.len() > 0 {
        let rest = tags.drop_first();
        assert(tags.contains(x) <==> (x == tags[0] || rest.contains(x))) by {
            if tags.contains(x) {
                let i = tags.index_of(x);
                if i > 0 {
                    assert(rest[i - 1] == x);
                }
            }
            if rest.contains(x) {
                let i = rest.index_of(x);
                assert(tags[i + 1] == x);
            }
        }
        if let Ok(next) = add_outcome(s, tags[0], max_tags, max_len) {
            lemma_with_tag_contains(s, tags[0], x);
            lemma_add_all_contains(next, rest, max_tags, max_len, x);
        }
    }
}

/// The order in which tags are added, and how often each is named, leaves
/// no trace: two lists that name the same tags give, where adding them
/// goes well, the same set.
pub proof fn lemma_add_all_order_independent(
    s: Seq<Seq<char>>,
    a: Seq<Seq<char>>,
    b: Seq<Seq<char>>,
    max_tags: usize,
    max_len: usize,
)
    requires
        strictly_ascending(s),
        s.len() <= max_tags,
        forall|i: int| 0 <= i < s.len() ==> (#[trigger] s[i]).len() <= max_len,
        forall|x: Seq<char>| a.contains(x) <==> b.contains(x),
        add_all(s, a, max_tags, max_len) is Ok,
        add_all(s, b, max_tags, max_len) is Ok,
    ensures
        add_all(s, a, max_tags, max_len) == add_all(s, b, max_tags, max_len),
{
    let ra = add_all(s, a, max_tags, max_len)->Ok_0;
    let rb = add_all(s, b, max_tags, max_len)->Ok_0;
    lemma_add_all_keeps_bounds(s, a, max_tags, max_len);
    lemma_add_all_keeps_bounds(s, b, max_tags, max_len);
    assert forall|x: Seq<char>| ra.contains(x) <==> rb.contains(x) by {
        lemma_add_all_contains(s, a, max_tags, max_len, x);
        lemma_add_all_contains(s, b, max_tags, max_len, x);
    }
    lemma_ascending_determined_by_elements(ra, rb);
}

/// Two texts that name the same tags, in whatever order, read as the same
/// set where both can be read.
pub proof fn lemma_parse_order_independent(
    a: Seq<char>,
    b: Seq<char>,
    max_tags: usize,
    max_len: usize,
)
    requires
        forall|x: Seq<char>| tag_texts(a).contains(x) <==> tag_texts(b).contains(x),
        parse_outcome(a, max_tags, max_len) is Ok,
        parse_outcome(b, max_tags, max_len) is Ok,
    ensures
        parse_outcome(a, max_tags, max_len) == parse_outcome(b, max_tags, max_len),
{
    lemma_add_all_order_independent(
        Seq::empty(),
        tag_texts(a),
        tag_texts(b),
        max_tags,
        max_len,
    );
}

/// A set that was read from a text is strictly ascending and within its
/// bounds.
pub proof fn lemma_parse_keeps_bounds(text: Seq<char>, max_tags: usize, max_len: usize)
    ensures
        parse_outcome(text, max_tags, max_len) matches Ok(all) ==> {
            &&& strictly_ascending(all)
            &&& all.len() <= max_tags
            &&& forall|i: int| 0 <= i < all.len() ==> (#[trigger] all[i]).len() <= max_len
            &&& forall|x: Seq<char>| all.contains(x) <==> tag_texts(text).contains(x)
        },
{
    lemma_add_all_keeps_bounds(Seq::empty(), tag_texts(text), max_tags, max_len);
    if let Ok(all) = parse_outcome(text, max_tags, max_len) {
        assert forall|x: Seq<char>| all.contains(x) <==> tag_texts(text).contains(x) by {
            lemma_add_all_contains(Seq::empty(), tag_texts(text), max_tags, max_len, x);
        }
    }
}

/// Adding the tags of a strictly ascending list in their order puts each
/// behind those before it.
pub proof fn lemma_add_all_ascending_run(
    done: Seq<Seq<char>>,
    todo: Seq<Seq<char>>,
    max_tags: usize,
    max_len: usize,
)
    requires
        strictly_ascending(done + todo),
        done.len() + todo.len() <= max_tags,
        forall|i: int| 0 <= i < todo.len() ==> (#[trigger] todo[i]).len() <= max_len,
    ensures
        add_all(done, todo, max_tags, max_len) == Ok::<Seq<Seq<char>>, TagSetError>(done + todo),
    decreases todo.len(),
{
    let all = done + todo;
    if todo.len() == 0 {
        assert(all =~= done);
    } else {
        let t = todo[0];
        assert(all[done.len() as int] == t);
        assert(!done.contains(t)) by {
            if done.contains(t) {
                let i = done.index_of(t);
                assert(all[i] == t);
                lemma_ascending_position_unique(all, i, done.len() as int);
            }
        }
        assert forall|i: int| 0 <= i < done.len() implies lex_lt(#[trigger] done[i], t) by {
            assert(all[i] == done[i]);
        }
        lemma_rank_is_split_point(done, t, done.len() as int);
        let next = done.push(t);
        assert(with_tag(done, t) =~= next);
        assert(next + todo.drop_first() =~= all);
        assert forall|i: int| 0 <= i < todo.drop_first().len() implies (
        #[trigger] todo.drop_first()[i]).len() <= max_len by {
            assert(todo.drop_first()[i] == todo[i + 1]);
        }
        lemma_add_all_ascending_run(next, todo.drop_first(), max_tags, max_len);
    }
}

/// A set written out as its tags joined by commas reads back as itself,
/// where each tag is plain: not empty, without comma or whitespace.
pub proof fn lemma_parse_of_joined(s: Seq<Seq<char>>, max_tags: usize, max_len: usize)
    requires
        strictly_ascending(s),
        s.len() <= max_tags,
        forall|i: int| 0 <= i < s.len() ==> is_plain(#[trigger] s[i]) && s[i].len() <= max_len,
    ensures
        parse_outcome(joined(s), max_tags, max_len) == Ok::<Seq<Seq<char>>, TagSetError>(s),
{
    lemma_tag_texts_of_joined(s);
    assert(Seq::<Seq<char>>::empty() + s =~= s);
    lemma_add_all_ascending_run(Seq::empty(), s, max_tags, max_len);
}

} // verus!
