//! Sorted sets of tags with a fixed capacity.

use crate::lex::{lemma_lex_lt_irreflexive, lemma_lex_lt_transitive, lex_lt};
use crate::model::{
    add_all, add_outcome, common, lemma_add_all_first, lemma_add_all_split,
    lemma_ascending_position_unique, lemma_common_ascending, lemma_common_contains,
    lemma_common_symmetric, lemma_rank_is_split_point, lemma_with_tag_ascending,
    lemma_without_tag_ascending, lemma_without_tag_outcome, parse_outcome, rank,
    strictly_ascending, without_tag,
};
use crate::smallstring::{SmallString, SmallStringError};
use crate::text::{
    is_whitespace, lemma_strip_push, lemma_tag_texts_last, lemma_tag_texts_piece, piece_texts,
    strip_whitespace, tag_texts,
};
use vstd::prelude::*;
use vstd::std_specs::cmp::PartialEqSpecImpl;
use vstd::std_specs::iter::IteratorSpec;

verus! {

/// Why a tag could not be added to a [`TagSet`].
#[derive(Debug, Clone, Copy, PartialEq, Eq, Structural)]
pub enum TagSetError {
    /// The set is full: with the new tag it would hold `actual` tags, more
    /// than the `max` it has room for.
    TooManyTags { actual: usize, max: usize },
    /// A tag of `actual` characters where at most `max` are allowed.
    TagTooLong { actual: usize, max: usize },
    /// The text cannot be stored as a tag.
    InvalidTag(SmallStringError),
}

/// Up to `MAX_TAGS` distinct tags of at most `MAX_TAG_LEN` characters each,
/// kept in ascending lexicographic order whatever the order of insertion.
#[derive(Debug, Clone, Copy)]
pub struct TagSet<const MAX_TAGS: usize, const MAX_TAG_LEN: usize> {
    tags: [SmallString<MAX_TAG_LEN>; MAX_TAGS],
    length: usize,
}

impl<const MAX_TAGS: usize, const MAX_TAG_LEN: usize> View for TagSet<MAX_TAGS, MAX_TAG_LEN> {
    type V = Seq<Seq<char>>;

    /// The tags in ascending order.
    closed spec fn view(&self) -> Seq<Seq<char>> {
        Seq::new(self.length as nat, |i: int| self.tags@[i]@)
    }
}

impl<const MAX_TAGS: usize, const MAX_TAG_LEN: usize> TagSet<MAX_TAGS, MAX_TAG_LEN> {
    /// The tags fit the storage, each fits its bound, and they stand in
    /// strictly ascending order.
    #[verifier::type_invariant]
    pub closed spec fn wf(&self) -> bool {
        &&& self.length <= MAX_TAGS
        &&& forall|i: int| 0 <= i < self.length ==> (#[trigger] self.tags@[i])@.len() <= MAX_TAG_LEN
        &&& strictly_ascending(self@)
    }

    /// What the invariant says of the view.
    pub proof fn lemma_wf_view(&self)
        requires
            self.wf(),
        ensures
            self@.len() <= MAX_TAGS,
            forall|i: int| 0 <= i < self@.len() ==> (#[trigger] self@[i]).len() <= MAX_TAG_LEN,
            strictly_ascending(self@),
    {
    }

    /// The empty set.
    pub fn new() -> (s: Self)
        ensures
            s@ == Seq::<Seq<char>>::empty(),
    {
        TagSet { tags: [SmallString::new();MAX_TAGS], length: 0 }
    }

    /// Adds the tag that a piece of text between two commas names, if it
    /// names one: `current` holds the piece without its whitespace.
    fn add_piece(&mut self, current: &String, piece: Ghost<Seq<char>>) -> (r: Result<
        (),
        TagSetError,
    >)
        requires
            MAX_TAGS < usize::MAX,
            current@ == strip_whitespace(piece@),
        ensures
            match add_all(old(self)@, piece_texts(piece@), MAX_TAGS, MAX_TAG_LEN) {
                Ok(s) => r is Ok && final(self)@ == s,
                Err(e) => r == Err::<(), TagSetError>(e),
            },
    {
        proof {
            lemma_add_all_first(
                self@,
                current@,
                Seq::<Seq<char>>::empty(),
                MAX_TAGS,
                MAX_TAG_LEN,
            );
            assert(seq![current@] + Seq::<Seq<char>>::empty() =~= seq![current@]);
        }
        if current.as_str().is_empty() {
            Ok(())
        } else {
            self.add_tag(current.as_str())
        }
    }

    /// Reads a set from a comma-separated list of tags.
    ///
    /// Whitespace is dropped wherever it stands, inside a tag too, and a
    /// piece with nothing else in it names no tag. The tags are added in
    /// the order of the text; the first that cannot be added ends the
    /// reading with its error.
    ///
    /// As for [`TagSet::add_tag`], `MAX_TAGS` has to stay below `usize::MAX`.
    pub fn from_str(s: &str) -> (r: Result<Self, TagSetError>)
        requires
            MAX_TAGS < usize::MAX,
        ensures
            match parse_outcome(s@, MAX_TAGS, MAX_TAG_LEN) {
                Ok(tags) => r is Ok && r->Ok_0@ == tags,
                Err(e) => r is Err && r->Err_0 == e,
            },
            r is Ok ==> strictly_ascending(r->Ok_0@),
    {
        let mut tagset = Self::new();
        let mut current = String::new();
        let ghost mut piece: Seq<char> = Seq::empty();
        assert(piece + s@.skip(0) =~= s@);
        assert(strip_whitespace(piece) =~= Seq::<char>::empty()) by {
            reveal(Seq::filter);
        }
        for ch in it: s.chars()
            invariant
                MAX_TAGS < usize::MAX,
                it.seq() == s@,
                !piece.contains(','),
                current@ == strip_whitespace(piece),
                parse_outcome(s@, MAX_TAGS, MAX_TAG_LEN) == add_all(
                    tagset@,
                    tag_texts(piece + s@.skip(it.index() as int)),
                    MAX_TAGS,
                    MAX_TAG_LEN,
                ),
        {
            let ghost i = it.index() as int;
            let ghost rest = s@.skip(i + 1);
            if ch == ',' {
                proof {
                    assert(piece + s@.skip(i) =~= piece + seq![','] + rest);
                    lemma_tag_texts_piece(piece, rest);
                    lemma_add_all_split(
                        tagset@,
                        piece_texts(piece),
                        tag_texts(rest),
                        MAX_TAGS,
                        MAX_TAG_LEN,
                    );
                }
                match tagset.add_piece(&current, Ghost(piece)) {
                    Ok(()) => {},
                    Err(e) => {
                        return Err(e);
                    },
                }
                current = String::new();
                proof {
                    piece = Seq::empty();
                    assert(piece + rest =~= rest);
                    assert(strip_whitespace(piece) =~= Seq::<char>::empty()) by {
                        reveal(Seq::filter);
                    }
                }
            } else {
                proof {
                    lemma_strip_push(piece, ch);
                    assert(piece.push(ch) + rest =~= piece + s@.skip(i));
                    assert(!piece.push(ch).contains(',')) by {
                        if piece.push(ch).contains(',') {
                            let k = piece.push(ch).index_of(',');
                            if k < piece.len() {
                                assert(piece[k] == ',');
                            }
                        }
                    }
                }
                if !is_whitespace(ch) {
                    current.push(ch);
                }
                proof {
                    piece = piece.push(ch);
                }
            }
        }
        proof {
            assert(piece + s@.skip(s@.len() as int) =~= piece);
            lemma_tag_texts_last(piece);
        }
        match tagset.add_piece(&current, Ghost(piece)) {
            Ok(()) => {},
            Err(e) => {
                return Err(e);
            },
        }
        proof {
            use_type_invariant(&tagset);
        }
        Ok(tagset)
    }

    /// Number of tags in the set.
    pub fn len(&self) -> (n: usize)
        ensures
            n == self@.len(),
            n <= MAX_TAGS,
    {
        proof {
            use_type_invariant(self);
        }
        self.length
    }

    /// Number of tags the set has room for.
    pub fn capacity(&self) -> (n: usize)
        ensures
            n == MAX_TAGS,
    {
        MAX_TAGS
    }

    /// The tag at position `index` of the ascending order, if there is one.
    pub fn get(&self, index: usize) -> (r: Option<&SmallString<MAX_TAG_LEN>>)
        ensures
            index < self@.len() ==> r is Some && r->Some_0@ == self@[index as int],
            index >= self@.len() ==> r is None,
    {
        proof {
            use_type_invariant(self);
        }
        if index < self.length {
            Some(&self.tags[index])
        } else {
            None
        }
    }

    /// The tags in ascending order. Every call on an unchanged set walks
    /// the same tags in the same order.
    pub fn iter(&self) -> (it: core::slice::Iter<'_, SmallString<MAX_TAG_LEN>>)
        ensures
            it.remaining().len() == self@.len(),
            forall|i: int| 0 <= i < self@.len() ==> (#[trigger] it.remaining()[i])@ == self@[i],
            strictly_ascending(self@),
            it.decrease() is Some,
            it.initial_value_relation(&it),
    {
        proof {
            use_type_invariant(self);
        }
        let all: &[SmallString<MAX_TAG_LEN>] = self.tags.as_slice();
        let used = vstd::slice::slice_subrange(all, 0, self.length);
        used.iter()
    }

    /// Looks `tag` up by binary search: `Ok` with its position if it is in
    /// the set, `Err` with the position where it would have to stand if not.
    fn locate(&self, tag: &SmallString<MAX_TAG_LEN>) -> (r: Result<usize, usize>)
        ensures
            match r {
                Ok(i) => i < self@.len() && self@[i as int] == tag@,
                Err(p) => !self@.contains(tag@) && p == rank(self@, tag@) && p <= self@.len(),
            },
    {
        proof {
            use_type_invariant(self);
        }
        let mut lo: usize = 0;
        let mut hi: usize = self.length;
        while lo < hi
            invariant
                self.wf(),
                lo <= hi <= self.length,
                forall|i: int| 0 <= i < lo ==> lex_lt(#[trigger] self@[i], tag@),
                forall|i: int| hi <= i < self.length ==> lex_lt(tag@, #[trigger] self@[i]),
            decreases hi - lo,
        {
            let mid: usize = lo + (hi - lo) / 2;
            let c: i8 = self.tags[mid].order(tag);
            assert(self@[mid as int] == self.tags@[mid as int]@);
            if c == 0 {
                return Ok(mid);
            } else if c < 0 {
                proof {
                    assert forall|i: int| 0 <= i < mid + 1 implies lex_lt(
                        #[trigger] self@[i],
                        tag@,
                    ) by {
                        if i < mid {
                            lemma_lex_lt_transitive(self@[i], self@[mid as int], tag@);
                        }
                    }
                }
                lo = mid + 1;
            } else {
                proof {
                    assert forall|i: int| mid <= i < self.length implies lex_lt(
                        tag@,
                        #[trigger] self@[i],
                    ) by {
                        if i > mid {
                            lemma_lex_lt_transitive(tag@, self@[mid as int], self@[i]);
                        }
                    }
                }
                hi = mid;
            }
        }
        proof {
            let s = self@;
            assert forall|i: int| lo <= i < s.len() implies !lex_lt(#[trigger] s[i], tag@) by {
                crate::lex::lemma_lex_lt_asymmetric(s[i], tag@);
            }
            lemma_rank_is_split_point(s, tag@, lo as int);
            if s.contains(tag@) {
                let k = s.index_of(tag@);
                lemma_lex_lt_irreflexive(tag@);
            }
        }
        Err(lo)
    }

    /// Whether every tag of `tags` is in this set. True of an empty `tags`.
    pub fn has_tags(&self, tags: &TagSet<MAX_TAGS, MAX_TAG_LEN>) -> (b: bool)
        ensures
            b == (forall|i: int| 0 <= i < tags@.len() ==> self@.contains(#[trigger] tags@[i])),
    {
        proof {
            use_type_invariant(tags);
        }
        let mut i: usize = 0;
        while i < tags.length
            invariant
                i <= tags.length <= MAX_TAGS,
                forall|k: int| 0 <= k < i ==> self@.contains(#[trigger] tags@[k]),
            decreases tags.length - i,
        {
            if !self._has_tag(&tags.tags[i]) {
                assert(tags@[i as int] == tags.tags@[i as int]@);
                return false;
            }
            assert(tags@[i as int] == tags.tags@[i as int]@);
            i += 1;
        }
        true
    }

    /// The tags that this set and `other` have in common.
    pub fn common_tags(&self, other: &Self) -> (r: Self)
        ensures
            r@ == common(self@, other@),
            forall|t: Seq<char>| r@.contains(t) <==> (self@.contains(t) && other@.contains(t)),
            r@.len() <= self@.len(),
            r@.len() <= other@.len(),
            strictly_ascending(r@),
    {
        proof {
            use_type_invariant(self);
            use_type_invariant(other);
            lemma_common_ascending(self@, other@);
            lemma_common_ascending(other@, self@);
            lemma_common_symmetric(self@, other@);
            assert forall|t: Seq<char>| common(self@, other@).contains(t) <==> (self@.contains(t)
                && other@.contains(t)) by {
                lemma_common_contains(self@, other@, t);
            }
        }
        let mut result = Self::new();
        let mut i: usize = 0;
        assert(self@.take(0) =~= Seq::<Seq<char>>::empty());
        assert(common(Seq::<Seq<char>>::empty(), other@) =~= Seq::<Seq<char>>::empty()) by {
            reveal(Seq::filter);
        }
        while i < self.length
            invariant
                self.wf(),
                i <= self.length <= MAX_TAGS,
                result@ == common(self@.take(i as int), other@),
            decreases self.length - i,
        {
            let tag: SmallString<MAX_TAG_LEN> = self.tags[i];
            let ghost before = result@;
            let ghost seen = self@.take(i as int);
            let ghost pred = |t: Seq<char>| other@.contains(t);
            proof {
                assert(self@[i as int] == tag@);
                assert(self@.take(i + 1) =~= seen.push(tag@));
                seen.lemma_filter_push(tag@, pred);
                seen.lemma_filter_len(pred);
                assert forall|k: int| 0 <= k < before.len() implies lex_lt(
                    #[trigger] before[k],
                    tag@,
                ) by {
                    seen.lemma_filter_contains_rev(pred, before[k]);
                    let j = seen.index_of(before[k]);
                    assert(seen[j] == self@[j]);
                }
                lemma_rank_is_split_point(before, tag@, before.len() as int);
                if before.contains(tag@) {
                    lemma_lex_lt_irreflexive(tag@);
                }
            }
            if other._has_tag(&tag) {
                let _ = result._add_tag_ordered(tag);
                assert(result@ =~= before.push(tag@));
            }
            i += 1;
        }
        assert(self@.take(self.length as int) =~= self@);
        proof {
            use_type_invariant(&result);
        }
        result
    }

    /// Adds `tag` at its place in the order. A tag that is already there
    /// changes nothing; a new one for which there is no room is refused and
    /// the set stays as it was.
    fn _add_tag_ordered(&mut self, tag: SmallString<MAX_TAG_LEN>) -> (r: Result<(), TagSetError>)
        requires
            old(self)@.len() < usize::MAX,
        ensures
            match add_outcome(old(self)@, tag@, MAX_TAGS, MAX_TAG_LEN) {
                Ok(s) => r is Ok && final(self)@ == s,
                Err(e) => r == Err::<(), TagSetError>(e) && *final(self) == *old(self),
            },
            strictly_ascending(final(self)@),
    {
        proof {
            use_type_invariant(&*self);
            use_type_invariant(&tag);
            tag.lemma_len_bounded();
        }
        let pos: usize = match self.locate(&tag) {
            Ok(_) => {
                return Ok(());
            },
            Err(p) => p,
        };
        if self.length >= MAX_TAGS {
            return Err(TagSetError::TooManyTags { actual: self.length + 1, max: MAX_TAGS });
        }
        let ghost before = self@;
        let n: usize = self.length;
        let mut tags = self.tags;
        let mut i: usize = n;
        while i > pos
            invariant
                pos <= i <= n < MAX_TAGS,
                n == self.length,
                forall|k: int| 0 <= k < i ==> #[trigger] tags@[k] == self.tags@[k],
                forall|k: int| i < k <= n ==> #[trigger] tags@[k] == self.tags@[k - 1],
            decreases i,
        {
            tags[i] = tags[i - 1];
            i -= 1;
        }
        tags[pos] = tag;
        proof {
            let after = Seq::new((n + 1) as nat, |k: int| tags@[k]@);
            assert(after =~= before.insert(pos as int, tag@)) by {
                assert forall|k: int| 0 <= k < n + 1 implies after[k] == before.insert(
                    pos as int,
                    tag@,
                )[k] by {
                    if k < pos {
                        assert(tags@[k] == self.tags@[k]);
                    } else if k > pos {
                        assert(tags@[k] == self.tags@[k - 1]);
                    }
                }
            }
            lemma_with_tag_ascending(before, tag@);
            assert forall|k: int| 0 <= k < n + 1 implies (#[trigger] tags@[k])@.len()
                <= MAX_TAG_LEN by {
                if k < pos {
                    assert(tags@[k] == self.tags@[k]);
                } else if k > pos {
                    assert(tags@[k] == self.tags@[k - 1]);
                }
            }
        }
        *self = TagSet { tags, length: n + 1 };
        Ok(())
    }

    /// Adds the tag with the text `tag`, keeping the ascending order.
    ///
    /// A text that is already a tag of the set changes nothing. A text too
    /// long to be a tag, or a new tag for a full set, is refused with the
    /// set left as it was.
    ///
    /// The error of a full set counts one tag more than fit, so the bound
    /// `MAX_TAGS` has to stay below `usize::MAX`; no array that large exists.
    pub fn add_tag(&mut self, tag: &str) -> (r: Result<(), TagSetError>)
        requires
            MAX_TAGS < usize::MAX,
        ensures
            match add_outcome(old(self)@, tag@, MAX_TAGS, MAX_TAG_LEN) {
                Ok(s) => r is Ok && final(self)@ == s,
                Err(e) => r == Err::<(), TagSetError>(e) && *final(self) == *old(self),
            },
            strictly_ascending(final(self)@),
    {
        proof {
            use_type_invariant(&*self);
        }
        match SmallString::<MAX_TAG_LEN>::from_str(tag) {
            Ok(s) => self._add_tag_ordered(s),
            Err(e) => Err(TagSetError::InvalidTag(e)),
        }
    }

    /// Removes the tag with the text `tag` and says whether it was there.
    /// A text that is no tag of the set, or too long to be one, leaves the
    /// set as it was.
    pub fn remove_tag(&mut self, tag: &str) -> (r: bool)
        ensures
            r == old(self)@.contains(tag@),
            final(self)@ == without_tag(old(self)@, tag@),
            r ==> final(self)@.len() == old(self)@.len() - 1,
            !r ==> *final(self) == *old(self),
            !final(self)@.contains(tag@),
            strictly_ascending(final(self)@),
    {
        proof {
            use_type_invariant(&*self);
            lemma_without_tag_outcome(self@, tag@);
        }
        let key = match SmallString::<MAX_TAG_LEN>::from_str(tag) {
            Ok(s) => s,
            Err(_) => {
                proof {
                    if self@.contains(tag@) {
                        let k = self@.index_of(tag@);
                        assert(self@[k] == self.tags@[k]@);
                    }
                }
                return false;
            },
        };
        let pos: usize = match self.locate(&key) {
            Ok(i) => i,
            Err(_) => {
                return false;
            },
        };
        let ghost before = self@;
        let n: usize = self.length;
        let mut tags = self.tags;
        let mut i: usize = pos;
        while i + 1 < n
            invariant
                pos <= i < n <= MAX_TAGS,
                n == self.length,
                forall|k: int| 0 <= k < pos ==> #[trigger] tags@[k] == self.tags@[k],
                forall|k: int| pos <= k < i ==> #[trigger] tags@[k] == self.tags@[k + 1],
                forall|k: int| i <= k < n ==> #[trigger] tags@[k] == self.tags@[k],
            decreases n - i,
        {
            tags[i] = tags[i + 1];
            i += 1;
        }
        proof {
            assert(before.contains(tag@)) by {
                assert(before[pos as int] == tag@);
            }
            lemma_ascending_position_unique(before, pos as int, before.index_of(tag@));
            let after = Seq::new((n - 1) as nat, |k: int| tags@[k]@);
            assert(after =~= before.remove(pos as int)) by {
                assert forall|k: int| 0 <= k < n - 1 implies after[k] == before.remove(
                    pos as int,
                )[k] by {
                    if k < pos {
                        assert(tags@[k] == self.tags@[k]);
                    } else {
                        assert(tags@[k] == self.tags@[k + 1]);
                    }
                }
            }
            lemma_without_tag_ascending(before, tag@);
            assert forall|k: int| 0 <= k < n - 1 implies (#[trigger] tags@[k])@.len()
                <= MAX_TAG_LEN by {
                if k < pos {
                    assert(tags@[k] == self.tags@[k]);
                } else {
                    assert(tags@[k] == self.tags@[k + 1]);
                }
            }
        }
        *self = TagSet { tags, length: n - 1 };
        true
    }

    /// Whether `tag` is in the set.
    fn _has_tag(&self, tag: &SmallString<MAX_TAG_LEN>) -> (b: bool)
        ensures
            b == self@.contains(tag@),
    {
        self.locate(tag).is_ok()
    }

    /// Whether the set holds a tag with the text `tag`. A text too long to
    /// be a tag is in no set.
    pub fn has_tag(&self, tag: &str) -> (b: bool)
        ensures
            b == self@.contains(tag@),
    {
        match SmallString::<MAX_TAG_LEN>::from_str(tag) {
            Ok(s) => self._has_tag(&s),
            Err(_) => {
                proof {
                    use_type_invariant(self);
                    if self@.contains(tag@) {
                        let k = self@.index_of(tag@);
                        assert(self@[k] == self.tags@[k]@);
                    }
                }
                false
            },
        }
    }
}

impl<const MAX_TAGS: usize, const MAX_TAG_LEN: usize> Default for TagSet<MAX_TAGS, MAX_TAG_LEN> {
    /// The empty set.
    fn default() -> (s: Self)
        ensures
            s@ == Seq::<Seq<char>>::empty(),
    {
        Self::new()
    }
}

impl<const MAX_TAGS: usize, const MAX_TAG_LEN: usize> PartialEqSpecImpl for TagSet<MAX_TAGS, MAX_TAG_LEN> {
    open spec fn obeys_eq_spec() -> bool {
        true
    }

    open spec fn eq_spec(&self, other: &Self) -> bool {
        self@ == other@
    }
}

impl<const MAX_TAGS: usize, const MAX_TAG_LEN: usize> PartialEq for TagSet<MAX_TAGS, MAX_TAG_LEN> {
    /// Two sets are equal when they hold the same tags.
    fn eq(&self, other: &Self) -> (r: bool) {
        proof {
            use_type_invariant(self);
            use_type_invariant(other);
        }
        if self.length != other.length {
            return false;
        }
        let mut i: usize = 0;
        while i < self.length
            invariant
                i <= self.length <= MAX_TAGS,
                self.length == other.length,
                forall|k: int| 0 <= k < i ==> #[trigger] self@[k] == other@[k],
            decreases self.length - i,
        {
            if self.tags[i].order(&other.tags[i]) != 0 {
                assert(self@[i as int] == self.tags@[i as int]@);
                assert(other@[i as int] == other.tags@[i as int]@);
                return false;
            }
            assert(self@[i as int] == self.tags@[i as int]@);
            assert(other@[i as int] == other.tags@[i as int]@);
            i += 1;
        }
        assert(self@ =~= other@);
        true
    }
}

impl<const MAX_TAGS: usize, const MAX_TAG_LEN: usize> Eq for TagSet<MAX_TAGS, MAX_TAG_LEN> {

}

/// A tag of at most 16 characters.
pub type Tag = SmallString<16>;

/// A set of at most 4 tags of at most 16 characters each.
pub type DefaultTagSet = TagSet<4, 16>;

} // verus!
