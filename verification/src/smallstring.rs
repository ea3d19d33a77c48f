//! Bounded-length text values stored inline.

use crate::lex::{lemma_lex_lt_skip_prefix, lemma_lex_lt_total, lex_lt};
use core::cmp::Ordering;
use vstd::prelude::*;
use vstd::std_specs::cmp::{PartialEqSpecImpl, PartialOrdSpecImpl};

verus! {

/// `String::push` appends the given character at the end of the string and
/// leaves what was there before in place.
pub assume_specification[ String::push ](s: &mut String, ch: char)
    ensures
        final(s)@ == old(s)@.push(ch),
;

/// Why a text could not be stored in a [`SmallString`].
#[derive(Debug, Clone, Copy, PartialEq, Eq, Structural)]
pub enum SmallStringError {
    /// The text has `actual` characters, more than the `max` that fit.
    TooLong { actual: usize, max: usize },
}

/// A text of at most `MAX_LEN` characters, held in a fixed-size buffer.
#[derive(Debug, Clone, Copy)]
pub struct SmallString<const MAX_LEN: usize> {
    data: [char; MAX_LEN],
    len: usize,
}

impl<const MAX_LEN: usize> View for SmallString<MAX_LEN> {
    type V = Seq<char>;

    closed spec fn view(&self) -> Seq<char> {
        self.data@.subrange(0, self.len as int)
    }
}

impl<const MAX_LEN: usize> SmallString<MAX_LEN> {
    /// The stored length never exceeds the buffer.
    #[verifier::type_invariant]
    pub closed spec fn wf(&self) -> bool {
        self.len <= MAX_LEN
    }

    /// A well-formed value holds at most `MAX_LEN` characters.
    pub proof fn lemma_len_bounded(&self)
        requires
            self.wf(),
        ensures
            self@.len() <= MAX_LEN,
    {
    }

    /// The empty text.
    pub fn new() -> (s: Self)
        ensures
            s@ == Seq::<char>::empty(),
    {
        SmallString { data: ['\0';MAX_LEN], len: 0 }
    }

    /// Stores `s`, or says by how much it is too long.
    pub fn from_str(s: &str) -> (r: Result<Self, SmallStringError>)
        ensures
            s@.len() <= MAX_LEN ==> r is Ok && r->Ok_0@ == s@,
            s@.len() > MAX_LEN ==> r == Err::<Self, SmallStringError>(
                SmallStringError::TooLong { actual: s@.len() as usize, max: MAX_LEN },
            ),
    {
        let n: usize = s.unicode_len();
        if n > MAX_LEN {
            return Err(SmallStringError::TooLong { actual: n, max: MAX_LEN });
        }
        let mut data: [char; MAX_LEN] = ['\0';MAX_LEN];
        let mut i: usize = 0;
        for c in it: s.chars()
            invariant
                i == it.index(),
                it.seq() == s@,
                n == s@.len(),
                n <= MAX_LEN,
                data@.subrange(0, i as int) == s@.subrange(0, i as int),
        {
            data[i] = c;
            i += 1;
        }
        Ok(SmallString { data, len: n })
    }

    /// The stored characters as an owned string.
    pub fn as_str(&self) -> (s: String)
        ensures
            s@ == self@,
    {
        proof {
            use_type_invariant(self);
        }
        let mut s = String::new();
        let mut i: usize = 0;
        while i < self.len
            invariant
                i <= self.len <= MAX_LEN,
                s@ == self@.subrange(0, i as int),
            decreases self.len - i,
        {
            s.push(self.data[i]);
            i += 1;
        }
        s
    }

    /// Where `self` stands relative to `other` in lexicographic order:
    /// `-1` before it, `0` equal to it, `1` after it.
    pub fn order(&self, other: &Self) -> (r: i8)
        ensures
            r == -1 || r == 0 || r == 1,
            r == -1 <==> lex_lt(self@, other@),
            r == 0 <==> self@ == other@,
            r == 1 <==> lex_lt(other@, self@),
    {
        proof {
            use_type_invariant(self);
            use_type_invariant(other);
            lemma_lex_lt_total(self@, other@);
            crate::lex::lemma_lex_lt_asymmetric(self@, other@);
            crate::lex::lemma_lex_lt_irreflexive(self@);
        }
        let n: usize = if self.len < other.len { self.len } else { other.len };
        let mut i: usize = 0;
        while i < n
            invariant
                i <= n,
                n <= self.len <= MAX_LEN,
                n <= other.len <= MAX_LEN,
                self@.subrange(0, i as int) == other@.subrange(0, i as int),
            decreases n - i,
        {
            let a: char = self.data[i];
            let b: char = other.data[i];
            if a != b {
                proof {
                    lemma_lex_lt_skip_prefix(self@, other@, i as int);
                    lemma_lex_lt_skip_prefix(other@, self@, i as int);
                    assert(self@.skip(i as int)[0] == a);
                    assert(other@.skip(i as int)[0] == b);
                }
                return if a < b { -1 } else { 1 };
            }
            proof {
                assert(self@.subrange(0, i + 1) =~= self@.subrange(0, i as int).push(a));
                assert(other@.subrange(0, i + 1) =~= other@.subrange(0, i as int).push(b));
            }
            i += 1;
        }
        proof {
            lemma_lex_lt_skip_prefix(self@, other@, n as int);
            lemma_lex_lt_skip_prefix(other@, self@, n as int);
            if self.len == other.len {
                assert(self@ =~= self@.subrange(0, n as int));
                assert(other@ =~= other@.subrange(0, n as int));
            }
        }
        if self.len < other.len {
            -1
        } else if self.len > other.len {
            1
        } else {
            0
        }
    }

    /// Number of characters stored.
    pub fn len(&self) -> (n: usize)
        ensures
            n == self@.len(),
            n <= MAX_LEN,
    {
        proof {
            use_type_invariant(self);
        }
        self.len
    }

    /// Whether no character is stored.
    pub fn is_empty(&self) -> (b: bool)
        ensures
            b == (self@.len() == 0),
    {
        proof {
            use_type_invariant(self);
        }
        self.len == 0
    }
}

impl<const MAX_LEN: usize> PartialEqSpecImpl for SmallString<MAX_LEN> {
    open spec fn obeys_eq_spec() -> bool {
        true
    }

    open spec fn eq_spec(&self, other: &Self) -> bool {
        self@ == other@
    }
}

impl<const MAX_LEN: usize> PartialEq for SmallString<MAX_LEN> {
    /// Two values are equal when they hold the same characters.
    fn eq(&self, other: &Self) -> (r: bool) {
        self.order(other) == 0
    }
}

impl<const MAX_LEN: usize> Eq for SmallString<MAX_LEN> {

}

impl<const MAX_LEN: usize> PartialOrdSpecImpl for SmallString<MAX_LEN> {
    open spec fn obeys_partial_cmp_spec() -> bool {
        true
    }

    open spec fn partial_cmp_spec(&self, other: &Self) -> Option<Ordering> {
        if self@ == other@ {
            Some(Ordering::Equal)
        } else if lex_lt(self@, other@) {
            Some(Ordering::Less)
        } else {
            Some(Ordering::Greater)
        }
    }
}

impl<const MAX_LEN: usize> PartialOrd for SmallString<MAX_LEN> {
    /// Lexicographic order on the stored characters.
    fn partial_cmp(&self, other: &Self) -> (r: Option<Ordering>) {
        let c: i8 = self.order(other);
        if c < 0 {
            Some(Ordering::Less)
        } else if c == 0 {
            Some(Ordering::Equal)
        } else {
            Some(Ordering::Greater)
        }
    }
}

} // verus!
