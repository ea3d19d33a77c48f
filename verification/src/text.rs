//! How a comma-separated text names tags: what counts as whitespace, and
//! which tag texts a line of text holds.

use vstd::prelude::*;

verus! {

/// The characters that Unicode classes as `White_Space`.
pub open spec fn is_white_space(c: char) -> bool {
    ||| '\u{9}' <= c <= '\u{D}'
    ||| c == ' '
    ||| c == '\u{85}'
    ||| c == '\u{A0}'
    ||| c == '\u{1680}'
    ||| '\u{2000}' <= c <= '\u{200A}'
    ||| c == '\u{2028}'
    ||| c == '\u{2029}'
    ||| c == '\u{202F}'
    ||| c == '\u{205F}'
    ||| c == '\u{3000}'
}

/// Whether `c` is a whitespace character.
pub fn is_whitespace(c: char) -> (b: bool)
    ensures
        b == is_white_space(c),
{
    ('\u{9}' <= c && c <= '\u{D}') || c == ' ' || c == '\u{85}' || c == '\u{A0}' || c
        == '\u{1680}' || ('\u{2000}' <= c && c <= '\u{200A}') || c == '\u{2028}' || c
        == '\u{2029}' || c == '\u{202F}' || c == '\u{205F}' || c == '\u{3000}'
}

/// `s` with every whitespace character taken out, wherever it stands.
pub open spec fn strip_whitespace(s: Seq<char>) -> Seq<char> {
    s.filter(|c: char| !is_white_space(c))
}

/// The position of the first comma of `text`, or its length if it has none.
pub open spec fn first_comma(text: Seq<char>) -> int
    decreases text.len(),
{
    if text.len() == 0 || text[0] == ',' {
        0
    } else {
        1 + first_comma(text.drop_first())
    }
}

/// The tag texts that `text` names, in the order in which it names them:
/// the text is cut at each comma, each piece loses its whitespace, and the
/// pieces that are then empty are left out.
pub open spec fn tag_texts(text: Seq<char>) -> Seq<Seq<char>>
    decreases text.len(),
{
    let k = first_comma(text);
    let head = strip_whitespace(text.subrange(0, k));
    let tail = if 0 <= k < text.len() {
        tag_texts(text.skip(k + 1))
    } else {
        Seq::empty()
    };
    if head.len() > 0 {
        seq![head] + tail
    } else {
        tail
    }
}

/// The tag text that a piece without commas gives: none if only whitespace
/// is in it.
pub open spec fn piece_texts(piece: Seq<char>) -> Seq<Seq<char>> {
    if strip_whitespace(piece).len() > 0 {
        seq![strip_whitespace(piece)]
    } else {
        Seq::empty()
    }
}

/// A text that starts with a piece without commas has its first comma
/// right behind that piece.
pub proof fn lemma_first_comma_after_piece(piece: Seq<char>, rest: Seq<char>)
    requires
        !piece.contains(','),
        rest.len() == 0 || rest[0] == ',',
    ensures
        first_comma(piece + rest) == piece.len(),
    decreases piece.len(),
{
    let text = piece + rest;
    if piece.len() == 0 {
        assert(text =~= rest);
    } else {
        assert(text[0] == piece[0]);
        assert(piece.contains(piece[0]));
        let shorter = piece.drop_first();
        assert(text.drop_first() =~= shorter + rest);
        assert(!shorter.contains(',')) by {
            if shorter.contains(',') {
                let i = shorter.index_of(',');
                assert(piece[i + 1] == ',');
            }
        }
        lemma_first_comma_after_piece(shorter, rest);
    }
}

/// A piece without commas, a comma and more text name the tag of the
/// piece and then the tags of the text behind the comma.
pub proof fn lemma_tag_texts_piece(piece: Seq<char>, rest: Seq<char>)
    requires
        !piece.contains(','),
    ensures
        tag_texts(piece + seq![','] + rest) == piece_texts(piece) + tag_texts(rest),
{
    let text = piece + seq![','] + rest;
    assert(text =~= piece + (seq![','] + rest));
    lemma_first_comma_after_piece(piece, seq![','] + rest);
    let k = first_comma(text);
    assert(text.subrange(0, k) =~= piece);
    assert(text.skip(k + 1) =~= rest);
    assert(piece_texts(piece) + tag_texts(rest) =~= tag_texts(text));
}

/// A text without commas names the tag of its one piece.
pub proof fn lemma_tag_texts_last(piece: Seq<char>)
    requires
        !piece.contains(','),
    ensures
        tag_texts(piece) == piece_texts(piece),
{
    assert(piece + Seq::<char>::empty() =~= piece);
    lemma_first_comma_after_piece(piece, Seq::empty());
    assert(piece.subrange(0, piece.len() as int) =~= piece);
    assert(piece_texts(piece) =~= tag_texts(piece));
}

/// Stripping a text that grew by one character keeps that character
/// unless it is whitespace.
pub proof fn lemma_strip_push(s: Seq<char>, c: char)
    ensures
        strip_whitespace(s.push(c)) == if is_white_space(c) {
            strip_whitespace(s)
        } else {
            strip_whitespace(s).push(c)
        },
{
    s.lemma_filter_push(c, |c: char| !is_white_space(c));
}

/// A text that can stand in a comma-separated list as it is: not empty,
/// with no comma and no whitespace in it.
pub open spec fn is_plain(t: Seq<char>) -> bool {
    &&& t.len() > 0
    &&& forall|i: int| 0 <= i < t.len() ==> t[i] != ',' && !is_white_space(#[trigger] t[i])
}

/// The texts of `tags` in their order, with a comma between each two.
pub open spec fn joined(tags: Seq<Seq<char>>) -> Seq<char>
    decreases tags.len(),
{
    if tags.len() == 0 {
        Seq::empty()
    } else if tags.len() == 1 {
        tags[0]
    } else {
        tags[0] + seq![','] + joined(tags.drop_first())
    }
}

/// Stripping a text without whitespace changes nothing.
pub proof fn lemma_strip_plain(t: Seq<char>)
    requires
        forall|i: int| 0 <= i < t.len() ==> !is_white_space(#[trigger] t[i]),
    ensures
        strip_whitespace(t) == t,
    decreases t.len(),
{
    reveal(Seq::filter);
    if t.len() > 0 {
        lemma_strip_plain(t.drop_last());
        assert(t =~= t.drop_last().push(t.last()));
    }
}

/// A list of plain texts joined by commas names those texts again.
pub proof fn lemma_tag_texts_of_joined(tags: Seq<Seq<char>>)
    requires
        forall|i: int| 0 <= i < tags.len() ==> is_plain(#[trigger] tags[i]),
    ensures
        tag_texts(joined(tags)) == tags,
    decreases tags.len(),
{
    if tags.len() == 0 {
        assert(strip_whitespace(Seq::<char>::empty()) =~= Seq::<char>::empty()) by {
            reveal(Seq::filter);
        }
        assert(Seq::<char>::empty().subrange(0, 0) =~= Seq::<char>::empty());
        assert(tag_texts(joined(tags)) =~= tags);
    } else {
        let t = tags[0];
        assert(is_plain(t));
        assert(!t.contains(','));
        lemma_strip_plain(t);
        if tags.len() == 1 {
            lemma_tag_texts_last(t);
            assert(seq![t] =~= tags);
        } else {
            let rest = tags.drop_first();
            assert forall|i: int| 0 <= i < rest.len() implies is_plain(#[trigger] rest[i]) by {
                assert(rest[i] == tags[i + 1]);
            }
            lemma_tag_texts_of_joined(rest);
            lemma_tag_texts_piece(t, joined(rest));
            assert(seq![t] + rest =~= tags);
        }
    }
}

} // verus!
