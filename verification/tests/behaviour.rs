use tensor4all_core::smallstring::{SmallString, SmallStringError};
use tensor4all_core::tagset::{DefaultTagSet, TagSet, TagSetError};
use tensor4all_core::text::is_whitespace;

fn texts<const M: usize, const L: usize>(ts: &TagSet<M, L>) -> Vec<String> {
    ts.iter().map(|t| t.as_str()).collect()
}

#[test]
fn smallstring_accepts_text_of_exactly_the_bound() {
    let s = SmallString::<5>::from_str("hello").unwrap();
    assert_eq!(s.len(), 5);
    assert_eq!(s.as_str(), "hello");
}

#[test]
fn smallstring_rejects_one_character_too_many() {
    assert_eq!(
        SmallString::<5>::from_str("hello!"),
        Err(SmallStringError::TooLong { actual: 6, max: 5 })
    );
}

#[test]
fn smallstring_of_bound_zero_holds_only_the_empty_text() {
    let s = SmallString::<0>::from_str("").unwrap();
    assert!(s.is_empty());
    assert_eq!(
        SmallString::<0>::from_str("a"),
        Err(SmallStringError::TooLong { actual: 1, max: 0 })
    );
}

#[test]
fn smallstring_counts_characters_not_bytes() {
    let s = SmallString::<3>::from_str("αβγ").unwrap();
    assert_eq!(s.len(), 3);
    assert_eq!(s.as_str(), "αβγ");
    assert_eq!("αβγ".len(), 6);
    assert_eq!(
        SmallString::<2>::from_str("αβγ"),
        Err(SmallStringError::TooLong { actual: 3, max: 2 })
    );
}

#[test]
fn smallstring_as_str_gives_the_stored_characters_in_order() {
    let s = SmallString::<8>::from_str("a,b c").unwrap();
    assert_eq!(s.as_str(), String::from("a,b c"));
    assert_eq!(SmallString::<8>::new().as_str(), String::new());
}

#[test]
fn smallstring_order_is_lexicographic() {
    let a = SmallString::<8>::from_str("a").unwrap();
    let ab = SmallString::<8>::from_str("ab").unwrap();
    let b = SmallString::<8>::from_str("b").unwrap();
    let empty = SmallString::<8>::new();
    assert_eq!(a.order(&ab), -1);
    assert_eq!(ab.order(&a), 1);
    assert_eq!(ab.order(&b), -1);
    assert_eq!(b.order(&ab), 1);
    assert_eq!(ab.order(&ab), 0);
    assert_eq!(empty.order(&a), -1);
    assert_eq!(empty.order(&empty), 0);
    assert!(a < ab);
    assert!(ab < b);
    assert!(a <= a);
    assert!(b > a);
    assert!(b >= ab);
    assert_eq!(a.partial_cmp(&ab), Some(std::cmp::Ordering::Less));
    assert_eq!(ab.partial_cmp(&ab), Some(std::cmp::Ordering::Equal));
    assert_eq!(b.partial_cmp(&ab), Some(std::cmp::Ordering::Greater));
}

#[test]
fn smallstring_order_is_case_sensitive_and_by_scalar_value() {
    let upper = SmallString::<8>::from_str("Z").unwrap();
    let lower = SmallString::<8>::from_str("a").unwrap();
    let greek = SmallString::<8>::from_str("α").unwrap();
    assert!(upper < lower);
    assert!(lower < greek);
    assert_ne!(upper, SmallString::<8>::from_str("z").unwrap());
}

#[test]
fn smallstring_order_agrees_with_str_order() {
    let words = ["", "a", "ab", "abc", "b", "B", "αβγ", "αβ", "z", "t1", "t10", "t2"];
    for x in words.iter() {
        for y in words.iter() {
            let sx = SmallString::<8>::from_str(x).unwrap();
            let sy = SmallString::<8>::from_str(y).unwrap();
            assert_eq!(sx.partial_cmp(&sy), Some(x.cmp(y)));
            assert_eq!(sx == sy, x == y);
        }
    }
}

#[test]
fn whitespace_is_what_std_calls_whitespace() {
    for u in 0u32..=0x10FFFF {
        if let Some(c) = char::from_u32(u) {
            assert_eq!(is_whitespace(c), c.is_whitespace());
        }
    }
}

#[test]
fn whitespace_examples() {
    assert!(is_whitespace(' '));
    assert!(is_whitespace('\t'));
    assert!(is_whitespace('\n'));
    assert!(is_whitespace('\u{A0}'));
    assert!(is_whitespace('\u{3000}'));
    assert!(!is_whitespace('a'));
    assert!(!is_whitespace(','));
    assert!(!is_whitespace('\u{200B}'));
}

#[test]
fn add_twice_is_add_once() {
    let mut once = TagSet::<4, 16>::new();
    once.add_tag("x").unwrap();
    let mut twice = once;
    assert_eq!(twice.add_tag("x"), Ok(()));
    assert_eq!(twice.len(), 1);
    assert_eq!(twice, once);
    assert_eq!(texts(&twice), vec!["x"]);
}

#[test]
fn add_of_a_present_tag_succeeds_on_a_full_set() {
    let mut ts = TagSet::<2, 16>::from_str("a,b").unwrap();
    assert_eq!(ts.add_tag("a"), Ok(()));
    assert_eq!(ts.add_tag("b"), Ok(()));
    assert_eq!(texts(&ts), vec!["a", "b"]);
}

#[test]
fn iteration_is_ascending_after_adds_removes_and_parse() {
    let mut ts = TagSet::<6, 8>::from_str("m,c,x").unwrap();
    ts.add_tag("a").unwrap();
    ts.add_tag("p").unwrap();
    assert!(ts.remove_tag("m"));
    ts.add_tag("d").unwrap();
    assert!(!ts.remove_tag("zz"));
    ts.add_tag("c").unwrap();
    let seen = texts(&ts);
    assert_eq!(seen, vec!["a", "c", "d", "p", "x"]);
    for w in seen.windows(2) {
        assert!(w[0] < w[1]);
    }
    assert_eq!(texts(&ts), seen);
}

#[test]
fn add_puts_a_tag_at_its_place() {
    let mut ts = TagSet::<4, 16>::from_str("b,d").unwrap();
    ts.add_tag("c").unwrap();
    assert_eq!(texts(&ts), vec!["b", "c", "d"]);
    ts.add_tag("a").unwrap();
    assert_eq!(texts(&ts), vec!["a", "b", "c", "d"]);
    let mut end = TagSet::<4, 16>::from_str("b,d").unwrap();
    end.add_tag("e").unwrap();
    assert_eq!(texts(&end), vec!["b", "d", "e"]);
}

#[test]
fn parse_does_not_depend_on_the_order_of_the_text() {
    let a = TagSet::<4, 16>::from_str("t3,t2,t1").unwrap();
    let b = TagSet::<4, 16>::from_str("t1,t2,t3").unwrap();
    assert_eq!(texts(&a), vec!["t1", "t2", "t3"]);
    assert_eq!(texts(&b), vec!["t1", "t2", "t3"]);
    assert_eq!(a, b);
}

#[test]
fn parse_strips_whitespace_everywhere() {
    let ts = TagSet::<4, 16>::from_str(" aaa , bb bb , ccc ").unwrap();
    assert_eq!(ts.len(), 3);
    assert_eq!(texts(&ts), vec!["aaa", "bbbb", "ccc"]);
    let tabs = TagSet::<4, 16>::from_str("a\tb\n,\u{3000}c\u{A0}").unwrap();
    assert_eq!(texts(&tabs), vec!["ab", "c"]);
}

#[test]
fn parse_skips_empty_pieces() {
    assert_eq!(TagSet::<4, 16>::from_str("").unwrap().len(), 0);
    assert_eq!(TagSet::<4, 16>::from_str(",").unwrap().len(), 0);
    assert_eq!(TagSet::<4, 16>::from_str(" , ,, ").unwrap().len(), 0);
    let ts = TagSet::<4, 16>::from_str(",a,,b,").unwrap();
    assert_eq!(texts(&ts), vec!["a", "b"]);
}

#[test]
fn parse_absorbs_repeated_tags() {
    let ts = TagSet::<2, 16>::from_str("a,b,a,b,a").unwrap();
    assert_eq!(texts(&ts), vec!["a", "b"]);
}

#[test]
fn parse_keeps_case() {
    let ts = TagSet::<4, 16>::from_str("link,Link").unwrap();
    assert_eq!(texts(&ts), vec!["Link", "link"]);
    assert!(!ts.has_tag("LINK"));
}

#[test]
fn parse_fails_on_the_first_tag_that_cannot_be_added() {
    assert_eq!(
        TagSet::<2, 4>::from_str("a,b,c,toolong"),
        Err(TagSetError::TooManyTags { actual: 3, max: 2 })
    );
    assert_eq!(
        TagSet::<2, 4>::from_str("a,toolong,b,c"),
        Err(TagSetError::InvalidTag(SmallStringError::TooLong { actual: 7, max: 4 }))
    );
    assert_eq!(
        TagSet::<2, 4>::from_str("a, to o l, a"),
        Ok(TagSet::<2, 4>::from_str("tool,a").unwrap())
    );
}

#[test]
fn parse_into_a_set_without_room() {
    assert_eq!(TagSet::<0, 4>::from_str(" , ").unwrap().len(), 0);
    assert_eq!(
        TagSet::<0, 4>::from_str("a"),
        Err(TagSetError::TooManyTags { actual: 1, max: 0 })
    );
}

#[test]
fn capacity_boundary_leaves_the_set_as_it_was() {
    let mut ts = TagSet::<2, 16>::new();
    assert_eq!(ts.add_tag("t1"), Ok(()));
    assert_eq!(ts.add_tag("t2"), Ok(()));
    let before = ts;
    assert_eq!(ts.add_tag("t3"), Err(TagSetError::TooManyTags { actual: 3, max: 2 }));
    assert_eq!(ts.len(), 2);
    assert_eq!(texts(&ts), vec!["t1", "t2"]);
    assert!(!ts.has_tag("t3"));
    assert_eq!(ts, before);
}

#[test]
fn add_of_a_text_too_long_leaves_the_set_as_it_was() {
    let mut ts = TagSet::<4, 3>::from_str("abc").unwrap();
    assert_eq!(
        ts.add_tag("abcd"),
        Err(TagSetError::InvalidTag(SmallStringError::TooLong { actual: 4, max: 3 }))
    );
    assert_eq!(texts(&ts), vec!["abc"]);
}

#[test]
fn a_long_text_is_refused_before_a_full_set_is() {
    let mut ts = TagSet::<1, 3>::from_str("abc").unwrap();
    assert_eq!(
        ts.add_tag("abcd"),
        Err(TagSetError::InvalidTag(SmallStringError::TooLong { actual: 4, max: 3 }))
    );
    assert_eq!(ts.add_tag("x"), Err(TagSetError::TooManyTags { actual: 2, max: 1 }));
}

#[test]
fn add_takes_the_text_as_it_is() {
    let mut ts = TagSet::<4, 16>::new();
    ts.add_tag("b b").unwrap();
    ts.add_tag("").unwrap();
    ts.add_tag("a,c").unwrap();
    assert_eq!(texts(&ts), vec!["", "a,c", "b b"]);
    assert!(ts.has_tag(""));
    assert!(ts.has_tag("b b"));
    assert!(!ts.has_tag("bb"));
}

#[test]
fn common_tags_does_not_depend_on_insertion_order() {
    let expected = TagSet::<4, 16>::from_str("t2,t3").unwrap();
    let lefts = ["t1,t2,t3", "t3,t2,t1", "t2,t1,t3"];
    let rights = ["t2,t3,t4", "t4,t3,t2", "t3,t4,t2"];
    for l in lefts.iter() {
        for r in rights.iter() {
            let a = TagSet::<4, 16>::from_str(l).unwrap();
            let b = TagSet::<4, 16>::from_str(r).unwrap();
            assert_eq!(texts(&a.common_tags(&b)), vec!["t2", "t3"]);
            assert_eq!(a.common_tags(&b), expected);
            assert_eq!(b.common_tags(&a), expected);
        }
    }
}

#[test]
fn common_tags_of_sets_with_nothing_in_common_is_empty() {
    let a = TagSet::<4, 16>::from_str("a,b").unwrap();
    let b = TagSet::<4, 16>::from_str("c,d").unwrap();
    assert_eq!(a.common_tags(&b).len(), 0);
    assert_eq!(a.common_tags(&TagSet::new()).len(), 0);
    assert_eq!(TagSet::<4, 16>::new().common_tags(&a).len(), 0);
    assert_eq!(a.common_tags(&a), a);
}

#[test]
fn common_tags_of_full_sets() {
    let a = TagSet::<3, 2>::from_str("a,b,c").unwrap();
    let b = TagSet::<3, 2>::from_str("c,b,a").unwrap();
    assert_eq!(texts(&a.common_tags(&b)), vec!["a", "b", "c"]);
}

#[test]
fn has_tags_is_the_subset_test() {
    let all = TagSet::<4, 16>::from_str("t1,t2,t3").unwrap();
    let some = TagSet::<4, 16>::from_str("t3,t1").unwrap();
    let none = TagSet::<4, 16>::new();
    assert!(all.has_tags(&some));
    assert!(all.has_tags(&all));
    assert!(all.has_tags(&none));
    assert!(none.has_tags(&none));
    assert!(!some.has_tags(&all));
    assert!(!none.has_tags(&some));
}

#[test]
fn has_tags_turns_false_when_one_required_tag_is_missing() {
    let required = TagSet::<4, 16>::from_str("t1,t2,t3").unwrap();
    for missing in ["t1", "t2", "t3"].iter() {
        let mut ts = TagSet::<4, 16>::from_str("t1,t2,t3,t4").unwrap();
        assert!(ts.has_tags(&required));
        assert!(ts.remove_tag(missing));
        assert!(!ts.has_tags(&required));
        ts.add_tag(missing).unwrap();
        assert!(ts.has_tags(&required));
    }
}

#[test]
fn remove_of_a_present_tag() {
    for gone in ["t1", "t2", "t3"].iter() {
        let mut ts = TagSet::<4, 16>::from_str("t1,t2,t3").unwrap();
        assert!(ts.remove_tag(gone));
        assert_eq!(ts.len(), 2);
        assert!(!ts.has_tag(gone));
        let left: Vec<String> =
            ["t1", "t2", "t3"].iter().filter(|t| *t != gone).map(|t| t.to_string()).collect();
        assert_eq!(texts(&ts), left);
        assert!(!ts.remove_tag(gone));
        assert_eq!(ts.len(), 2);
    }
}

#[test]
fn remove_of_an_absent_tag_changes_nothing() {
    let mut ts = TagSet::<4, 4>::from_str("t1,t2,t3").unwrap();
    let before = ts;
    assert!(!ts.remove_tag("t4"));
    assert!(!ts.remove_tag(""));
    assert!(!ts.remove_tag("much too long to be a tag"));
    assert_eq!(ts, before);
    assert_eq!(texts(&ts), vec!["t1", "t2", "t3"]);
    let mut empty = TagSet::<4, 4>::new();
    assert!(!empty.remove_tag("t1"));
    assert_eq!(empty.len(), 0);
}

#[test]
fn remove_from_a_full_set_makes_room() {
    let mut ts = TagSet::<2, 4>::from_str("a,b").unwrap();
    assert!(ts.remove_tag("b"));
    assert_eq!(ts.add_tag("c"), Ok(()));
    assert_eq!(texts(&ts), vec!["a", "c"]);
}

#[test]
fn has_tag_of_a_text_too_long_is_false() {
    let ts = TagSet::<4, 2>::from_str("ab").unwrap();
    assert!(ts.has_tag("ab"));
    assert!(!ts.has_tag("abc"));
    assert!(!ts.has_tag("a"));
}

#[test]
fn unicode_tags_count_characters() {
    let mut ts = TagSet::<2, 3>::new();
    ts.add_tag("αβγ").unwrap();
    assert_eq!(ts.get(0).unwrap().len(), 3);
    assert!(ts.has_tag("αβγ"));
    assert!(!ts.has_tag("αβ"));
    assert_eq!(ts.add_tag("αβγ"), Ok(()));
    assert_eq!(ts.len(), 1);
    ts.add_tag("abc").unwrap();
    assert_eq!(texts(&ts), vec!["abc", "αβγ"]);
    assert_eq!(
        ts.add_tag("αβγδ"),
        Err(TagSetError::InvalidTag(SmallStringError::TooLong { actual: 4, max: 3 }))
    );
    assert_eq!(ts.add_tag("δ"), Err(TagSetError::TooManyTags { actual: 3, max: 2 }));
    assert!(ts.remove_tag("αβγ"));
    assert_eq!(texts(&ts), vec!["abc"]);
}

#[test]
fn get_is_none_from_the_length_on() {
    let ts = TagSet::<4, 16>::from_str("t1,t2").unwrap();
    assert_eq!(ts.get(1).unwrap().as_str(), "t2");
    assert!(ts.get(2).is_none());
    assert!(ts.get(4).is_none());
    assert!(ts.get(usize::MAX).is_none());
    assert!(TagSet::<4, 16>::new().get(0).is_none());
}

#[test]
fn capacity_is_the_bound_whatever_the_set_holds() {
    assert_eq!(TagSet::<0, 1>::new().capacity(), 0);
    assert_eq!(TagSet::<7, 1>::from_str("a,b").unwrap().capacity(), 7);
}

#[test]
fn sets_are_equal_when_they_hold_the_same_tags() {
    let mut a = TagSet::<4, 16>::from_str("x,y,z").unwrap();
    let b = TagSet::<4, 16>::from_str("z,y").unwrap();
    assert_ne!(a, b);
    assert!(a.remove_tag("x"));
    assert_eq!(a, b);
    assert_ne!(a, TagSet::<4, 16>::from_str("y,zz").unwrap());
    assert_eq!(TagSet::<4, 16>::default(), TagSet::<4, 16>::new());
}

#[test]
fn a_copy_is_a_value_of_its_own() {
    let a = TagSet::<4, 16>::from_str("x").unwrap();
    let mut b = a;
    b.add_tag("y").unwrap();
    assert_eq!(a.len(), 1);
    assert_eq!(b.len(), 2);
}

#[test]
fn one_link_tag_on_a_fresh_set() {
    let mut ts = DefaultTagSet::new();
    assert_eq!(ts.add_tag("Link"), Ok(()));
    assert_eq!(texts(&ts), vec!["Link"]);
    assert!(ts.has_tag("Link"));
}

#[test]
fn a_set_joined_by_commas_reads_back_as_itself() {
    let mut ts = TagSet::<4, 16>::new();
    for t in ["Site", "n=3", "Link", "αβγ"].iter() {
        ts.add_tag(t).unwrap();
    }
    let line = texts(&ts).join(",");
    assert_eq!(line, "Link,Site,n=3,αβγ");
    assert_eq!(TagSet::<4, 16>::from_str(&line), Ok(ts));
}

#[test]
fn tags_named_twice_or_in_another_order_read_as_the_same_set() {
    let a = TagSet::<3, 4>::from_str("x, y ,z,x").unwrap();
    let b = TagSet::<3, 4>::from_str("z,z,y,x").unwrap();
    assert_eq!(a, b);
    assert_eq!(texts(&a), texts(&b));
}
