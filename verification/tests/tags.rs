use fileperson::text::compare_text;
use fileperson::{Rank, Tag};
use std::cmp::Ordering;
use std::collections::hash_map::DefaultHasher;
use std::hash::{Hash, Hasher};
use std::str::FromStr;

fn hash_of(tag: &Tag) -> u64 {
    let mut hasher = DefaultHasher::new();
    tag.hash(&mut hasher);
    hasher.finish()
}

#[test]
fn tags_equal_under_folding_are_equal_in_every_respect() {
    for (a, b) in [("Red", "red"), ("BLUE", "bLuE"), ("Straße", "STRASSE"), ("", "")] {
        let (x, y) = (Tag::from(a), Tag::from(b));
        assert!(x == y);
        assert_eq!(x.cmp(&y), Ordering::Equal);
        assert_eq!(x.partial_cmp(&y), Some(Ordering::Equal));
        assert_eq!(x.rank(&y), Rank::Same);
        assert_eq!(hash_of(&x), hash_of(&y));
        assert_eq!(x.hash_key(), y.hash_key());
    }
}

#[test]
fn tags_that_fold_differently_are_different() {
    let (x, y) = (Tag::from("red"), Tag::from("reed"));
    assert!(x != y);
    assert_ne!(x.cmp(&y), Ordering::Equal);
    assert_ne!(x.hash_key(), y.hash_key());
}

#[test]
fn tags_are_ordered_by_their_folded_values() {
    // By bytes "Banana" would come before "apple".
    assert_eq!(Tag::from("apple").cmp(&Tag::from("Banana")), Ordering::Less);
    assert_eq!(Tag::from("Banana").cmp(&Tag::from("apple")), Ordering::Greater);
    assert!(Tag::from("apple") < Tag::from("Banana"));
    assert!(Tag::from("b") > Tag::from("A"));
    assert_eq!(Tag::from("ab").cmp(&Tag::from("abc")), Ordering::Less);
    assert_eq!(Tag::from("").cmp(&Tag::from("a")), Ordering::Less);
    assert_eq!(Tag::from("Z").rank(&Tag::from("a")), Rank::After);
}

#[test]
fn the_colour_takes_no_part_in_identity() {
    let plain = Tag::from("red");
    let coloured = Tag::new("RED".to_string(), Some("#ff0000".to_string()));
    assert!(plain == coloured);
    assert_eq!(plain.cmp(&coloured), Ordering::Equal);
    assert_eq!(hash_of(&plain), hash_of(&coloured));
    assert_eq!(coloured.color(), Some("#ff0000"));
    assert_eq!(plain.color(), None);
}

#[test]
fn a_tag_shows_as_it_was_written() {
    assert_eq!(Tag::from("MiXed Case").display(), "MiXed Case");
    assert_eq!(Tag::from("MiXed Case").value(), "MiXed Case");
    assert_eq!(Tag::from_str("Any String").unwrap().display(), "Any String");
    assert_eq!(Tag::from_str("").unwrap().color(), None);
    let copy = Tag::new("x".to_string(), Some("c".to_string())).clone();
    assert_eq!(copy.value(), "x");
    assert_eq!(copy.color(), Some("c"));
}

#[test]
fn the_key_of_a_tag_is_its_unicode_case_folding() {
    assert_eq!(Tag::from("Test Case").hash_key(), "test case");
    assert_eq!(Tag::from("Teſt Caſe").hash_key(), "test case");
    assert_eq!(Tag::from("straße").hash_key(), "strasse");
    assert_eq!(Tag::from("spiﬃest").hash_key(), "spiffiest");
    assert!(Tag::from("Teſt") == Tag::from("TEST"));
    assert!(Tag::from("ﬃ") == Tag::from("FFI"));
    assert!(Tag::from("test") != Tag::from("text"));
}

#[test]
fn text_is_compared_by_code_point() {
    assert_eq!(compare_text("", ""), Rank::Same);
    assert_eq!(compare_text("abc", "abc"), Rank::Same);
    assert_eq!(compare_text("abc", "abd"), Rank::Before);
    assert_eq!(compare_text("abd", "abc"), Rank::After);
    assert_eq!(compare_text("ab", "abc"), Rank::Before);
    assert_eq!(compare_text("abc", "ab"), Rank::After);
    assert_eq!(compare_text("Z", "a"), Rank::Before);
    // U+FF5E sorts before U+1F600 by code point, as it does by bytes.
    assert_eq!(compare_text("\u{ff5e}", "\u{1f600}"), Rank::Before);
}
