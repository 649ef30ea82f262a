use nexusnotes::models::{new_id, StoreError};
use nexusnotes::order::{sort_positions, SortKey};
use nexusnotes::text::{
    char_is_whitespace, chars_contain, chars_le, chars_of, text_is_blank, text_matches_folded,
};

fn text_le(a: &str, b: &str) -> bool {
    chars_le(&chars_of(a), &chars_of(b))
}

fn text_contains(hay: &str, needle: &str) -> bool {
    chars_contain(&chars_of(hay), &chars_of(needle))
}

#[test]
fn white_space_is_what_the_standard_library_calls_so() {
    let mut c = 0u32;
    while c <= 0x10FFFF {
        if let Some(ch) = char::from_u32(c) {
            assert_eq!(char_is_whitespace(ch), ch.is_whitespace(), "U+{:04X}", c);
        }
        c += 1;
    }
}

#[test]
fn blank_is_what_trimming_leaves_empty() {
    for s in ["", " ", "   ", "\t", "\r\n", "\u{a0}", "\u{2003}\u{3000}", " a", "a ", ".", "\u{200b}"] {
        assert_eq!(text_is_blank(s), s.trim().is_empty(), "{:?}", s);
    }
    assert!(text_is_blank(""));
    assert!(text_is_blank(" \t\n"));
    assert!(!text_is_blank(" x "));
}

#[test]
fn chars_of_lists_scalar_values() {
    assert_eq!(chars_of(""), Vec::<char>::new());
    assert_eq!(chars_of("a°📥"), vec!['a', '°', '📥']);
}

#[test]
fn text_order_is_the_order_of_code_points() {
    let words = ["", "A", "Z", "a", "ab", "abc", "b", "é", "日本", "📥"];
    for a in words {
        for b in words {
            assert_eq!(text_le(a, b), a <= b, "{:?} {:?}", a, b);
        }
    }
    assert!(text_le("2024-01-12 09:00:00", "2024-01-12 09:00:01"));
    assert!(!text_le("2024-01-12 10:00:00", "2024-01-12 09:59:59"));
}

#[test]
fn contains_finds_contiguous_parts() {
    assert!(text_contains("hello world", "lo w"));
    assert!(text_contains("hello", "hello"));
    assert!(text_contains("hello", ""));
    assert!(text_contains("", ""));
    assert!(text_contains("aab", "ab"));
    assert!(text_contains("350°F", "°F"));
    assert!(!text_contains("hello", "hello!"));
    assert!(!text_contains("hello", "Hello"));
    assert!(!text_contains("", "a"));
    assert!(!text_contains("abcabd", "abe"));
    assert!(text_contains("xxabc", "abc"));
}

#[test]
fn folded_match_lowers_the_text() {
    let q: Vec<char> = "straße".chars().collect();
    assert!(text_matches_folded("Hauptstraße 1", &q));
    let q: Vec<char> = "élan".chars().collect();
    assert!(text_matches_folded("ÉLAN vital", &q));
    let q: Vec<char> = "ÉLAN".chars().collect();
    assert!(!text_matches_folded("ÉLAN vital", &q));
}

#[test]
fn fresh_identifiers_have_the_shape_of_a_random_uuid() {
    let id = new_id();
    let chars: Vec<char> = id.chars().collect();
    assert_eq!(chars.len(), 36);
    for (i, c) in chars.iter().enumerate() {
        if i == 8 || i == 13 || i == 18 || i == 23 {
            assert_eq!(*c, '-');
        } else {
            assert!(c.is_ascii_digit() || ('a'..='f').contains(c));
        }
    }
    assert_eq!(chars[14], '4');
    assert!(['8', '9', 'a', 'b'].contains(&chars[19]));
    assert_ne!(new_id(), id);
}

#[test]
fn sorting_is_stable_in_both_directions() {
    let key = |rank: i32, text: &str| SortKey { rank, text: text.chars().collect() };
    let keys = vec![key(2, "b"), key(1, "z"), key(2, "a"), key(1, "z"), key(2, "b"), key(0, "")];
    assert_eq!(sort_positions(&keys, false), vec![5, 1, 3, 2, 0, 4]);
    assert_eq!(sort_positions(&keys, true), vec![0, 4, 2, 1, 3, 5]);
    assert_eq!(sort_positions(&Vec::new(), false), Vec::<usize>::new());
}

#[test]
fn every_error_has_its_message() {
    assert_eq!(StoreError::EmptyNotebookTitle.message(), "Notebook title cannot be empty.");
    assert_eq!(StoreError::EmptyNoteTitle.message(), "Note title cannot be empty.");
    assert_eq!(StoreError::DuplicateId.message(), "A row with this identifier is already stored.");
    assert_eq!(StoreError::UnknownParent.message(), "The parent notebook is not stored.");
    assert_eq!(StoreError::UnknownNotebook.message(), "The notebook of the note is not stored.");
    assert_eq!(StoreError::UnknownNote.message(), "The note is not stored.");
    assert_eq!(
        StoreError::SortOrderOverflow.message(),
        "The position among the siblings is out of range."
    );
}
