use wla::{count_characters, count_unique_words, get_shortest_word_length, has_blank_lines,
    has_duplicates_exact, has_duplicates_fuzzy, has_non_ascii_characters,
    has_starting_or_trailing_space, mean_word_length, uniform_unicode_normalization};

fn words(items: &[&str]) -> Vec<String> {
    items.iter().map(|w| w.to_string()).collect()
}

#[test]
fn count_characters_counts_grapheme_clusters() {
    assert_eq!(count_characters("dog"), 3);
    assert_eq!(count_characters(""), 0);
    // A decomposed accent is two code points but one user-perceived
    // character; so is an emoji.
    assert_eq!(count_characters("e\u{301}"), 1);
    assert_eq!(count_characters("caf\u{e9}"), 4);
    assert_eq!(count_characters("\u{1F600}"), 1);
}

#[test]
fn duplicate_detection_is_exact_and_fuzzy() {
    let list = words(&["Cat", "cat "]);
    assert!(!has_duplicates_exact(&list));
    assert!(has_duplicates_fuzzy(&list));

    let list = words(&["cat", "dog", "cat"]);
    assert!(has_duplicates_exact(&list));
    assert!(has_duplicates_fuzzy(&list));

    let list = words(&["cat", "dog"]);
    assert!(!has_duplicates_exact(&list));
    assert!(!has_duplicates_fuzzy(&list));
}

#[test]
fn unique_words_are_counted_case_and_space_insensitively() {
    let list = words(&["Cat", "cat ", "dog", "bird"]);
    assert_eq!(count_unique_words(&list), 3);
}

#[test]
fn blank_lines_and_edge_whitespace_are_found() {
    assert!(has_blank_lines(&words(&["a", "   ", "b"])));
    assert!(has_blank_lines(&words(&["a", "", "b"])));
    assert!(!has_blank_lines(&words(&["a", "b"])));

    assert!(has_starting_or_trailing_space(&words(&["a", " b"])));
    assert!(has_starting_or_trailing_space(&words(&["a", "b "])));
    assert!(!has_starting_or_trailing_space(&words(&["a", "b"])));
}

#[test]
fn non_ascii_characters_are_found() {
    assert!(has_non_ascii_characters(&words(&["dog", "caf\u{e9}"])));
    assert!(!has_non_ascii_characters(&words(&["dog", "cafe"])));
}

#[test]
fn shortest_word_length_is_the_minimum() {
    let list = words(&["bike", "on", "tree"]);
    assert_eq!(get_shortest_word_length(&list), 2);
}

#[test]
fn mean_word_length_is_an_exact_fraction() {
    // Lengths 4, 2, 3: sum 9 over 3 words.
    let list = words(&["bike", "on", "the"]);
    let mean = mean_word_length(&list);
    assert_eq!(mean.num, 9);
    assert_eq!(mean.den, 3);
}

#[test]
fn normalization_check_spots_decomposed_words() {
    // The composed form is in NFC; the decomposed form is not.
    assert!(uniform_unicode_normalization(&words(&["caf\u{e9}", "dog"])));
    assert!(!uniform_unicode_normalization(&words(&["cafe\u{301}", "dog"])));
}
