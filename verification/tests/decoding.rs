use wla::{decode_list, decode_word, make_list_free_of_metadata, parse_delimiter,
    split_and_vectorize};

#[test]
fn can_decode_a_word() {
    let word = "   \"mat\",";
    assert_eq!(decode_word(word), "mat");
}

#[test]
fn decode_word_short_inputs_become_empty() {
    assert_eq!(decode_word(""), "");
    assert_eq!(decode_word("  x "), "");
    assert_eq!(decode_word("ab"), "");
}

#[test]
fn decode_list_strips_quoted_entries_only() {
    let list = vec![
        "\"mat\",".to_string(),
        "plain".to_string(),
        "  spaced  ".to_string(),
    ];
    let decoded = decode_list(&list);
    assert_eq!(decoded, vec!["mat", "plain", "spaced"]);
}

#[test]
fn parse_delimiter_expands_letters() {
    assert_eq!(parse_delimiter('s'), Some(' '));
    assert_eq!(parse_delimiter('t'), Some('\t'));
    assert_eq!(parse_delimiter(','), Some(','));
}

#[test]
fn split_and_vectorize_splits_by_substring() {
    assert_eq!(split_and_vectorize("a:b:c", ":"), vec!["a", "b", "c"]);
    assert_eq!(split_and_vectorize("aaa", "aa"), vec!["", "a"]);
    assert_eq!(split_and_vectorize("none", ":"), vec!["none"]);
    assert_eq!(split_and_vectorize(":x:", ":"), vec!["", "x", ""]);
}

#[test]
fn metadata_after_delimiter_is_kept_with_before_option() {
    let list = vec!["123,dog".to_string(), "plain".to_string()];
    let cleaned = make_list_free_of_metadata(&list, Some(','), None);
    assert_eq!(cleaned, vec!["dog", "plain"]);
}

#[test]
fn metadata_before_delimiter_is_kept_with_after_option() {
    let list = vec!["dog\t123".to_string(), "plain".to_string()];
    let cleaned = make_list_free_of_metadata(&list, None, Some('t'));
    assert_eq!(cleaned, vec!["dog", "plain"]);
}

#[test]
fn metadata_untouched_without_delimiters() {
    let list = vec!["dog,123".to_string()];
    let cleaned = make_list_free_of_metadata(&list, None, None);
    assert_eq!(cleaned, list);
}
