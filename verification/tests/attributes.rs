use wla::{generate_samples, make_attributes, AuditError, KraftMcmillanOutcome};

fn words(items: &[&str]) -> Vec<String> {
    items.iter().map(|w| w.to_string()).collect()
}

#[test]
fn empty_lists_are_rejected_as_invalid_input() {
    let list: Vec<String> = Vec::new();
    assert!(matches!(
        make_attributes(&list, 64),
        Err(AuditError::InvalidInput)
    ));
}

#[test]
fn attributes_of_a_small_list() {
    let list = words(&["mud", "mule", "mulled", "on"]);
    let a = make_attributes(&list, 64).unwrap();
    assert_eq!(a.list_length, 4);
    assert_eq!(a.mean_word_length.num, 15);
    assert_eq!(a.mean_word_length.den, 4);
    assert_eq!(a.shortest_word_length, 2);
    assert_eq!(a.shortest_word_example, "on");
    assert_eq!(a.longest_word_length, 6);
    assert_eq!(a.longest_word_example, "mulled");
    assert!(!a.has_duplicates_exact);
    assert!(!a.has_duplicates_fuzzy);
    assert!(!a.has_blank_lines);
    assert_eq!(a.unique_words, 4);
    assert!(!a.has_starting_or_trailing_space);
    assert!(!a.has_non_ascii_characters);
    assert!(a.has_uniform_unicode_normalization);
    assert!(a.is_free_of_prefix_words);
    assert!(a.is_free_of_suffix_words);
    assert!(a.is_uniquely_decodable);
    assert!(a.is_above_brute_force_line);
    assert!(a.is_above_shannon_line);
    // mud-mule 2, mud-mulled 3, mud-on 3, mule-mulled 2, mule-on 4,
    // mulled-on 6: the least is 2 and the sum is 20 over 6 pairs.
    assert_eq!(a.shortest_edit_distance, 2);
    assert_eq!(a.mean_edit_distance.num, 20);
    assert_eq!(a.mean_edit_distance.den, 6);
    assert_eq!(a.longest_shared_prefix, 3);
    assert_eq!(a.unique_character_prefix, 4);
    assert_eq!(a.kraft_mcmillan, KraftMcmillanOutcome::Satisfied);
    assert_eq!(a.samples.len(), 30);
    for s in &a.samples {
        assert!(list.contains(s));
    }
}

#[test]
fn shortest_and_longest_ties_resolve_to_the_last_entry() {
    let list = words(&["aa", "zz", "long", "pole"]);
    let a = make_attributes(&list, 64).unwrap();
    assert_eq!(a.shortest_word_example, "zz");
    assert_eq!(a.longest_word_example, "pole");
}

#[test]
fn mean_word_length_lies_between_shortest_and_longest() {
    // The exact fraction num/den satisfies
    // shortest <= num/den <= longest, compared without division.
    let list = words(&["bike", "on", "the", "mulberry"]);
    let a = make_attributes(&list, 64).unwrap();
    let shortest = a.shortest_word_length as u128;
    let longest = a.longest_word_length as u128;
    assert!(shortest * a.mean_word_length.den <= a.mean_word_length.num);
    assert!(a.mean_word_length.num <= longest * a.mean_word_length.den);
}

#[test]
fn attributes_flag_problem_lists() {
    let list = words(&["word", " word", "Word", "w\u{f6}rd", "", "wo"]);
    let a = make_attributes(&list, 64).unwrap();
    assert!(a.has_duplicates_fuzzy);
    assert!(!a.has_duplicates_exact);
    assert!(a.has_blank_lines);
    assert!(a.has_starting_or_trailing_space);
    assert!(a.has_non_ascii_characters);
    assert!(!a.is_free_of_prefix_words);
    assert!(!a.is_free_of_suffix_words);
}

#[test]
fn exhausted_decodability_bound_fails_the_whole_audit() {
    let list = words(&["a", "ab"]);
    assert!(matches!(
        make_attributes(&list, 1),
        Err(AuditError::ResourceExhausted)
    ));
}

#[test]
fn samples_come_from_the_list() {
    let list = words(&["only"]);
    let samples = generate_samples(&list);
    assert_eq!(samples.len(), 30);
    for s in &samples {
        assert_eq!(s, "only");
    }
}
