use wla::{find_edit_distance, find_first_different_character_zero_indexed,
    find_longest_shared_prefix, find_mean_edit_distance, find_shortest_edit_distance,
    has_prefix_words, has_suffix_words};

fn words(items: &[&str]) -> Vec<String> {
    items.iter().map(|w| w.to_string()).collect()
}

#[test]
fn edit_distance_matches_known_values() {
    assert_eq!(find_edit_distance("kitten", "sitting"), 3);
    assert_eq!(find_edit_distance("flaw", "lawn"), 2);
    assert_eq!(find_edit_distance("", "abc"), 3);
    assert_eq!(find_edit_distance("abc", ""), 3);
}

#[test]
fn edit_distance_is_symmetric_and_zero_on_self() {
    assert_eq!(
        find_edit_distance("kitten", "sitting"),
        find_edit_distance("sitting", "kitten")
    );
    assert_eq!(find_edit_distance("same", "same"), 0);
    assert_eq!(find_edit_distance("", ""), 0);
}

#[test]
fn edit_distance_counts_graphemes() {
    // Replacing a decomposed accented letter is one edit.
    assert_eq!(find_edit_distance("e\u{301}", "a"), 1);
}

#[test]
fn shortest_edit_distance_scans_value_distinct_pairs() {
    let list = words(&["cat", "bat", "horse"]);
    assert_eq!(find_shortest_edit_distance(&list), 1);
    // Duplicates are not compared against themselves.
    let list = words(&["cat", "cat", "horse"]);
    assert_eq!(find_shortest_edit_distance(&list), 5);
}

#[test]
fn shortest_edit_distance_sentinel_without_pairs() {
    let list = words(&["alone"]);
    assert_eq!(find_shortest_edit_distance(&list), 0xFFFF_FFFF);
    let list = words(&["twin", "twin"]);
    assert_eq!(find_shortest_edit_distance(&list), 0xFFFF_FFFF);
}

#[test]
fn mean_edit_distance_sums_every_position_pair() {
    // Distances: cat-bat 1, cat-cart 1, bat-cart 2: mean 4/3.
    let list = words(&["cat", "bat", "cart"]);
    let mean = find_mean_edit_distance(&list).unwrap();
    assert_eq!(mean.num, 4);
    assert_eq!(mean.den, 3);
    // Duplicate positions still count as pairs.
    let list = words(&["cat", "cat"]);
    let mean = find_mean_edit_distance(&list).unwrap();
    assert_eq!(mean.num, 0);
    assert_eq!(mean.den, 1);
}

#[test]
fn mean_edit_distance_is_order_independent() {
    let list = words(&["mud", "mule", "mulled", "on"]);
    let mut reversed = list.clone();
    reversed.reverse();
    let m1 = find_mean_edit_distance(&list).unwrap();
    let m2 = find_mean_edit_distance(&reversed).unwrap();
    assert_eq!(m1.num, m2.num);
    assert_eq!(m1.den, m2.den);
}

#[test]
fn mean_edit_distance_marks_single_word_lists() {
    let list = words(&["alone"]);
    let mean = find_mean_edit_distance(&list).unwrap();
    assert_eq!(mean.num, 0);
    assert_eq!(mean.den, 0);
}

#[test]
fn first_differing_index_handles_prefixes() {
    assert_eq!(find_first_different_character_zero_indexed("hello", "help"), 3);
    assert_eq!(find_first_different_character_zero_indexed("zip", "zippy"), 3);
    assert_eq!(find_first_different_character_zero_indexed("zippy", "zip"), 3);
    assert_eq!(find_first_different_character_zero_indexed("abc", "xyz"), 0);
}

#[test]
fn longest_shared_prefix_over_distinct_pairs() {
    let list = words(&["mud", "mule", "mulled"]);
    assert_eq!(find_longest_shared_prefix(&list, None), 3);
    assert_eq!(find_longest_shared_prefix(&list, Some(6)), 3);
    // The longest shared prefix is strictly below the longest word.
    assert!(find_longest_shared_prefix(&list, None) < 6);
}

#[test]
fn longest_shared_prefix_ignores_equal_words() {
    let list = words(&["same", "same"]);
    assert_eq!(find_longest_shared_prefix(&list, None), 0);
}

#[test]
fn prefix_and_suffix_words_are_found() {
    let list = words(&["mule", "mu"]);
    assert!(has_prefix_words(&list));
    assert!(!has_suffix_words(&list));

    let list = words(&["mule", "le"]);
    assert!(!has_prefix_words(&list));
    assert!(has_suffix_words(&list));

    let list = words(&["mule", "mole", "mule"]);
    assert!(!has_prefix_words(&list));
    assert!(!has_suffix_words(&list));
}
