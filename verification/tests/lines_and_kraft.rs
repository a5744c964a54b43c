use wla::{is_above_brute_force_line, is_above_shannon_line, satisfies_kraft_mcmillan,
    KraftMcmillanOutcome};

fn one_char_words(n: usize) -> Vec<String> {
    let alphabet = "abcdefghijklmnopqrstuvwxyz{";
    alphabet.chars().take(n).map(|c| c.to_string()).collect()
}

#[test]
fn twenty_seven_one_character_words_are_not_above_the_brute_force_line() {
    let list = one_char_words(27);
    assert!(!is_above_brute_force_line(&list));
}

#[test]
fn twenty_six_one_character_words_are_above_the_brute_force_line() {
    let list = one_char_words(26);
    assert!(is_above_brute_force_line(&list));
}

#[test]
fn brute_force_line_uses_the_shortest_word() {
    // 27 words, but the shortest has two characters: 27 <= 26^2.
    let mut list: Vec<String> = (0..27).map(|i| format!("w{}", i)).collect();
    assert!(is_above_brute_force_line(&list));
    // Adding a one-character word drops the exponent back to one.
    list.push("q".to_string());
    assert!(!is_above_brute_force_line(&list));
}

#[test]
fn shannon_line_is_stricter_than_brute_force() {
    // 7 one-character words: 7 > 6.1, so not above the Shannon line,
    // while 7 <= 26 keeps it above the brute-force line.
    let list = one_char_words(7);
    assert!(is_above_brute_force_line(&list));
    assert!(!is_above_shannon_line(&list));
    // 6 one-character words: 6 <= 6.1.
    let list = one_char_words(6);
    assert!(is_above_shannon_line(&list));
}

#[test]
fn shannon_line_with_two_character_words() {
    // 6.1 squared is 37.21: 37 two-character words stay above the
    // line, 38 do not.
    let make = |n: usize| -> Vec<String> {
        (0..n).map(|i| format!("{}{}", (b'a' + (i / 26) as u8) as char,
            (b'a' + (i % 26) as u8) as char)).collect()
    };
    assert!(is_above_shannon_line(&make(37)));
    assert!(!is_above_shannon_line(&make(38)));
}

#[test]
fn kraft_mcmillan_exactly_at_one_is_satisfied() {
    // Alphabet size 3, each word one character: 3 * (1/3) = 1.0.
    let list = vec!["a".to_string(), "b".to_string(), "c".to_string()];
    assert_eq!(satisfies_kraft_mcmillan(&list), KraftMcmillanOutcome::Satisfied);
}

#[test]
fn kraft_mcmillan_above_one_is_not_satisfied() {
    // Alphabet {a, b}: 1/2 + 1/2 + 1/4 = 1.25 > 1.
    let list = vec!["a".to_string(), "b".to_string(), "ab".to_string()];
    assert_eq!(satisfies_kraft_mcmillan(&list), KraftMcmillanOutcome::NotSatisfied);
}

#[test]
fn kraft_mcmillan_below_one_is_satisfied() {
    // Alphabet {a, b}: 1/4 + 1/4 + 1/4 = 0.75 <= 1.
    let list = vec!["aa".to_string(), "ab".to_string(), "ba".to_string()];
    assert_eq!(satisfies_kraft_mcmillan(&list), KraftMcmillanOutcome::Satisfied);
}

#[test]
fn kraft_outcome_display_names_are_stable() {
    assert_eq!(KraftMcmillanOutcome::Satisfied.display_name(), "satisfied");
    assert_eq!(KraftMcmillanOutcome::NotSatisfied.display_name(), "not satisfied");
}
