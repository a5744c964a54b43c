use wla::decodable::is_uniquely_decodable;
use wla::AuditError;

fn words(items: &[&str]) -> Vec<String> {
    items.iter().map(|w| w.to_string()).collect()
}

#[test]
fn prefix_free_code_is_uniquely_decodable() {
    let list = words(&["a", "b"]);
    assert_eq!(is_uniquely_decodable(&list, 64), Ok(true));
}

#[test]
fn one_dangling_suffix_that_dies_out_is_still_decodable() {
    // The only dangling suffix, "b", matches nothing further: every
    // concatenation of "a" and "ab" parses one way only.
    let list = words(&["a", "ab"]);
    assert_eq!(is_uniquely_decodable(&list, 64), Ok(true));
}

#[test]
fn ambiguous_code_is_not_uniquely_decodable() {
    // "aba" parses as a|ba and as ab|a.
    let list = words(&["a", "ab", "ba"]);
    assert_eq!(is_uniquely_decodable(&list, 64), Ok(false));
}

#[test]
fn classic_sardinas_patterson_example() {
    // A known non-decodable code: 1, 011, 01110, 1110, 10011.
    let list = words(&["1", "011", "01110", "1110", "10011"]);
    assert_eq!(is_uniquely_decodable(&list, 64), Ok(false));
}

#[test]
fn duplicate_entries_do_not_make_a_code_undecodable() {
    let list = words(&["a", "a", "b"]);
    assert_eq!(is_uniquely_decodable(&list, 64), Ok(true));
}

#[test]
fn exhausted_iteration_bound_is_reported() {
    let list = words(&["a", "ab"]);
    assert_eq!(
        is_uniquely_decodable(&list, 1),
        Err(AuditError::ResourceExhausted)
    );
}
