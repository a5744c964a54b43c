//! Audits a word list (for example a Diceware-style passphrase
//! dictionary) for the statistical and combinatorial properties that
//! decide whether passphrases built from it are safe and unambiguous.
//!
//! The core receives an already-cleaned ordered sequence of words and
//! returns one immutable attribute record; it performs no I/O.

pub mod clean;
pub mod decodable;
pub mod edit_distance;
pub mod lexical;
pub mod metrics;
pub mod prefixes;
pub mod sampling;
pub mod text;

pub use clean::{decode_list, decode_word, make_list_free_of_metadata, parse_delimiter,
    split_and_vectorize};
pub use edit_distance::{find_edit_distance, find_mean_edit_distance, find_shortest_edit_distance};
pub use lexical::{count_unique_words, get_shortest_word_length, has_blank_lines,
    has_duplicates_exact, has_duplicates_fuzzy, has_non_ascii_characters,
    has_starting_or_trailing_space, mean_word_length, uniform_unicode_normalization, Ratio};
pub use metrics::{is_above_brute_force_line, is_above_shannon_line, satisfies_kraft_mcmillan,
    KraftMcmillanOutcome};
pub use prefixes::{find_first_different_character_zero_indexed, find_longest_shared_prefix,
    has_prefix_words, has_suffix_words};
pub use sampling::generate_samples;
pub use text::count_characters;

use vstd::prelude::*;

verus! {

broadcast use crate::text::lemma_deep_view_index_strings;

/// Why an audit could not be completed: the input violated a
/// precondition, or a bounded computation ran past its configured or
/// representable limit.
#[derive(Clone, Copy, Debug, PartialEq, Eq, Structural)]
pub enum AuditError {
    /// An empty list was passed where a minimum, maximum, mean or
    /// logarithm requires at least one element.
    InvalidInput,
    /// The decodability iteration exceeded its caller-configured bound,
    /// or an exact sum outgrew its integer representation.
    ResourceExhausted,
}

/// One immutable snapshot of every metric of an audited list. Values
/// that a presentation layer would render as fractions or logarithms
/// are held exactly: the two means as unreduced fractions, and the
/// entropy-derived figures through `list_length`, the word lengths, and
/// the comparison-line booleans.
pub struct ListAttributes {
    pub list_length: usize,
    pub mean_word_length: Ratio,
    pub shortest_word_length: usize,
    pub shortest_word_example: String,
    pub longest_word_length: usize,
    pub longest_word_example: String,
    pub has_duplicates_exact: bool,
    pub has_duplicates_fuzzy: bool,
    pub has_blank_lines: bool,
    pub unique_words: usize,
    pub has_starting_or_trailing_space: bool,
    pub has_non_ascii_characters: bool,
    pub has_uniform_unicode_normalization: bool,
    pub is_free_of_prefix_words: bool,
    pub is_free_of_suffix_words: bool,
    pub is_uniquely_decodable: bool,
    pub is_above_brute_force_line: bool,
    pub is_above_shannon_line: bool,
    pub shortest_edit_distance: usize,
    pub mean_edit_distance: Ratio,
    pub longest_shared_prefix: usize,
    pub unique_character_prefix: usize,
    pub kraft_mcmillan: KraftMcmillanOutcome,
    pub samples: Vec<String>,
}

/// Computes every attribute of a non-empty word list and assembles one
/// immutable record. An empty list is rejected as invalid input; a
/// decodability iteration that outruns `decodability_bound` rounds, or
/// an edit-distance sum that outgrows its exact 128-bit representation,
/// is reported as exhaustion. No record is returned partially filled.
#[verifier::rlimit(100)]
#[verifier::spinoff_prover]
pub fn make_attributes(list: &Vec<String>, decodability_bound: usize) -> (r: Result<
    ListAttributes,
    AuditError,
>)
    ensures
        list@.len() == 0 ==> r == Err::<ListAttributes, AuditError>(AuditError::InvalidInput),
        r matches Err(e) ==> e == AuditError::InvalidInput || e == AuditError::ResourceExhausted,
        (r matches Err(e) && e == AuditError::InvalidInput) ==> list@.len() == 0,
        r == Err::<ListAttributes, AuditError>(AuditError::ResourceExhausted)
            ==> edit_distance::pair_dist_sum(list.deep_view(), list@.len() as int) > u128::MAX
            || (forall|m: nat|
            1 <= m < decodability_bound ==> !decodable::sp_settles(
                list.deep_view().to_set(),
                m,
            )),
        r matches Ok(a) ==> {
            let dvs = list.deep_view();
            &&& a.list_length == list@.len()
            &&& a.mean_word_length.num == lexical::len_sum(dvs)
            &&& a.mean_word_length.den == list@.len()
            &&& a.shortest_word_length == metrics::min_glen(dvs)
            &&& exists|i: int|
                0 <= i < dvs.len() && a.shortest_word_example@ == #[trigger] dvs[i]
                    && text::grapheme_len(dvs[i]) == a.shortest_word_length && (forall|j: int|
                    i < j < dvs.len() ==> text::grapheme_len(#[trigger] dvs[j])
                        > a.shortest_word_length)
            &&& a.longest_word_length == metrics::max_glen(dvs)
            &&& exists|i: int|
                0 <= i < dvs.len() && a.longest_word_example@ == #[trigger] dvs[i]
                    && text::grapheme_len(dvs[i]) == a.longest_word_length && (forall|j: int|
                    i < j < dvs.len() ==> text::grapheme_len(#[trigger] dvs[j])
                        < a.longest_word_length)
            &&& a.has_duplicates_exact == exists|i: int, j: int|
                0 <= i < j < dvs.len() && dvs[i] == dvs[j]
            &&& a.has_duplicates_fuzzy == exists|i: int, j: int|
                0 <= i < j < dvs.len() && text::fuzzy_form(dvs[i]) == text::fuzzy_form(dvs[j])
            &&& a.has_blank_lines == exists|i: int| 0 <= i < dvs.len() && lexical::is_blank(dvs[i])
            &&& a.unique_words == lexical::fuzzy_word_set(dvs).len()
            &&& a.has_starting_or_trailing_space == exists|i: int|
                0 <= i < dvs.len() && lexical::has_edge_space(dvs[i])
            &&& a.has_non_ascii_characters == exists|i: int|
                0 <= i < dvs.len() && !vstd::utf8::is_ascii_chars(dvs[i])
            &&& a.has_uniform_unicode_normalization == forall|i: int|
                0 <= i < dvs.len() ==> text::nfc_of(#[trigger] dvs[i]) == dvs[i]
            &&& a.is_free_of_prefix_words == !exists|i: int, j: int|
                #![trigger dvs[j].is_prefix_of(dvs[i])]
                0 <= i < dvs.len() && 0 <= j < dvs.len() && dvs[i] != dvs[j]
                    && dvs[j].is_prefix_of(dvs[i])
            &&& a.is_free_of_suffix_words == !exists|i: int, j: int|
                #![trigger dvs[j].is_suffix_of(dvs[i])]
                0 <= i < dvs.len() && 0 <= j < dvs.len() && dvs[i] != dvs[j]
                    && dvs[j].is_suffix_of(dvs[i])
            &&& a.is_uniquely_decodable == decodable::uniquely_decodable(dvs.to_set())
            &&& a.is_above_brute_force_line == (list@.len() <= vstd::arithmetic::power::pow(
                26,
                metrics::min_glen(dvs),
            ))
            &&& a.is_above_shannon_line == (list@.len() * vstd::arithmetic::power::pow(
                10,
                metrics::min_glen(dvs),
            ) <= vstd::arithmetic::power::pow(61, metrics::min_glen(dvs)))
            &&& a.shortest_edit_distance <= edit_distance::no_pair_sentinel()
            &&& forall|p: int, q: int|
                #![trigger text::graphemes_of(dvs[p]), text::graphemes_of(dvs[q])]
                0 <= p < q < dvs.len() && dvs[p] != dvs[q] ==> a.shortest_edit_distance
                    <= edit_distance::edit_dist(
                    text::graphemes_of(dvs[p]),
                    text::graphemes_of(dvs[q]),
                )
            &&& ((exists|p: int, q: int|
                #![trigger text::graphemes_of(dvs[p]), text::graphemes_of(dvs[q])]
                0 <= p < q < dvs.len() && dvs[p] != dvs[q] && edit_distance::edit_dist(
                    text::graphemes_of(dvs[p]),
                    text::graphemes_of(dvs[q]),
                ) == a.shortest_edit_distance) || a.shortest_edit_distance
                == edit_distance::no_pair_sentinel())
            &&& a.mean_edit_distance.num == edit_distance::pair_dist_sum(dvs, dvs.len() as int)
            &&& a.mean_edit_distance.den == edit_distance::pair_count(list@.len())
            &&& forall|p: int, q: int|
                #![trigger text::graphemes_of(dvs[p]), text::graphemes_of(dvs[q])]
                0 <= p < dvs.len() && 0 <= q < dvs.len() && dvs[p] != dvs[q]
                    ==> prefixes::first_diff(
                    text::graphemes_of(dvs[p]),
                    text::graphemes_of(dvs[q]),
                ) <= a.longest_shared_prefix
            &&& ((exists|p: int, q: int|
                #![trigger text::graphemes_of(dvs[p]), text::graphemes_of(dvs[q])]
                0 <= p < dvs.len() && 0 <= q < dvs.len() && dvs[p] != dvs[q]
                    && prefixes::first_diff(
                    text::graphemes_of(dvs[p]),
                    text::graphemes_of(dvs[q]),
                ) == a.longest_shared_prefix) || (a.longest_shared_prefix == 0 && forall|
                p: int,
                q: int,
            |
                #![trigger dvs[p], dvs[q]]
                0 <= p < dvs.len() && 0 <= q < dvs.len() ==> dvs[p] == dvs[q]))
            &&& ((exists|p: int, q: int|
                #![trigger dvs[p], dvs[q]]
                0 <= p < dvs.len() && 0 <= q < dvs.len() && dvs[p] != dvs[q])
                ==> a.longest_shared_prefix < a.longest_word_length)
            &&& a.unique_character_prefix == a.longest_shared_prefix + 1
            &&& (a.kraft_mcmillan == KraftMcmillanOutcome::Satisfied) == metrics::kraft_ok(dvs)
            &&& a.samples@.len() == 30
            &&& forall|k: int| 0 <= k < a.samples@.len() ==> list@.contains(#[trigger] a.samples@[k])
        },
{
    if list.len() == 0 {
        return Err(AuditError::InvalidInput);
    }
    let mean_edit_distance = match find_mean_edit_distance(list) {
        Ok(m) => m,
        Err(_) => {
            proof {
                assert(edit_distance::pair_dist_sum(list.deep_view(), list@.len() as int)
                    > u128::MAX);
            }
            return Err(AuditError::ResourceExhausted);
        },
    };
    let is_uniquely_decodable = match decodable::is_uniquely_decodable(list, decodability_bound) {
        Ok(b) => b,
        Err(_) => {
            return Err(AuditError::ResourceExhausted);
        },
    };
    Ok(assemble_attributes(list, mean_edit_distance, is_uniquely_decodable))
}

/// Computes and assembles every per-list attribute once the two bounded
/// computations — the exact pairwise distance sum and the decodability
/// iteration — have already succeeded.
#[verifier::rlimit(100)]
#[verifier::spinoff_prover]
fn assemble_attributes(
    list: &Vec<String>,
    mean_edit_distance: Ratio,
    is_uniquely_decodable: bool,
) -> (a: ListAttributes)
    requires
        list@.len() > 0,
        mean_edit_distance.num == edit_distance::pair_dist_sum(
            list.deep_view(),
            list@.len() as int,
        ),
        mean_edit_distance.den == edit_distance::pair_count(list@.len()),
        is_uniquely_decodable == decodable::uniquely_decodable(list.deep_view().to_set()),
    ensures
        ({
            let dvs = list.deep_view();
            &&& a.list_length == list@.len()
            &&& a.mean_word_length.num == lexical::len_sum(dvs)
            &&& a.mean_word_length.den == list@.len()
            &&& a.shortest_word_length == metrics::min_glen(dvs)
            &&& exists|i: int|
                0 <= i < dvs.len() && a.shortest_word_example@ == #[trigger] dvs[i]
                    && text::grapheme_len(dvs[i]) == a.shortest_word_length && (forall|j: int|
                    i < j < dvs.len() ==> text::grapheme_len(#[trigger] dvs[j])
                        > a.shortest_word_length)
            &&& a.longest_word_length == metrics::max_glen(dvs)
            &&& exists|i: int|
                0 <= i < dvs.len() && a.longest_word_example@ == #[trigger] dvs[i]
                    && text::grapheme_len(dvs[i]) == a.longest_word_length && (forall|j: int|
                    i < j < dvs.len() ==> text::grapheme_len(#[trigger] dvs[j])
                        < a.longest_word_length)
            &&& a.has_duplicates_exact == exists|i: int, j: int|
                0 <= i < j < dvs.len() && dvs[i] == dvs[j]
            &&& a.has_duplicates_fuzzy == exists|i: int, j: int|
                0 <= i < j < dvs.len() && text::fuzzy_form(dvs[i]) == text::fuzzy_form(dvs[j])
            &&& a.has_blank_lines == exists|i: int| 0 <= i < dvs.len() && lexical::is_blank(dvs[i])
            &&& a.unique_words == lexical::fuzzy_word_set(dvs).len()
            &&& a.has_starting_or_trailing_space == exists|i: int|
                0 <= i < dvs.len() && lexical::has_edge_space(dvs[i])
            &&& a.has_non_ascii_characters == exists|i: int|
                0 <= i < dvs.len() && !vstd::utf8::is_ascii_chars(dvs[i])
            &&& a.has_uniform_unicode_normalization == forall|i: int|
                0 <= i < dvs.len() ==> text::nfc_of(#[trigger] dvs[i]) == dvs[i]
            &&& a.is_free_of_prefix_words == !exists|i: int, j: int|
                #![trigger dvs[j].is_prefix_of(dvs[i])]
                0 <= i < dvs.len() && 0 <= j < dvs.len() && dvs[i] != dvs[j]
                    && dvs[j].is_prefix_of(dvs[i])
            &&& a.is_free_of_suffix_words == !exists|i: int, j: int|
                #![trigger dvs[j].is_suffix_of(dvs[i])]
                0 <= i < dvs.len() && 0 <= j < dvs.len() && dvs[i] != dvs[j]
                    && dvs[j].is_suffix_of(dvs[i])
            &&& a.is_uniquely_decodable == decodable::uniquely_decodable(dvs.to_set())
            &&& a.is_above_brute_force_line == (list@.len() <= vstd::arithmetic::power::pow(
                26,
                metrics::min_glen(dvs),
            ))
            &&& a.is_above_shannon_line == (list@.len() * vstd::arithmetic::power::pow(
                10,
                metrics::min_glen(dvs),
            ) <= vstd::arithmetic::power::pow(61, metrics::min_glen(dvs)))
            &&& a.shortest_edit_distance <= edit_distance::no_pair_sentinel()
            &&& forall|p: int, q: int|
                #![trigger text::graphemes_of(dvs[p]), text::graphemes_of(dvs[q])]
                0 <= p < q < dvs.len() && dvs[p] != dvs[q] ==> a.shortest_edit_distance
                    <= edit_distance::edit_dist(
                    text::graphemes_of(dvs[p]),
                    text::graphemes_of(dvs[q]),
                )
            &&& ((exists|p: int, q: int|
                #![trigger text::graphemes_of(dvs[p]), text::graphemes_of(dvs[q])]
                0 <= p < q < dvs.len() && dvs[p] != dvs[q] && edit_distance::edit_dist(
                    text::graphemes_of(dvs[p]),
                    text::graphemes_of(dvs[q]),
                ) == a.shortest_edit_distance) || a.shortest_edit_distance
                == edit_distance::no_pair_sentinel())
            &&& a.mean_edit_distance.num == edit_distance::pair_dist_sum(dvs, dvs.len() as int)
            &&& a.mean_edit_distance.den == edit_distance::pair_count(list@.len())
            &&& forall|p: int, q: int|
                #![trigger text::graphemes_of(dvs[p]), text::graphemes_of(dvs[q])]
                0 <= p < dvs.len() && 0 <= q < dvs.len() && dvs[p] != dvs[q]
                    ==> prefixes::first_diff(
                    text::graphemes_of(dvs[p]),
                    text::graphemes_of(dvs[q]),
                ) <= a.longest_shared_prefix
            &&& ((exists|p: int, q: int|
                #![trigger text::graphemes_of(dvs[p]), text::graphemes_of(dvs[q])]
                0 <= p < dvs.len() && 0 <= q < dvs.len() && dvs[p] != dvs[q]
                    && prefixes::first_diff(
                    text::graphemes_of(dvs[p]),
                    text::graphemes_of(dvs[q]),
                ) == a.longest_shared_prefix) || (a.longest_shared_prefix == 0 && forall|
                p: int,
                q: int,
            |
                #![trigger dvs[p], dvs[q]]
                0 <= p < dvs.len() && 0 <= q < dvs.len() ==> dvs[p] == dvs[q]))
            &&& ((exists|p: int, q: int|
                #![trigger dvs[p], dvs[q]]
                0 <= p < dvs.len() && 0 <= q < dvs.len() && dvs[p] != dvs[q])
                ==> a.longest_shared_prefix < a.longest_word_length)
            &&& a.unique_character_prefix == a.longest_shared_prefix + 1
            &&& (a.kraft_mcmillan == KraftMcmillanOutcome::Satisfied) == metrics::kraft_ok(dvs)
            &&& a.samples@.len() == 30
            &&& forall|k: int| 0 <= k < a.samples@.len() ==> list@.contains(#[trigger] a.samples@[k])
        }),
{
    let ghost dvs = list.deep_view();
    let samples = generate_samples(list);
    let ex = word_extremes(list);
    ListAttributes {
        list_length: list.len(),
        mean_word_length: mean_word_length(list),
        shortest_word_length: ex.shortest_word_length,
        shortest_word_example: ex.shortest_word_example,
        longest_word_length: ex.longest_word_length,
        longest_word_example: ex.longest_word_example,
        has_duplicates_exact: has_duplicates_exact(list),
        has_duplicates_fuzzy: has_duplicates_fuzzy(list),
        has_blank_lines: has_blank_lines(list),
        unique_words: count_unique_words(list),
        has_starting_or_trailing_space: has_starting_or_trailing_space(list),
        has_non_ascii_characters: has_non_ascii_characters(list),
        has_uniform_unicode_normalization: uniform_unicode_normalization(list),
        is_free_of_prefix_words: !has_prefix_words(list),
        is_free_of_suffix_words: !has_suffix_words(list),
        is_uniquely_decodable,
        is_above_brute_force_line: is_above_brute_force_line(list),
        is_above_shannon_line: is_above_shannon_line(list),
        shortest_edit_distance: find_shortest_edit_distance(list),
        mean_edit_distance,
        longest_shared_prefix: ex.longest_shared_prefix,
        unique_character_prefix: ex.longest_shared_prefix + 1,
        kraft_mcmillan: satisfies_kraft_mcmillan(list),
        samples,
    }
}

/// The shortest and longest words with their grapheme counts, and the
/// longest shared prefix, computed together so the prefix scan can use
/// the longest length as its documented short-circuit bound.
struct WordExtremes {
    shortest_word_example: String,
    shortest_word_length: usize,
    longest_word_example: String,
    longest_word_length: usize,
    longest_shared_prefix: usize,
}

#[verifier::rlimit(100)]
#[verifier::spinoff_prover]
fn word_extremes(list: &Vec<String>) -> (ex: WordExtremes)
    requires
        list@.len() > 0,
    ensures
        ({
            let dvs = list.deep_view();
            &&& ex.shortest_word_length == metrics::min_glen(dvs)
            &&& exists|i: int|
                0 <= i < dvs.len() && ex.shortest_word_example@ == #[trigger] dvs[i]
                    && text::grapheme_len(dvs[i]) == ex.shortest_word_length && (forall|j: int|
                    i < j < dvs.len() ==> text::grapheme_len(#[trigger] dvs[j])
                        > ex.shortest_word_length)
            &&& ex.longest_word_length == metrics::max_glen(dvs)
            &&& exists|i: int|
                0 <= i < dvs.len() && ex.longest_word_example@ == #[trigger] dvs[i]
                    && text::grapheme_len(dvs[i]) == ex.longest_word_length && (forall|j: int|
                    i < j < dvs.len() ==> text::grapheme_len(#[trigger] dvs[j])
                        < ex.longest_word_length)
            &&& forall|p: int, q: int|
                #![trigger text::graphemes_of(dvs[p]), text::graphemes_of(dvs[q])]
                0 <= p < dvs.len() && 0 <= q < dvs.len() && dvs[p] != dvs[q]
                    ==> prefixes::first_diff(
                    text::graphemes_of(dvs[p]),
                    text::graphemes_of(dvs[q]),
                ) <= ex.longest_shared_prefix
            &&& ((exists|p: int, q: int|
                #![trigger text::graphemes_of(dvs[p]), text::graphemes_of(dvs[q])]
                0 <= p < dvs.len() && 0 <= q < dvs.len() && dvs[p] != dvs[q]
                    && prefixes::first_diff(
                    text::graphemes_of(dvs[p]),
                    text::graphemes_of(dvs[q]),
                ) == ex.longest_shared_prefix) || (ex.longest_shared_prefix == 0 && forall|
                p: int,
                q: int,
            |
                #![trigger dvs[p], dvs[q]]
                0 <= p < dvs.len() && 0 <= q < dvs.len() ==> dvs[p] == dvs[q]))
            &&& ((exists|p: int, q: int|
                #![trigger dvs[p], dvs[q]]
                0 <= p < dvs.len() && 0 <= q < dvs.len() && dvs[p] != dvs[q])
                ==> ex.longest_shared_prefix < ex.longest_word_length)
        }),
{
    let ghost dvs = list.deep_view();
    let si = lexical::shortest_word_index(list);
    let li = lexical::longest_word_index(list);
    let shortest_word_example = list[si].clone();
    let longest_word_example = list[li].clone();
    let shortest_word_length = count_characters(shortest_word_example.as_str());
    let longest_word_length = count_characters(longest_word_example.as_str());
    proof {
        assert(shortest_word_example@ == dvs[si as int]);
        assert(longest_word_example@ == dvs[li as int]);
        metrics::lemma_min_glen(dvs);
        assert(shortest_word_length == metrics::min_glen(dvs)) by {
            let i = choose|i: int|
                0 <= i < dvs.len() && metrics::min_glen(dvs) == text::grapheme_len(dvs[i]);
            assert(text::grapheme_len(dvs[si as int]) <= text::grapheme_len(dvs[i]));
        }
        metrics::lemma_max_glen(dvs);
        assert(longest_word_length == metrics::max_glen(dvs)) by {
            let i = choose|i: int|
                0 <= i < dvs.len() && metrics::max_glen(dvs) == text::grapheme_len(dvs[i]);
            assert(text::grapheme_len(dvs[li as int]) >= text::grapheme_len(dvs[i]));
        }
        assert(prefixes::is_longest_glen(dvs, longest_word_length as nat));
    }
    let longest_shared_prefix = find_longest_shared_prefix(list, Some(longest_word_length));
    proof {
        if exists|p: int, q: int|
            #![trigger dvs[p], dvs[q]]
            0 <= p < dvs.len() && 0 <= q < dvs.len() && dvs[p] != dvs[q] {
            assert(longest_shared_prefix < longest_word_length);
        }
    }
    WordExtremes {
        shortest_word_example,
        shortest_word_length,
        longest_word_example,
        longest_word_length,
        longest_shared_prefix,
    }
}

} // verus!
