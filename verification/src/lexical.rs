//! Lexical statistics over the word list: blank lines, edge whitespace,
//! ASCII-ness, duplicate detection, unique-word counting, shortest and
//! longest words, and the mean word length.

use crate::text::{
    char_is_space, chars_eq, count_characters, fuzzy_chars, fuzzy_form, grapheme_len,
    is_space_char, nfc_exec, nfc_of, string_eq,
};
use vstd::prelude::*;

verus! {

broadcast use crate::text::lemma_deep_view_index_strings, crate::text::lemma_deep_view_index_chars;

/// A word is blank when every character in it is whitespace; the empty
/// word is blank.
pub open spec fn is_blank(s: Seq<char>) -> bool {
    forall|j: int| 0 <= j < s.len() ==> is_space_char(s[j])
}

/// A word has edge whitespace when it starts or ends with a whitespace
/// character.
pub open spec fn has_edge_space(s: Seq<char>) -> bool {
    s.len() > 0 && (is_space_char(s.first()) || is_space_char(s.last()))
}

fn word_is_blank(w: &str) -> (r: bool)
    ensures
        r == is_blank(w@),
{
    let n = w.unicode_len();
    let mut i: usize = 0;
    while i < n
        invariant
            0 <= i <= n,
            n == w@.len(),
            forall|j: int| 0 <= j < i ==> is_space_char(w@[j]),
        decreases n - i,
    {
        if !char_is_space(w.get_char(i)) {
            return false;
        }
        i = i + 1;
    }
    true
}

/// True iff some entry of the list is empty or consists only of
/// whitespace; an empty list yields false.
pub fn has_blank_lines(list: &Vec<String>) -> (r: bool)
    ensures
        r == exists|i: int| 0 <= i < list@.len() && is_blank(list.deep_view()[i]),
{
    let n = list.len();
    let mut i: usize = 0;
    while i < n
        invariant
            0 <= i <= n,
            n == list@.len(),
            forall|j: int| 0 <= j < i ==> !is_blank(list.deep_view()[j]),
        decreases n - i,
    {
        if word_is_blank(list[i].as_str()) {
            proof {
                assert(list.deep_view()[i as int] == list@[i as int]@);
                assert(is_blank(list.deep_view()[i as int]));
            }
            return true;
        }
        i = i + 1;
    }
    false
}

/// True iff some entry of the list starts or ends with whitespace; an
/// empty list yields false.
pub fn has_starting_or_trailing_space(list: &Vec<String>) -> (r: bool)
    ensures
        r == exists|i: int| 0 <= i < list@.len() && has_edge_space(list.deep_view()[i]),
{
    let n = list.len();
    let mut i: usize = 0;
    while i < n
        invariant
            0 <= i <= n,
            n == list@.len(),
            forall|j: int| 0 <= j < i ==> !has_edge_space(list.deep_view()[j]),
        decreases n - i,
    {
        let w = list[i].as_str();
        let m = w.unicode_len();
        if m > 0 {
            if char_is_space(w.get_char(0)) || char_is_space(w.get_char(m - 1)) {
                proof {
                    assert(list.deep_view()[i as int] == list@[i as int]@);
                    assert(has_edge_space(list.deep_view()[i as int]));
                }
                return true;
            }
        }
        i = i + 1;
    }
    false
}

/// True iff some entry of the list holds a character outside the ASCII
/// range; an empty list yields false.
pub fn has_non_ascii_characters(list: &Vec<String>) -> (r: bool)
    ensures
        r == exists|i: int|
            0 <= i < list@.len() && !vstd::utf8::is_ascii_chars(list.deep_view()[i]),
{
    let n = list.len();
    let mut i: usize = 0;
    while i < n
        invariant
            0 <= i <= n,
            n == list@.len(),
            forall|j: int| 0 <= j < i ==> vstd::utf8::is_ascii_chars(list.deep_view()[j]),
        decreases n - i,
    {
        if !list[i].as_str().is_ascii() {
            proof {
                assert(list.deep_view()[i as int] == list@[i as int]@);
                assert(!vstd::utf8::is_ascii_chars(list.deep_view()[i as int]));
            }
            return true;
        }
        i = i + 1;
    }
    false
}

/// True iff two entries are equal character for character.
pub fn has_duplicates_exact(list: &Vec<String>) -> (r: bool)
    ensures
        r == exists|i: int, j: int|
            0 <= i < j < list@.len() && list.deep_view()[i] == list.deep_view()[j],
{
    let n = list.len();
    let mut i: usize = 0;
    while i < n
        invariant
            0 <= i <= n,
            n == list@.len(),
            forall|p: int, q: int|
                0 <= p < q < n && p < i ==> list.deep_view()[p] != list.deep_view()[q],
        decreases n - i,
    {
        let mut j: usize = i + 1;
        while j < n
            invariant
                0 <= i < j <= n,
                n == list@.len(),
                forall|q: int| i < q < j ==> list.deep_view()[i as int] != list.deep_view()[q],
            decreases n - j,
        {
            if string_eq(&list[i], &list[j]) {
                proof {
                    assert(list.deep_view()[i as int] == list@[i as int]@);
                    assert(list.deep_view()[j as int] == list@[j as int]@);
                    assert(list.deep_view()[i as int] == list.deep_view()[j as int]);
                }
                return true;
            }
            j = j + 1;
        }
        i = i + 1;
    }
    false
}

/// True iff two entries collide once each is ASCII lower-cased and
/// trimmed of edge whitespace.
pub fn has_duplicates_fuzzy(list: &Vec<String>) -> (r: bool)
    ensures
        r == exists|i: int, j: int|
            0 <= i < j < list@.len() && fuzzy_form(list.deep_view()[i]) == fuzzy_form(
                list.deep_view()[j],
            ),
{
    let n = list.len();
    let mut forms: Vec<Vec<char>> = Vec::new();
    let mut k: usize = 0;
    while k < n
        invariant
            0 <= k <= n,
            n == list@.len(),
            forms@.len() == k,
            forall|j: int| 0 <= j < k ==> forms@[j]@ == fuzzy_form(list.deep_view()[j]),
        decreases n - k,
    {
        let f = fuzzy_chars(list[k].as_str());
        forms.push(f);
        k = k + 1;
    }
    let mut i: usize = 0;
    while i < n
        invariant
            0 <= i <= n,
            n == list@.len(),
            forms@.len() == n,
            forall|j: int| 0 <= j < n ==> forms@[j]@ == fuzzy_form(list.deep_view()[j]),
            forall|p: int, q: int|
                0 <= p < q < n && p < i ==> fuzzy_form(list.deep_view()[p]) != fuzzy_form(
                    list.deep_view()[q],
                ),
        decreases n - i,
    {
        let mut j: usize = i + 1;
        while j < n
            invariant
                0 <= i < j <= n,
                n == list@.len(),
                forms@.len() == n,
                forall|jj: int| 0 <= jj < n ==> forms@[jj]@ == fuzzy_form(list.deep_view()[jj]),
                forall|q: int|
                    i < q < j ==> fuzzy_form(list.deep_view()[i as int]) != fuzzy_form(
                        list.deep_view()[q],
                    ),
            decreases n - j,
        {
            if chars_eq(&forms[i], &forms[j]) {
                proof {
                    assert(forms.deep_view()[i as int] == forms@[i as int]@);
                    assert(forms.deep_view()[j as int] == forms@[j as int]@);
                    assert(fuzzy_form(list.deep_view()[i as int]) == fuzzy_form(
                        list.deep_view()[j as int],
                    ));
                }
                return true;
            }
            j = j + 1;
        }
        i = i + 1;
    }
    false
}

/// The set of case- and whitespace-insensitive word forms in the list.
pub open spec fn fuzzy_word_set(ws: Seq<Seq<char>>) -> Set<Seq<char>> {
    ws.map_values(|w: Seq<char>| fuzzy_form(w)).to_set()
}

/// Counts the distinct entries of the list once each is ASCII
/// lower-cased and trimmed of edge whitespace.
pub fn count_unique_words(list: &Vec<String>) -> (r: usize)
    ensures
        r == fuzzy_word_set(list.deep_view()).len(),
{
    let n = list.len();
    let ghost dvs = list.deep_view();
    let mut seen: Vec<Vec<char>> = Vec::new();
    let mut i: usize = 0;
    while i < n
        invariant
            0 <= i <= n,
            n == list@.len(),
            dvs == list.deep_view(),
            seen.deep_view().no_duplicates(),
            forall|j: int|
                0 <= j < i ==> seen.deep_view().contains(#[trigger] fuzzy_form(dvs[j])),
            forall|idx: int|
                0 <= idx < seen.deep_view().len() ==> exists|j: int|
                    0 <= j < i && fuzzy_form(dvs[j]) == #[trigger] seen.deep_view()[idx],
        decreases n - i,
    {
        let f = fuzzy_chars(list[i].as_str());
        proof {
            assert(list.deep_view()[i as int] == list@[i as int]@);
            assert(f@ == fuzzy_form(dvs[i as int]));
        }
        let mut found = false;
        let mut k: usize = 0;
        while k < seen.len() && !found
            invariant
                0 <= k <= seen@.len(),
                seen.deep_view().len() == seen@.len(),
                f@ == fuzzy_form(dvs[i as int]),
                dvs == list.deep_view(),
                !found ==> forall|j: int| 0 <= j < k ==> seen.deep_view()[j] != f@,
                found ==> seen.deep_view().contains(f@),
            decreases seen@.len() - k,
        {
            proof {
                assert(seen.deep_view()[k as int] == seen@[k as int]@);
            }
            if chars_eq(&seen[k], &f) {
                found = true;
                proof {
                    assert(seen.deep_view()[k as int] == f@);
                    assert(seen.deep_view().contains(f@));
                }
            }
            k = k + 1;
        }
        if !found {
            proof {
                assert(forall|j: int|
                    0 <= j < seen.deep_view().len() ==> seen.deep_view()[j] != f@);
                assert(!seen.deep_view().contains(f@));
            }
            let ghost prev = seen.deep_view();
            seen.push(f);
            proof {
                assert(seen.deep_view() =~= prev.push(f@));
                assert(seen.deep_view().last() == f@);
                assert(seen.deep_view().contains(f@));
                assert(forall|x: Seq<char>|
                    prev.contains(x) ==> #[trigger] seen.deep_view().contains(x)) by {
                    assert(forall|idx: int|
                        0 <= idx < prev.len() ==> seen.deep_view()[idx] == #[trigger] prev[idx]);
                }
            }
        }
        i = i + 1;
    }
    proof {
        let sv = seen.deep_view();
        let m = dvs.map_values(|w: Seq<char>| fuzzy_form(w));
        assert(sv.to_set() =~= m.to_set()) by {
            assert forall|x: Seq<char>| sv.to_set().contains(x) implies m.to_set().contains(
                x,
            ) by {
                assert(sv.contains(x));
                let idx = choose|idx: int| 0 <= idx < sv.len() && sv[idx] == x;
                let j = choose|j: int| 0 <= j < n && fuzzy_form(dvs[j]) == sv[idx];
                assert(m[j] == x);
                assert(m.contains(x));
            }
            assert forall|x: Seq<char>| m.to_set().contains(x) implies sv.to_set().contains(
                x,
            ) by {
                assert(m.contains(x));
                let j = choose|j: int| 0 <= j < m.len() && m[j] == x;
                assert(fuzzy_form(dvs[j]) == x);
                assert(sv.contains(x));
            }
        }
        sv.unique_seq_to_set();
    }
    seen.len()
}

/// Sum of the grapheme-cluster lengths of all words.
pub open spec fn len_sum(ws: Seq<Seq<char>>) -> nat
    decreases ws.len(),
{
    if ws.len() == 0 {
        0
    } else {
        grapheme_len(ws.first()) + len_sum(ws.drop_first())
    }
}

proof fn lemma_len_sum_push(ws: Seq<Seq<char>>, w: Seq<char>)
    ensures
        len_sum(ws.push(w)) == len_sum(ws) + grapheme_len(w),
    decreases ws.len(),
{
    if ws.len() == 0 {
        assert(ws.push(w).drop_first() =~= Seq::<Seq<char>>::empty());
        assert(ws.push(w).first() == w);
        assert(len_sum(ws.push(w)) == grapheme_len(w) + len_sum(Seq::<Seq<char>>::empty()));
    } else {
        assert(ws.push(w).len() > 0);
        assert(ws.push(w).drop_first() =~= ws.drop_first().push(w));
        assert(ws.push(w).first() == ws.first());
        lemma_len_sum_push(ws.drop_first(), w);
        assert(len_sum(ws.push(w)) == grapheme_len(ws.first()) + len_sum(ws.drop_first().push(w)));
    }
}

/// The mean word length states that the total grapheme count of a
/// non-empty list, divided by the number of words, lies between the
/// shortest and the longest word length. This lemma is that law: if
/// every word's length lies between `lo` and `hi`, the sum of lengths
/// lies between `lo * n` and `hi * n`.
pub proof fn lemma_mean_word_length_bounds(ws: Seq<Seq<char>>, lo: nat, hi: nat)
    requires
        forall|i: int| 0 <= i < ws.len() ==> lo <= #[trigger] grapheme_len(ws[i]) <= hi,
    ensures
        lo * ws.len() <= len_sum(ws) <= hi * ws.len(),
    decreases ws.len(),
{
    if ws.len() == 0 {
    } else {
        assert(forall|i: int|
            0 <= i < ws.drop_first().len() ==> lo <= grapheme_len(#[trigger] ws.drop_first()[i])
                <= hi) by {
            assert(forall|i: int|
                0 <= i < ws.drop_first().len() ==> ws.drop_first()[i] == ws[i + 1]);
        }
        lemma_mean_word_length_bounds(ws.drop_first(), lo, hi);
        assert(lo <= grapheme_len(ws.first()) <= hi);
        assert(lo * ws.len() == lo * (ws.len() - 1) + lo) by (nonlinear_arith);
        assert(hi * ws.len() == hi * (ws.len() - 1) + hi) by (nonlinear_arith);
    }
}

/// An exact fraction: `num / den` with no rounding applied. The mean
/// word length and the mean edit distance are reported this way so no
/// precision is lost inside the library.
pub struct Ratio {
    pub num: u128,
    pub den: u128,
}

/// The exact mean word length of a non-empty list: the total grapheme
/// count over the number of words, as an unreduced fraction.
pub fn mean_word_length(list: &Vec<String>) -> (r: Ratio)
    requires
        list@.len() > 0,
    ensures
        r.num == len_sum(list.deep_view()),
        r.den == list@.len(),
{
    let n = list.len();
    let mut sum: u128 = 0;
    let mut i: usize = 0;
    while i < n
        invariant
            0 <= i <= n,
            n == list@.len(),
            sum == len_sum(list.deep_view().take(i as int)),
            sum <= (i as u128) * 0xFFFF_FFFF_FFFF_FFFFu128,
        decreases n - i,
    {
        let c = count_characters(list[i].as_str());
        proof {
            assert(list.deep_view().take(i + 1) =~= list.deep_view().take(i as int).push(
                list.deep_view()[i as int],
            ));
            lemma_len_sum_push(list.deep_view().take(i as int), list.deep_view()[i as int]);
            assert((c as u128) <= 0xFFFF_FFFF_FFFF_FFFFu128);
            assert(sum + (c as u128) <= ((i + 1) as u128) * 0xFFFF_FFFF_FFFF_FFFFu128)
                by (nonlinear_arith)
                requires
                    sum <= (i as u128) * 0xFFFF_FFFF_FFFF_FFFFu128,
                    (c as u128) <= 0xFFFF_FFFF_FFFF_FFFFu128,
                    i < 0xFFFF_FFFF_FFFF_FFFFu128,
            ;
        }
        sum = sum + (c as u128);
        i = i + 1;
    }
    proof {
        assert(list.deep_view().take(n as int) =~= list.deep_view());
    }
    Ratio { num: sum, den: n as u128 }
}

/// Index of the last entry with the minimum grapheme count. Ties
/// between words of the same length resolve to the last qualifying
/// entry in iteration order.
pub fn shortest_word_index(list: &Vec<String>) -> (r: usize)
    requires
        list@.len() > 0,
    ensures
        0 <= r < list@.len(),
        forall|j: int|
            0 <= j < list@.len() ==> grapheme_len(list.deep_view()[r as int]) <= grapheme_len(
                list.deep_view()[j],
            ),
        forall|j: int|
            r < j < list@.len() ==> grapheme_len(list.deep_view()[r as int]) < grapheme_len(
                list.deep_view()[j],
            ),
{
    let n = list.len();
    let mut best: usize = 0;
    let mut best_len = count_characters(list[0].as_str());
    let mut i: usize = 1;
    while i < n
        invariant
            1 <= i <= n,
            n == list@.len(),
            0 <= best < i,
            best_len == grapheme_len(list.deep_view()[best as int]),
            forall|j: int| 0 <= j < i ==> best_len <= grapheme_len(list.deep_view()[j]),
            forall|j: int| best < j < i ==> best_len < grapheme_len(list.deep_view()[j]),
        decreases n - i,
    {
        let c = count_characters(list[i].as_str());
        if c <= best_len {
            best = i;
            best_len = c;
        }
        i = i + 1;
    }
    best
}

/// Index of the last entry with the maximum grapheme count. Ties
/// between words of the same length resolve to the last qualifying
/// entry in iteration order.
pub fn longest_word_index(list: &Vec<String>) -> (r: usize)
    requires
        list@.len() > 0,
    ensures
        0 <= r < list@.len(),
        forall|j: int|
            0 <= j < list@.len() ==> grapheme_len(list.deep_view()[r as int]) >= grapheme_len(
                list.deep_view()[j],
            ),
        forall|j: int|
            r < j < list@.len() ==> grapheme_len(list.deep_view()[r as int]) > grapheme_len(
                list.deep_view()[j],
            ),
{
    let n = list.len();
    let mut best: usize = 0;
    let mut best_len = count_characters(list[0].as_str());
    let mut i: usize = 1;
    while i < n
        invariant
            1 <= i <= n,
            n == list@.len(),
            0 <= best < i,
            best_len == grapheme_len(list.deep_view()[best as int]),
            forall|j: int| 0 <= j < i ==> best_len >= grapheme_len(list.deep_view()[j]),
            forall|j: int| best < j < i ==> best_len > grapheme_len(list.deep_view()[j]),
        decreases n - i,
    {
        let c = count_characters(list[i].as_str());
        if c >= best_len {
            best = i;
            best_len = c;
        }
        i = i + 1;
    }
    best
}

/// The grapheme count of the shortest word on a non-empty list.
pub fn get_shortest_word_length(list: &Vec<String>) -> (r: usize)
    requires
        list@.len() > 0,
    ensures
        exists|i: int| 0 <= i < list@.len() && r == grapheme_len(list.deep_view()[i]),
        forall|j: int| 0 <= j < list@.len() ==> r <= grapheme_len(list.deep_view()[j]),
{
    let i = shortest_word_index(list);
    let r = count_characters(list[i].as_str());
    proof {
        assert(0 <= i < list@.len() && r == grapheme_len(list.deep_view()[i as int]));
    }
    r
}

/// True iff every word of the list is already in Unicode canonical
/// composed form (NFC), so the list's normalization is uniform; an
/// empty list yields true.
pub fn uniform_unicode_normalization(list: &Vec<String>) -> (r: bool)
    ensures
        r == forall|i: int|
            0 <= i < list@.len() ==> nfc_of(#[trigger] list.deep_view()[i]) == list.deep_view()[i],
{
    let n = list.len();
    let mut i: usize = 0;
    while i < n
        invariant
            0 <= i <= n,
            n == list@.len(),
            forall|j: int|
                0 <= j < i ==> nfc_of(#[trigger] list.deep_view()[j]) == list.deep_view()[j],
        decreases n - i,
    {
        let c = nfc_exec(list[i].as_str());
        if !string_eq(&c, &list[i]) {
            proof {
                assert(nfc_of(list.deep_view()[i as int]) != list.deep_view()[i as int]);
            }
            return false;
        }
        i = i + 1;
    }
    true
}

} // verus!
