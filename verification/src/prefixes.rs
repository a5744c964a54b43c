//! Shared-prefix analysis and prefix / suffix containment checks: the
//! first differing grapheme index of two words, the longest prefix any
//! two value-distinct words share, and whether any word is a prefix or
//! suffix of another.

use crate::text::{grapheme_len, graphemes, graphemes_of, str_is_prefix, str_is_suffix, string_eq};
use vstd::prelude::*;

verus! {

broadcast use crate::text::lemma_deep_view_index_strings;

/// Zero-based index of the first position where two grapheme sequences
/// differ; if one is a prefix of the other, this is the shorter
/// sequence's length.
pub open spec fn first_diff(a: Seq<Seq<char>>, b: Seq<Seq<char>>) -> nat
    decreases a.len(),
{
    if a.len() == 0 || b.len() == 0 {
        0
    } else if a.first() != b.first() {
        0
    } else {
        1 + first_diff(a.drop_first(), b.drop_first())
    }
}

proof fn lemma_first_diff_skip(a: Seq<Seq<char>>, b: Seq<Seq<char>>, i: int)
    requires
        0 <= i <= a.len(),
        i <= b.len(),
        forall|j: int| 0 <= j < i ==> a[j] == b[j],
    ensures
        first_diff(a, b) == i + first_diff(a.skip(i), b.skip(i)),
    decreases i,
{
    if i == 0 {
        assert(a.skip(0) =~= a);
        assert(b.skip(0) =~= b);
    } else {
        assert(a.first() == a[0] && b.first() == b[0]);
        assert(a.first() == b.first());
        assert(first_diff(a, b) == 1 + first_diff(a.drop_first(), b.drop_first()));
        assert(a.drop_first() =~= a.skip(1));
        assert(b.drop_first() =~= b.skip(1));
        assert(a.skip(1).skip(i - 1) =~= a.skip(i));
        assert(b.skip(1).skip(i - 1) =~= b.skip(i));
        lemma_first_diff_skip(a.skip(1), b.skip(1), i - 1);
    }
}

/// The first differing grapheme index never reaches past the shorter
/// word.
pub proof fn lemma_first_diff_le_min(a: Seq<Seq<char>>, b: Seq<Seq<char>>)
    ensures
        first_diff(a, b) <= a.len(),
        first_diff(a, b) <= b.len(),
    decreases a.len(),
{
    if a.len() > 0 && b.len() > 0 && a.first() == b.first() {
        lemma_first_diff_le_min(a.drop_first(), b.drop_first());
    }
}

/// Two distinct words differ strictly before the longer word's end: the
/// first differing grapheme index is below the longer grapheme count.
/// This is why the longest shared prefix over value-distinct pairs is
/// always strictly shorter than the longest word on the list.
pub proof fn lemma_first_diff_below_longer(a: Seq<Seq<char>>, b: Seq<Seq<char>>)
    requires
        a != b,
    ensures
        first_diff(a, b) < a.len() || first_diff(a, b) < b.len(),
    decreases a.len(),
{
    lemma_first_diff_le_min(a, b);
    if a.len() == 0 || b.len() == 0 {
        assert(a.len() != b.len()) by {
            if a.len() == b.len() {
                assert(a =~= b);
            }
        }
    } else if a.first() != b.first() {
    } else {
        assert(a.drop_first() != b.drop_first()) by {
            if a.drop_first() == b.drop_first() {
                assert(a.drop_first().len() == a.len() - 1);
                assert(b.drop_first().len() == b.len() - 1);
                assert(a.len() == b.len());
                assert forall|i: int| 0 <= i < a.len() implies a[i] == b[i] by {
                    if i == 0 {
                        assert(a[0] == a.first() && b[0] == b.first());
                    } else {
                        assert(a[i] == a.drop_first()[i - 1]);
                        assert(b[i] == b.drop_first()[i - 1]);
                    }
                }
                assert(a =~= b);
            }
        }
        lemma_first_diff_below_longer(a.drop_first(), b.drop_first());
    }
}

/// First differing grapheme index of two grapheme vectors.
fn gv_first_diff(a: &Vec<String>, b: &Vec<String>) -> (r: usize)
    ensures
        r == first_diff(a.deep_view(), b.deep_view()),
{
    let na = a.len();
    let nb = b.len();
    let m: usize = if na < nb {
        na
    } else {
        nb
    };
    let mut i: usize = 0;
    while i < m
        invariant
            0 <= i <= m,
            m <= a@.len(),
            m <= b@.len(),
            m == a@.len() || m == b@.len(),
            forall|j: int| 0 <= j < i ==> a.deep_view()[j] == b.deep_view()[j],
        decreases m - i,
    {
        proof {
            assert(a.deep_view()[i as int] == a@[i as int]@);
            assert(b.deep_view()[i as int] == b@[i as int]@);
        }
        if !string_eq(&a[i], &b[i]) {
            proof {
                lemma_first_diff_skip(a.deep_view(), b.deep_view(), i as int);
                assert(a.deep_view().skip(i as int).first() == a.deep_view()[i as int]);
                assert(b.deep_view().skip(i as int).first() == b.deep_view()[i as int]);
                assert(first_diff(a.deep_view().skip(i as int), b.deep_view().skip(i as int))
                    == 0);
            }
            return i;
        }
        i = i + 1;
    }
    proof {
        lemma_first_diff_skip(a.deep_view(), b.deep_view(), m as int);
        assert(a.deep_view().skip(m as int).len() == 0 || b.deep_view().skip(m as int).len()
            == 0);
        assert(first_diff(a.deep_view().skip(m as int), b.deep_view().skip(m as int)) == 0);
    }
    m
}

/// Zero-based grapheme index of the first position where the two words
/// differ; if one word is a prefix of the other, the shorter word's
/// grapheme count.
pub fn find_first_different_character_zero_indexed(word1: &str, word2: &str) -> (r: usize)
    ensures
        r == first_diff(graphemes_of(word1@), graphemes_of(word2@)),
{
    let g1 = graphemes(word1);
    let g2 = graphemes(word2);
    gv_first_diff(&g1, &g2)
}

/// The greatest grapheme count any word on the list reaches.
pub open spec fn is_longest_glen(ws: Seq<Seq<char>>, l: nat) -> bool {
    (exists|i: int| 0 <= i < ws.len() && grapheme_len(ws[i]) == l) && (forall|i: int|
        0 <= i < ws.len() ==> grapheme_len(ws[i]) <= l)
}

/// The maximum, over all ordered pairs of value-distinct words, of the
/// first differing grapheme index. Short-circuits once a shared prefix
/// one below the longest word's length is found, since no pair of
/// distinct words can share a longer one. When given, the optional
/// `longest_word_length` must be the longest word's grapheme count.
pub fn find_longest_shared_prefix(list: &Vec<String>, longest_word_length: Option<usize>) -> (r:
    usize)
    requires
        list@.len() > 0,
        longest_word_length matches Some(l) ==> is_longest_glen(list.deep_view(), l as nat),
    ensures
        forall|p: int, q: int|
            #![trigger graphemes_of(list.deep_view()[p]), graphemes_of(list.deep_view()[q])]
            0 <= p < list@.len() && 0 <= q < list@.len() && list.deep_view()[p]
                != list.deep_view()[q] ==> first_diff(
                graphemes_of(list.deep_view()[p]),
                graphemes_of(list.deep_view()[q]),
            ) <= r,
        (exists|p: int, q: int|
            #![trigger graphemes_of(list.deep_view()[p]), graphemes_of(list.deep_view()[q])]
            0 <= p < list@.len() && 0 <= q < list@.len() && list.deep_view()[p]
                != list.deep_view()[q] && first_diff(
                graphemes_of(list.deep_view()[p]),
                graphemes_of(list.deep_view()[q]),
            ) == r) || (r == 0 && forall|p: int, q: int|
            #![trigger list.deep_view()[p], list.deep_view()[q]]
            0 <= p < list@.len() && 0 <= q < list@.len() ==> list.deep_view()[p]
                == list.deep_view()[q]),
        forall|l: nat|
            is_longest_glen(list.deep_view(), l) && (exists|p: int, q: int|
                #![trigger list.deep_view()[p], list.deep_view()[q]]
                0 <= p < list@.len() && 0 <= q < list@.len() && list.deep_view()[p]
                    != list.deep_view()[q]) ==> r < l,
{
    let ghost dvs = list.deep_view();
    let n = list.len();
    let lwl: usize = match longest_word_length {
        Some(l) => l,
        None => {
            let k = crate::lexical::longest_word_index(list);
            let c = crate::text::count_characters(list[k].as_str());
            proof {
                assert(list.deep_view()[k as int] == list@[k as int]@);
                assert(is_longest_glen(dvs, c as nat));
            }
            c
        },
    };
    let mut gv: Vec<Vec<String>> = Vec::new();
    let mut k: usize = 0;
    while k < n
        invariant
            0 <= k <= n,
            n == list@.len(),
            dvs == list.deep_view(),
            gv@.len() == k,
            forall|j: int| 0 <= j < k ==> gv@[j].deep_view() == graphemes_of(#[trigger] dvs[j]),
            forall|j: int| 0 <= j < k ==> (#[trigger] graphemes_of(dvs[j])).flatten() == dvs[j],
        decreases n - k,
    {
        proof {
            assert(list.deep_view()[k as int] == list@[k as int]@);
        }
        let g = graphemes(list[k].as_str());
        gv.push(g);
        k = k + 1;
    }
    let mut longest: usize = 0;
    let ghost mut witness: (int, int) = (0, 0);
    let ghost mut any_seen = false;
    let mut i: usize = 0;
    while i < n
        invariant
            0 <= i <= n,
            n == list@.len(),
            dvs == list.deep_view(),
            is_longest_glen(dvs, lwl as nat),
            gv@.len() == n,
            forall|j: int| 0 <= j < n ==> gv@[j].deep_view() == graphemes_of(#[trigger] dvs[j]),
            forall|j: int| 0 <= j < n ==> (#[trigger] graphemes_of(dvs[j])).flatten() == dvs[j],
            forall|p: int, q: int|
                #![trigger graphemes_of(dvs[p]), graphemes_of(dvs[q])]
                0 <= p < i && 0 <= q < n && dvs[p] != dvs[q] ==> first_diff(
                    graphemes_of(dvs[p]),
                    graphemes_of(dvs[q]),
                ) <= longest,
            any_seen ==> 0 <= witness.0 < n && 0 <= witness.1 < n && dvs[witness.0]
                != dvs[witness.1] && first_diff(
                graphemes_of(dvs[witness.0]),
                graphemes_of(dvs[witness.1]),
            ) == longest,
            !any_seen ==> longest == 0 && forall|p: int, q: int|
                #![trigger dvs[p], dvs[q]]
                0 <= p < i && 0 <= q < n ==> dvs[p] == dvs[q],
        decreases n - i,
    {
        let mut j: usize = 0;
        while j < n
            invariant
                0 <= i < n,
                0 <= j <= n,
                n == list@.len(),
                dvs == list.deep_view(),
                is_longest_glen(dvs, lwl as nat),
                gv@.len() == n,
                forall|jj: int|
                    0 <= jj < n ==> gv@[jj].deep_view() == graphemes_of(#[trigger] dvs[jj]),
                forall|jj: int|
                    0 <= jj < n ==> (#[trigger] graphemes_of(dvs[jj])).flatten() == dvs[jj],
                forall|p: int, q: int|
                    #![trigger graphemes_of(dvs[p]), graphemes_of(dvs[q])]
                    0 <= p < i && 0 <= q < n && dvs[p] != dvs[q] ==> first_diff(
                        graphemes_of(dvs[p]),
                        graphemes_of(dvs[q]),
                    ) <= longest,
                forall|q: int|
                    0 <= q < j && dvs[i as int] != dvs[q] ==> first_diff(
                        graphemes_of(dvs[i as int]),
                        #[trigger] graphemes_of(dvs[q]),
                    ) <= longest,
                any_seen ==> 0 <= witness.0 < n && 0 <= witness.1 < n && dvs[witness.0]
                    != dvs[witness.1] && first_diff(
                    graphemes_of(dvs[witness.0]),
                    graphemes_of(dvs[witness.1]),
                ) == longest,
                !any_seen ==> longest == 0 && (forall|p: int, q: int|
                    #![trigger dvs[p], dvs[q]]
                    0 <= p < i && 0 <= q < n ==> dvs[p] == dvs[q]) && (forall|q: int|
                    0 <= q < j ==> dvs[i as int] == #[trigger] dvs[q]),
            decreases n - j,
        {
            proof {
                assert(list.deep_view()[i as int] == list@[i as int]@);
                assert(list.deep_view()[j as int] == list@[j as int]@);
            }
            if !string_eq(&list[i], &list[j]) {
                let d = gv_first_diff(&gv[i], &gv[j]);
                proof {
                    assert(gv@[i as int].deep_view() == graphemes_of(dvs[i as int]));
                    assert(gv@[j as int].deep_view() == graphemes_of(dvs[j as int]));
                    assert(graphemes_of(dvs[i as int]) != graphemes_of(dvs[j as int])) by {
                        if graphemes_of(dvs[i as int]) == graphemes_of(dvs[j as int]) {
                            assert(graphemes_of(dvs[i as int]).flatten() == graphemes_of(
                                dvs[j as int],
                            ).flatten());
                        }
                    }
                    lemma_first_diff_below_longer(
                        graphemes_of(dvs[i as int]),
                        graphemes_of(dvs[j as int]),
                    );
                    assert(grapheme_len(dvs[i as int]) <= lwl as nat);
                    assert(grapheme_len(dvs[j as int]) <= lwl as nat);
                    assert(d < lwl);
                }
                if d > longest {
                    longest = d;
                }
                proof {
                    if d == longest {
                        witness = (i as int, j as int);
                        any_seen = true;
                    }
                    assert(any_seen);
                }
                if d == lwl - 1 {
                    proof {
                        assert forall|p: int, q: int|
                            #![trigger graphemes_of(dvs[p]), graphemes_of(dvs[q])]
                            0 <= p < n && 0 <= q < n && dvs[p] != dvs[q] implies first_diff(
                            graphemes_of(dvs[p]),
                            graphemes_of(dvs[q]),
                        ) <= d by {
                            assert(graphemes_of(dvs[p]) != graphemes_of(dvs[q])) by {
                                if graphemes_of(dvs[p]) == graphemes_of(dvs[q]) {
                                    assert(graphemes_of(dvs[p]).flatten() == graphemes_of(
                                        dvs[q],
                                    ).flatten());
                                }
                            }
                            lemma_first_diff_below_longer(
                                graphemes_of(dvs[p]),
                                graphemes_of(dvs[q]),
                            );
                            assert(grapheme_len(dvs[p]) <= lwl as nat);
                            assert(grapheme_len(dvs[q]) <= lwl as nat);
                        }
                    }
                    return d;
                }
            }
            j = j + 1;
        }
        i = i + 1;
    }
    proof {
        if any_seen {
            assert(graphemes_of(dvs[witness.0]) != graphemes_of(dvs[witness.1])) by {
                if graphemes_of(dvs[witness.0]) == graphemes_of(dvs[witness.1]) {
                    assert(graphemes_of(dvs[witness.0]).flatten() == graphemes_of(
                        dvs[witness.1],
                    ).flatten());
                }
            }
            lemma_first_diff_below_longer(
                graphemes_of(dvs[witness.0]),
                graphemes_of(dvs[witness.1]),
            );
            assert(grapheme_len(dvs[witness.0]) <= lwl as nat);
            assert(grapheme_len(dvs[witness.1]) <= lwl as nat);
        }
    }
    longest
}

/// True iff some word of the list is a prefix of some other
/// value-distinct word of the list.
pub fn has_prefix_words(list: &Vec<String>) -> (r: bool)
    ensures
        r == exists|i: int, j: int|
            #![trigger list.deep_view()[j].is_prefix_of(list.deep_view()[i])]
            0 <= i < list@.len() && 0 <= j < list@.len() && list.deep_view()[i]
                != list.deep_view()[j] && list.deep_view()[j].is_prefix_of(
                list.deep_view()[i],
            ),
{
    let n = list.len();
    let mut i: usize = 0;
    while i < n
        invariant
            0 <= i <= n,
            n == list@.len(),
            forall|p: int, q: int|
                #![trigger list.deep_view()[q].is_prefix_of(list.deep_view()[p])]
                0 <= p < i && 0 <= q < n && list.deep_view()[p] != list.deep_view()[q]
                    ==> !list.deep_view()[q].is_prefix_of(list.deep_view()[p]),
        decreases n - i,
    {
        let mut j: usize = 0;
        while j < n
            invariant
                0 <= i < n,
                0 <= j <= n,
                n == list@.len(),
                forall|q: int|
                    0 <= q < j && list.deep_view()[i as int] != list.deep_view()[q] ==> !(
                    #[trigger] list.deep_view()[q]).is_prefix_of(list.deep_view()[i as int]),
            decreases n - j,
        {
            proof {
                assert(list.deep_view()[i as int] == list@[i as int]@);
                assert(list.deep_view()[j as int] == list@[j as int]@);
            }
            if !string_eq(&list[i], &list[j]) && str_is_prefix(list[j].as_str(), list[i].as_str())
            {
                return true;
            }
            j = j + 1;
        }
        i = i + 1;
    }
    false
}

/// True iff some word of the list is a suffix of some other
/// value-distinct word of the list.
pub fn has_suffix_words(list: &Vec<String>) -> (r: bool)
    ensures
        r == exists|i: int, j: int|
            #![trigger list.deep_view()[j].is_suffix_of(list.deep_view()[i])]
            0 <= i < list@.len() && 0 <= j < list@.len() && list.deep_view()[i]
                != list.deep_view()[j] && list.deep_view()[j].is_suffix_of(
                list.deep_view()[i],
            ),
{
    let n = list.len();
    let mut i: usize = 0;
    while i < n
        invariant
            0 <= i <= n,
            n == list@.len(),
            forall|p: int, q: int|
                #![trigger list.deep_view()[q].is_suffix_of(list.deep_view()[p])]
                0 <= p < i && 0 <= q < n && list.deep_view()[p] != list.deep_view()[q]
                    ==> !list.deep_view()[q].is_suffix_of(list.deep_view()[p]),
        decreases n - i,
    {
        let mut j: usize = 0;
        while j < n
            invariant
                0 <= i < n,
                0 <= j <= n,
                n == list@.len(),
                forall|q: int|
                    0 <= q < j && list.deep_view()[i as int] != list.deep_view()[q] ==> !(
                    #[trigger] list.deep_view()[q]).is_suffix_of(list.deep_view()[i as int]),
            decreases n - j,
        {
            proof {
                assert(list.deep_view()[i as int] == list@[i as int]@);
                assert(list.deep_view()[j as int] == list@[j as int]@);
            }
            if !string_eq(&list[i], &list[j]) && str_is_suffix(list[j].as_str(), list[i].as_str())
            {
                return true;
            }
            j = j + 1;
        }
        i = i + 1;
    }
    false
}

} // verus!
