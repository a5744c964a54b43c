//! Information metrics: the brute-force and Shannon comparison lines
//! and the Kraft–McMillan coding-theory check, all computed with exact
//! integer arithmetic — never floating point — so no rounding error can
//! flip an answer near a boundary.

use crate::lexical::get_shortest_word_length;
use crate::text::{count_characters, grapheme_len};
use vstd::arithmetic::power::pow;
use vstd::prelude::*;

verus! {

broadcast use crate::text::lemma_deep_view_index_strings;

/// Outcome of the Kraft–McMillan inequality check.
#[derive(Clone, Copy, Debug, PartialEq, Eq, Structural)]
pub enum KraftMcmillanOutcome {
    Satisfied,
    NotSatisfied,
}

impl KraftMcmillanOutcome {
    /// The stable display name of the outcome: "satisfied" or
    /// "not satisfied".
    pub fn display_name(&self) -> (r: String)
        ensures
            *self == KraftMcmillanOutcome::Satisfied ==> r@ == "satisfied"@,
            *self == KraftMcmillanOutcome::NotSatisfied ==> r@ == "not satisfied"@,
    {
        match self {
            KraftMcmillanOutcome::Satisfied => String::from_str("satisfied"),
            KraftMcmillanOutcome::NotSatisfied => String::from_str("not satisfied"),
        }
    }
}

/// The smallest grapheme count among the words; zero for an empty list.
pub open spec fn min_glen(ws: Seq<Seq<char>>) -> nat
    decreases ws.len(),
{
    if ws.len() == 0 {
        0
    } else if ws.len() == 1 {
        grapheme_len(ws.last())
    } else {
        let m = min_glen(ws.drop_last());
        if grapheme_len(ws.last()) <= m {
            grapheme_len(ws.last())
        } else {
            m
        }
    }
}

/// The greatest grapheme count among the words; zero for an empty list.
pub open spec fn max_glen(ws: Seq<Seq<char>>) -> nat
    decreases ws.len(),
{
    if ws.len() == 0 {
        0
    } else {
        let m = max_glen(ws.drop_last());
        if grapheme_len(ws.last()) >= m {
            grapheme_len(ws.last())
        } else {
            m
        }
    }
}

pub proof fn lemma_min_glen(ws: Seq<Seq<char>>)
    requires
        ws.len() > 0,
    ensures
        forall|i: int| 0 <= i < ws.len() ==> min_glen(ws) <= #[trigger] grapheme_len(ws[i]),
        exists|i: int| 0 <= i < ws.len() && min_glen(ws) == grapheme_len(ws[i]),
    decreases ws.len(),
{
    if ws.len() == 1 {
        assert(ws.last() == ws[0]);
    } else {
        lemma_min_glen(ws.drop_last());
        assert(forall|i: int| 0 <= i < ws.len() - 1 ==> ws.drop_last()[i] == ws[i]);
        assert(ws.last() == ws[ws.len() - 1]);
        let j = choose|j: int|
            0 <= j < ws.drop_last().len() && min_glen(ws.drop_last()) == grapheme_len(
                ws.drop_last()[j],
            );
        if grapheme_len(ws.last()) <= min_glen(ws.drop_last()) {
            assert(min_glen(ws) == grapheme_len(ws[ws.len() - 1]));
        } else {
            assert(min_glen(ws) == grapheme_len(ws[j]));
        }
    }
}

pub proof fn lemma_max_glen(ws: Seq<Seq<char>>)
    ensures
        forall|i: int| 0 <= i < ws.len() ==> #[trigger] grapheme_len(ws[i]) <= max_glen(ws),
        ws.len() > 0 ==> exists|i: int| 0 <= i < ws.len() && max_glen(ws) == grapheme_len(ws[i]),
    decreases ws.len(),
{
    if ws.len() > 0 {
        lemma_max_glen(ws.drop_last());
        assert(forall|i: int| 0 <= i < ws.len() - 1 ==> ws.drop_last()[i] == ws[i]);
        assert(ws.last() == ws[ws.len() - 1]);
        if ws.drop_last().len() > 0 {
            let j = choose|j: int|
                0 <= j < ws.drop_last().len() && max_glen(ws.drop_last()) == grapheme_len(
                    ws.drop_last()[j],
                );
            if grapheme_len(ws.last()) >= max_glen(ws.drop_last()) {
                assert(max_glen(ws) == grapheme_len(ws[ws.len() - 1]));
            } else {
                assert(max_glen(ws) == grapheme_len(ws[j]));
            }
        }
    }
}

/// For every non-empty list, the mean word length lies between the
/// shortest and the longest word length: the total grapheme count is at
/// least the shortest length times the number of words, and at most the
/// longest length times the number of words.
pub proof fn lemma_mean_between_extremes(ws: Seq<Seq<char>>)
    requires
        ws.len() > 0,
    ensures
        min_glen(ws) * ws.len() <= crate::lexical::len_sum(ws),
        crate::lexical::len_sum(ws) <= max_glen(ws) * ws.len(),
{
    lemma_min_glen(ws);
    lemma_max_glen(ws);
    crate::lexical::lemma_mean_word_length_bounds(ws, min_glen(ws), max_glen(ws));
}

/// Whether the list length stays at or below the count of all
/// lowercase-letter strings of the shortest word's length: if so, a
/// brute-force attack over that alphabet cannot cover the list, and the
/// entropy estimate is not overstated against that baseline. Computed
/// with integer exponentiation only.
pub fn is_above_brute_force_line(list: &Vec<String>) -> (r: bool)
    requires
        list@.len() > 0,
    ensures
        r == (list@.len() <= pow(26, min_glen(list.deep_view()))),
{
    let ghost dvs = list.deep_view();
    let k = get_shortest_word_length(list);
    proof {
        lemma_min_glen(dvs);
        assert(k == min_glen(dvs)) by {
            let i = choose|i: int| 0 <= i < dvs.len() && k == grapheme_len(dvs[i]);
            let j = choose|j: int| 0 <= j < dvs.len() && min_glen(dvs) == grapheme_len(dvs[j]);
            assert(k <= grapheme_len(dvs[j]));
            assert(min_glen(dvs) <= grapheme_len(dvs[i]));
        }
    }
    let n128 = list.len() as u128;
    let mut acc: u128 = 1;
    let mut e: usize = 0;
    proof {
        vstd::arithmetic::power::lemma_pow0(26);
    }
    while e < k
        invariant
            0 <= e <= k,
            dvs == list.deep_view(),
            k == min_glen(dvs),
            n128 == list@.len(),
            1 <= n128 <= 0xFFFF_FFFF_FFFF_FFFFu128,
            acc == pow(26, e as nat),
            1 <= acc <= n128,
        decreases k - e,
    {
        proof {
            vstd::arithmetic::power::lemma_pow1(26);
            vstd::arithmetic::power::lemma_pow_adds(26, 1, e as nat);
            assert(pow(26, (e + 1) as nat) == 26 * pow(26, e as nat));
        }
        let next = acc * 26;
        if next > n128 {
            proof {
                vstd::arithmetic::power::lemma_pow_increases(26, (e + 1) as nat, k as nat);
            }
            return true;
        }
        acc = next;
        e = e + 1;
    }
    n128 <= acc
}

/// Raising both of two non-negative bases to the same power keeps their
/// order.
proof fn lemma_pow_base_le(a: int, b: int, e: nat)
    requires
        0 <= a <= b,
    ensures
        pow(a, e) <= pow(b, e),
        pow(a, e) >= 0,
    decreases e,
{
    reveal(pow);
    if e > 0 {
        lemma_pow_base_le(a, b, (e - 1) as nat);
        assert(a * pow(a, (e - 1) as nat) <= b * pow(b, (e - 1) as nat)) by (nonlinear_arith)
            requires
                0 <= a <= b,
                0 <= pow(a, (e - 1) as nat) <= pow(b, (e - 1) as nat),
        ;
    }
}

/// Six to the thirteenth, by repeated multiplication.
proof fn lemma_pow6_13()
    ensures
        pow(6, 13) == 13060694016,
{
    reveal(pow);
    assert(pow(6, 0) == 1);
    assert(pow(6, 1) == 6);
    assert(pow(6, 2) == 36);
    assert(pow(6, 3) == 216);
    assert(pow(6, 4) == 1296);
    assert(pow(6, 5) == 7776);
    assert(pow(6, 6) == 46656);
    assert(pow(6, 7) == 279936);
    assert(pow(6, 8) == 1679616);
    assert(pow(6, 9) == 10077696);
    assert(pow(6, 10) == 60466176);
    assert(pow(6, 11) == 362797056);
    assert(pow(6, 12) == 2176782336);
    assert(pow(6, 13) == 13060694016);
}

/// Ten to the twenty-fourth and twenty-fifth, by repeated
/// multiplication.
proof fn lemma_pow10_small()
    ensures
        pow(10, 24) == 1000000000000000000000000,
        pow(10, 25) == 10000000000000000000000000,
{
    reveal(pow);
    assert(pow(10, 0) == 1);
    assert(pow(10, 1) == 10);
    assert(pow(10, 2) == 100);
    assert(pow(10, 3) == 1000);
    assert(pow(10, 4) == 10000);
    assert(pow(10, 5) == 100000);
    assert(pow(10, 6) == 1000000);
    assert(pow(10, 7) == 10000000);
    assert(pow(10, 8) == 100000000);
    assert(pow(10, 9) == 1000000000);
    assert(pow(10, 10) == 10000000000);
    assert(pow(10, 11) == 100000000000);
    assert(pow(10, 12) == 1000000000000);
    assert(pow(10, 13) == 10000000000000);
    assert(pow(10, 14) == 100000000000000);
    assert(pow(10, 15) == 1000000000000000);
    assert(pow(10, 16) == 10000000000000000);
    assert(pow(10, 17) == 100000000000000000);
    assert(pow(10, 18) == 1000000000000000000);
    assert(pow(10, 19) == 10000000000000000000);
    assert(pow(10, 20) == 100000000000000000000);
    assert(pow(10, 21) == 1000000000000000000000);
    assert(pow(10, 22) == 10000000000000000000000);
    assert(pow(10, 23) == 100000000000000000000000);
    assert(pow(10, 24) == 1000000000000000000000000);
    assert(pow(10, 25) == 10000000000000000000000000);
}

/// From the twenty-sixth power on, sixty-one to the power beats ten to
/// the power by more than the largest 64-bit factor: words of at least
/// twenty-six graphemes put any machine-sized list above the Shannon
/// line.
proof fn lemma_shannon_far_above(k: nat)
    requires
        k >= 26,
    ensures
        0x1_0000_0000_0000_0000 * pow(10, k) <= pow(61, k),
    decreases k,
{
    if k == 26 {
        lemma_pow6_13();
        vstd::arithmetic::power::lemma_pow_adds(6, 13, 13);
        assert(pow(6, 26) == 13060694016 * 13060694016);
        assert(0x1_0000_0000_0000_0000 <= pow(6, 26));
        lemma_pow_base_le(60, 61, 26);
        vstd::arithmetic::power::lemma_pow_distributes(6, 10, 26);
        vstd::arithmetic::power::lemma_pow_positive(10, 26);
        assert(0x1_0000_0000_0000_0000 * pow(10, 26) <= pow(6, 26) * pow(10, 26))
            by (nonlinear_arith)
            requires
                0x1_0000_0000_0000_0000 <= pow(6, 26),
                pow(10, 26) >= 0,
        ;
    } else {
        lemma_shannon_far_above((k - 1) as nat);
        vstd::arithmetic::power::lemma_pow1(10);
        vstd::arithmetic::power::lemma_pow1(61);
        vstd::arithmetic::power::lemma_pow_adds(10, 1, (k - 1) as nat);
        vstd::arithmetic::power::lemma_pow_adds(61, 1, (k - 1) as nat);
        vstd::arithmetic::power::lemma_pow_positive(61, (k - 1) as nat);
        assert(0x1_0000_0000_0000_0000 * (10 * pow(10, (k - 1) as nat)) <= 61 * pow(
            61,
            (k - 1) as nat,
        )) by (nonlinear_arith)
            requires
                0x1_0000_0000_0000_0000 * pow(10, (k - 1) as nat) <= pow(61, (k - 1) as nat),
                pow(61, (k - 1) as nat) >= 0,
        ;
    }
}

/// Whether the list length stays at or below 6.1 raised to the shortest
/// word's grapheme count — Shannon's estimate of roughly 2.6 bits of
/// entropy per character of English text, so 2 to the 2.6, gives the
/// base 6.1. The comparison `n <= 61^k / 10^k` is decided exactly, as
/// `n * 10^k <= 61^k`, with integer arithmetic only.
pub fn is_above_shannon_line(list: &Vec<String>) -> (r: bool)
    requires
        list@.len() > 0,
    ensures
        r == (list@.len() * pow(10, min_glen(list.deep_view())) <= pow(
            61,
            min_glen(list.deep_view()),
        )),
{
    let ghost dvs = list.deep_view();
    let k = get_shortest_word_length(list);
    proof {
        lemma_min_glen(dvs);
        assert(k == min_glen(dvs)) by {
            let i = choose|i: int| 0 <= i < dvs.len() && k == grapheme_len(dvs[i]);
            let j = choose|j: int| 0 <= j < dvs.len() && min_glen(dvs) == grapheme_len(dvs[j]);
            assert(k <= grapheme_len(dvs[j]));
            assert(min_glen(dvs) <= grapheme_len(dvs[i]));
        }
    }
    let n128 = list.len() as u128;
    if k >= 26 {
        proof {
            lemma_shannon_far_above(k as nat);
            vstd::arithmetic::power::lemma_pow_positive(10, k as nat);
            assert(list@.len() * pow(10, k as nat) <= 0x1_0000_0000_0000_0000 * pow(10, k as nat))
                by (nonlinear_arith)
                requires
                    0 <= list@.len() < 0x1_0000_0000_0000_0000,
                    pow(10, k as nat) >= 0,
            ;
        }
        return true;
    }
    let mut q: u128 = 1;
    let mut r: u128 = 0;
    let mut p: u128 = 1;
    let mut i: usize = 0;
    proof {
        vstd::arithmetic::power::lemma_pow0(10);
        vstd::arithmetic::power::lemma_pow0(61);
    }
    while i < k
        invariant
            0 <= i <= k < 26,
            dvs == list.deep_view(),
            k == min_glen(dvs),
            n128 == list@.len(),
            1 <= n128 < 0x1_0000_0000_0000_0000u128,
            p == pow(10, i as nat),
            1 <= p,
            r < p,
            pow(61, i as nat) == q * p + r,
            q < 0x1_0000_0000_0000_0000u128,
        decreases k - i,
    {
        proof {
            lemma_pow10_small();
            vstd::arithmetic::power::lemma_pow_increases(10, i as nat, 24);
            assert(p <= 1000000000000000000000000u128);
        }
        let t = 61 * q;
        let a = t / 10;
        let b = t % 10;
        proof {
            assert(b < 10);
            assert(b * p <= 9 * 1000000000000000000000000u128) by (nonlinear_arith)
                requires
                    0 <= b <= 9,
                    0 <= p <= 1000000000000000000000000u128,
            ;
            assert(61 * r <= 61 * 1000000000000000000000000u128) by (nonlinear_arith)
                requires
                    0 <= r <= 1000000000000000000000000u128,
            ;
        }
        let rem = b * p + 61 * r;
        let p10 = p * 10;
        let c = rem / p10;
        let rnew = rem % p10;
        proof {
            let gi = i as nat;
            vstd::arithmetic::power::lemma_pow1(10);
            vstd::arithmetic::power::lemma_pow1(61);
            vstd::arithmetic::power::lemma_pow_adds(10, 1, gi);
            vstd::arithmetic::power::lemma_pow_adds(61, 1, gi);
            assert(pow(10, (i + 1) as nat) == 10 * pow(10, gi));
            assert(pow(61, (i + 1) as nat) == 61 * pow(61, gi));
            assert(t == 10 * a + b && b < 10);
            assert(p10 >= 10);
            vstd::arithmetic::div_mod::lemma_fundamental_div_mod(rem as int, p10 as int);
            vstd::arithmetic::div_mod::lemma_mod_bound(rem as int, p10 as int);
            assert(rem as int == (p10 as int) * ((rem as int) / (p10 as int)) + (rem as int) % (
            p10 as int));
            assert(rnew < p10);
            assert(rem == c * p10 + rnew) by (nonlinear_arith)
                requires
                    rem as int == (p10 as int) * (c as int) + (rnew as int),
            ;
            assert(61 * pow(61, gi) == (a + c) * p10 + rnew) by (nonlinear_arith)
                requires
                    pow(61, gi) == q * p + r,
                    t == 61 * q,
                    t == 10 * a + b,
                    p10 == 10 * p,
                    rem == b * p + 61 * r,
                    rem == c * p10 + rnew,
            ;
        }
        q = a + c;
        r = rnew;
        p = p10;
        i = i + 1;
        if q >= 0x1_0000_0000_0000_0000u128 {
            proof {
                let gi = i as nat;
                let gk = k as nat;
                vstd::arithmetic::power::lemma_pow_adds(10, gi, (gk - gi) as nat);
                vstd::arithmetic::power::lemma_pow_adds(61, gi, (gk - gi) as nat);
                lemma_pow_base_le(10, 61, (gk - gi) as nat);
                vstd::arithmetic::power::lemma_pow_positive(10, gi);
                vstd::arithmetic::power::lemma_pow_positive(10, (gk - gi) as nat);
                vstd::arithmetic::power::lemma_pow_positive(61, gi);
                assert(list@.len() * pow(10, gk) <= pow(61, gk)) by (nonlinear_arith)
                    requires
                        pow(10, gk) == pow(10, gi) * pow(10, (gk - gi) as nat),
                        pow(61, gk) == pow(61, gi) * pow(61, (gk - gi) as nat),
                        0 <= list@.len() < q,
                        pow(61, gi) == q * pow(10, gi) + r,
                        r >= 0,
                        pow(10, gi) >= 1,
                        0 <= pow(10, (gk - gi) as nat) <= pow(61, (gk - gi) as nat),
                ;
            }
            return true;
        }
    }
    proof {
        let gk = k as nat;
        if n128 <= q {
            assert(list@.len() * pow(10, gk) <= pow(61, gk)) by (nonlinear_arith)
                requires
                    pow(61, gk) == q * pow(10, gk) + r,
                    0 <= list@.len() <= q,
                    r >= 0,
                    pow(10, gk) >= 0,
            ;
        } else {
            assert(!(list@.len() * pow(10, gk) <= pow(61, gk))) by (nonlinear_arith)
                requires
                    pow(61, gk) == q * pow(10, gk) + r,
                    list@.len() >= q + 1,
                    0 <= r < pow(10, gk),
            ;
        }
    }
    n128 <= q
}

/// The set of characters (code points) appearing anywhere in the list:
/// the list's own alphabet.
pub open spec fn char_set(ws: Seq<Seq<char>>) -> Set<char>
    decreases ws.len(),
{
    if ws.len() == 0 {
        Set::empty()
    } else {
        char_set(ws.drop_last()).union(ws.last().to_set())
    }
}

/// The Kraft–McMillan sum scaled by `d` to the `l`: the sum over all
/// words of `d` to the `l` minus the word's grapheme count. Dividing by
/// `d` to the `l` gives the sum of `d` to the minus-length of each
/// word.
pub open spec fn kraft_scaled_sum(ws: Seq<Seq<char>>, d: int, l: int) -> int
    decreases ws.len(),
{
    if ws.len() == 0 {
        0
    } else {
        kraft_scaled_sum(ws.drop_last(), d, l) + pow(d, (l - grapheme_len(ws.last())) as nat)
    }
}

/// The Kraft–McMillan inequality for the list over its own alphabet:
/// the sum over all words of `alphabetSize` to the minus-length stays
/// at or below one. Stated exactly: both sides scaled by the alphabet
/// size raised to the longest word's length.
pub open spec fn kraft_ok(ws: Seq<Seq<char>>) -> bool {
    kraft_scaled_sum(ws, char_set(ws).len() as int, max_glen(ws) as int) <= pow(
        char_set(ws).len() as int,
        max_glen(ws),
    )
}

/// Sum of the tail of `cs` from index `k` on.
pub open spec fn csum(cs: Seq<u128>, k: int) -> int
    decreases cs.len() - k,
{
    if k < 0 || k >= cs.len() {
        0
    } else {
        cs[k] + csum(cs, k + 1)
    }
}

/// The scaled tail sum from level `k` down: each count weighted by `d`
/// raised to its level's distance from the deepest level.
pub open spec fn level_sum(cs: Seq<u128>, k: int, d: int) -> int
    decreases cs.len() - k,
{
    if k < 0 || k >= cs.len() {
        0
    } else {
        cs[k] * pow(d, (cs.len() - 1 - k) as nat) + level_sum(cs, k + 1, d)
    }
}

proof fn lemma_csum_agree(cs1: Seq<u128>, cs2: Seq<u128>, k: int)
    requires
        cs1.len() == cs2.len(),
        forall|t: int| k <= t < cs1.len() ==> cs1[t] == cs2[t],
    ensures
        csum(cs1, k) == csum(cs2, k),
    decreases cs1.len() - k,
{
    if 0 <= k < cs1.len() {
        lemma_csum_agree(cs1, cs2, k + 1);
    }
}

proof fn lemma_level_sum_agree(cs1: Seq<u128>, cs2: Seq<u128>, k: int, d: int)
    requires
        cs1.len() == cs2.len(),
        forall|t: int| k <= t < cs1.len() ==> cs1[t] == cs2[t],
    ensures
        level_sum(cs1, k, d) == level_sum(cs2, k, d),
    decreases cs1.len() - k,
{
    if 0 <= k < cs1.len() {
        lemma_level_sum_agree(cs1, cs2, k + 1, d);
    }
}

proof fn lemma_csum_update(cs: Seq<u128>, k: int, l: int)
    requires
        0 <= k <= l < cs.len(),
        cs[l] < 0xFFFF_FFFF_FFFF_FFFF_FFFF_FFFF_FFFF_FFFFu128,
    ensures
        csum(cs.update(l, (cs[l] + 1) as u128), k) == csum(cs, k) + 1,
    decreases l - k,
{
    let cs2 = cs.update(l, (cs[l] + 1) as u128);
    if k == l {
        lemma_csum_agree(cs2, cs, k + 1);
    } else {
        lemma_csum_update(cs, k + 1, l);
    }
}

proof fn lemma_level_sum_update(cs: Seq<u128>, k: int, l: int, d: int)
    requires
        0 <= k <= l < cs.len(),
        cs[l] < 0xFFFF_FFFF_FFFF_FFFF_FFFF_FFFF_FFFF_FFFFu128,
    ensures
        level_sum(cs.update(l, (cs[l] + 1) as u128), k, d) == level_sum(cs, k, d) + pow(
            d,
            (cs.len() - 1 - l) as nat,
        ),
    decreases l - k,
{
    let cs2 = cs.update(l, (cs[l] + 1) as u128);
    if k == l {
        lemma_level_sum_agree(cs2, cs, k + 1, d);
        assert(cs2[l] * pow(d, (cs.len() - 1 - l) as nat) == cs[l] * pow(
            d,
            (cs.len() - 1 - l) as nat,
        ) + pow(d, (cs.len() - 1 - l) as nat)) by (nonlinear_arith)
            requires
                cs2[l] == cs[l] + 1,
        ;
    } else {
        lemma_level_sum_update(cs, k + 1, l, d);
    }
}

proof fn lemma_entry_le_csum(cs: Seq<u128>, k: int, t: int)
    requires
        0 <= k <= t < cs.len(),
    ensures
        cs[t] <= csum(cs, k),
        csum(cs, k) >= 0,
    decreases cs.len() - k,
{
    if k < t {
        lemma_entry_le_csum(cs, k + 1, t);
    } else {
        lemma_csum_nonneg(cs, k + 1);
    }
}

proof fn lemma_csum_nonneg(cs: Seq<u128>, k: int)
    ensures
        csum(cs, k) >= 0,
    decreases cs.len() - k,
{
    if 0 <= k < cs.len() {
        lemma_csum_nonneg(cs, k + 1);
    }
}

proof fn lemma_csum_le_head(cs: Seq<u128>, k: int)
    requires
        0 <= k,
    ensures
        csum(cs, k) <= csum(cs, 0),
    decreases k,
{
    if k > 0 {
        lemma_csum_le_head(cs, k - 1);
        if k - 1 < cs.len() {
            lemma_csum_nonneg(cs, k);
        }
    }
}

/// A word with a character contributes that character to the list's
/// alphabet.
proof fn lemma_char_set_member(ws: Seq<Seq<char>>, i: int)
    requires
        0 <= i < ws.len(),
        ws[i].len() > 0,
    ensures
        char_set(ws).contains(ws[i][0]),
    decreases ws.len(),
{
    if i == ws.len() - 1 {
        assert(ws.last() == ws[i]);
        assert(ws[i].to_set().contains(ws[i][0]));
    } else {
        assert(ws.drop_last()[i] == ws[i]);
        lemma_char_set_member(ws.drop_last(), i);
    }
}

/// When every word is empty the scaled Kraft sum collapses to the list
/// length, each empty word contributing exactly one.
proof fn lemma_kraft_sum_all_empty(ws: Seq<Seq<char>>, d: int)
    requires
        forall|i: int| 0 <= i < ws.len() ==> #[trigger] grapheme_len(ws[i]) == 0,
    ensures
        kraft_scaled_sum(ws, d, 0) == ws.len(),
    decreases ws.len(),
{
    if ws.len() > 0 {
        assert(forall|i: int| 0 <= i < ws.len() - 1 ==> ws.drop_last()[i] == ws[i]);
        lemma_kraft_sum_all_empty(ws.drop_last(), d);
        assert(ws.last() == ws[ws.len() - 1]);
        assert(grapheme_len(ws.last()) == 0);
        vstd::arithmetic::power::lemma_pow0(d);
    }
}

/// Decides the Kraft–McMillan inequality for the list over its own
/// alphabet: the count of distinct characters across the whole list is
/// the alphabet size, each word's grapheme count is its codeword
/// length, and the outcome is Satisfied exactly when the sum of
/// alphabetSize to the minus-length over all words stays at or below
/// one. Decided with exact integer arithmetic: the counts of words at
/// each length are folded from the longest length down, carrying an
/// exact quotient and a remainder-is-zero flag, so no rounding can
/// occur.
pub fn satisfies_kraft_mcmillan(list: &Vec<String>) -> (r: KraftMcmillanOutcome)
    ensures
        (r == KraftMcmillanOutcome::Satisfied) == kraft_ok(list.deep_view()),
{
    let ghost dvs = list.deep_view();
    let n = list.len();
    if n == 0 {
        proof {
            vstd::arithmetic::power::lemma_pow0(char_set(dvs).len() as int);
        }
        return KraftMcmillanOutcome::Satisfied;
    }
    // Distinct characters across the list.
    let mut seen: Vec<char> = Vec::new();
    let mut wi: usize = 0;
    while wi < n
        invariant
            0 <= wi <= n,
            n == list@.len(),
            dvs == list.deep_view(),
            seen@.no_duplicates(),
            seen@.to_set() == char_set(dvs.take(wi as int)),
        decreases n - wi,
    {
        proof {
            assert(list.deep_view()[wi as int] == list@[wi as int]@);
        }
        let w = list[wi].as_str();
        let m = w.unicode_len();
        let mut ci: usize = 0;
        while ci < m
            invariant
                0 <= ci <= m,
                0 <= wi < n,
                n == list@.len(),
                dvs == list.deep_view(),
                m == dvs[wi as int].len(),
                w@ == dvs[wi as int],
                seen@.no_duplicates(),
                seen@.to_set() == char_set(dvs.take(wi as int)).union(
                    dvs[wi as int].take(ci as int).to_set(),
                ),
            decreases m - ci,
        {
            let c = w.get_char(ci);
            let mut found = false;
            let mut k: usize = 0;
            while k < seen.len() && !found
                invariant
                    0 <= k <= seen@.len(),
                    !found ==> forall|t: int| 0 <= t < k ==> seen@[t] != c,
                    found ==> seen@.contains(c),
                decreases seen@.len() - k,
            {
                if seen[k] == c {
                    found = true;
                }
                k = k + 1;
            }
            let ghost prev = seen@;
            if !found {
                proof {
                    assert(!seen@.contains(c));
                }
                seen.push(c);
            }
            proof {
                let tk = dvs[wi as int].take(ci as int);
                let tk1 = dvs[wi as int].take(ci + 1);
                assert(tk1 =~= tk.push(c));
                Seq::<char>::lemma_push_to_set_commute(tk, c);
                assert(tk1.to_set() == tk.to_set().insert(c));
                if found {
                    assert(seen@.to_set().contains(c));
                    assert(seen@.to_set() =~= char_set(dvs.take(wi as int)).union(
                        tk1.to_set(),
                    ));
                } else {
                    assert(seen@ =~= prev.push(c));
                    Seq::<char>::lemma_push_to_set_commute(prev, c);
                    assert(seen@.to_set() =~= char_set(dvs.take(wi as int)).union(
                        tk1.to_set(),
                    ));
                }
            }
            ci = ci + 1;
        }
        proof {
            let t1 = dvs.take(wi + 1);
            assert(t1.drop_last() =~= dvs.take(wi as int));
            assert(t1.last() == dvs[wi as int]);
            assert(dvs[wi as int].take(m as int) =~= dvs[wi as int]);
            assert(char_set(t1) == char_set(dvs.take(wi as int)).union(
                dvs[wi as int].to_set(),
            ));
            assert(seen@.to_set() == char_set(t1));
        }
        wi = wi + 1;
    }
    proof {
        assert(dvs.take(n as int) =~= dvs);
        seen@.unique_seq_to_set();
    }
    let d128 = seen.len() as u128;
    let ghost gd = char_set(dvs).len() as int;
    // Grapheme count of each word, and the longest.
    let mut glens: Vec<usize> = Vec::new();
    let mut lmax: usize = 0;
    let mut wi: usize = 0;
    while wi < n
        invariant
            0 <= wi <= n,
            n == list@.len(),
            dvs == list.deep_view(),
            glens@.len() == wi,
            forall|t: int| 0 <= t < wi ==> glens@[t] == grapheme_len(#[trigger] dvs[t]),
            forall|t: int| 0 <= t < wi ==> (glens@[t] == 0) == (#[trigger] dvs[t].len() == 0),
            lmax == max_glen(dvs.take(wi as int)),
        decreases n - wi,
    {
        proof {
            assert(list.deep_view()[wi as int] == list@[wi as int]@);
        }
        let g = count_characters(list[wi].as_str());
        glens.push(g);
        proof {
            let t1 = dvs.take(wi + 1);
            assert(t1.drop_last() =~= dvs.take(wi as int));
            assert(t1.last() == dvs[wi as int]);
        }
        if g >= lmax {
            lmax = g;
        }
        wi = wi + 1;
    }
    proof {
        assert(dvs.take(n as int) =~= dvs);
    }
    if d128 == 0 {
        // No characters at all: every word is empty, every length zero,
        // and the sum is the list length itself.
        proof {
            assert forall|i: int| 0 <= i < dvs.len() implies #[trigger] grapheme_len(dvs[i])
                == 0 by {
                if dvs[i].len() > 0 {
                    lemma_char_set_member(dvs, i);
                    assert(char_set(dvs).contains(dvs[i][0]));
                    vstd::set_lib::lemma_set_empty_equivalency_len(char_set(dvs));
                }
            }
            lemma_kraft_sum_all_empty(dvs, gd);
            lemma_max_glen(dvs);
            assert(max_glen(dvs) == 0);
            vstd::arithmetic::power::lemma_pow0(gd);
            assert(kraft_ok(dvs) == (dvs.len() <= 1));
        }
        if n <= 1 {
            return KraftMcmillanOutcome::Satisfied;
        } else {
            return KraftMcmillanOutcome::NotSatisfied;
        }
    }
    // Counts of words at each grapheme length, zero through the longest.
    let mut counts: Vec<u128> = Vec::new();
    counts.push(0);
    let mut t: usize = 0;
    while t < lmax
        invariant
            0 <= t <= lmax,
            counts@.len() == t + 1,
            forall|x: int| 0 <= x < counts@.len() ==> counts@[x] == 0,
        decreases lmax - t,
    {
        counts.push(0);
        t = t + 1;
    }
    proof {
        lemma_csum_zero(counts@, 0);
        lemma_level_sum_zero(counts@, 0, gd);
    }
    let mut wi: usize = 0;
    while wi < n
        invariant
            0 <= wi <= n,
            n == list@.len(),
            dvs == list.deep_view(),
            counts@.len() == lmax + 1,
            glens@.len() == n,
            forall|t2: int| 0 <= t2 < n ==> glens@[t2] == grapheme_len(#[trigger] dvs[t2]),
            lmax == max_glen(dvs),
            csum(counts@, 0) == wi,
            level_sum(counts@, 0, gd) == kraft_scaled_sum(dvs.take(wi as int), gd, lmax as int),
        decreases n - wi,
    {
        let gl = glens[wi];
        proof {
            lemma_max_glen(dvs);
            assert(grapheme_len(dvs[wi as int]) <= lmax);
            lemma_entry_le_csum(counts@, 0, gl as int);
            assert(counts@[gl as int] <= wi);
        }
        let ghost prev = counts@;
        let cur = counts[gl];
        counts.set(gl, cur + 1);
        proof {
            assert(counts@ =~= prev.update(gl as int, (prev[gl as int] + 1) as u128));
            lemma_csum_update(prev, 0, gl as int);
            lemma_level_sum_update(prev, 0, gl as int, gd);
            let t1 = dvs.take(wi + 1);
            assert(t1.drop_last() =~= dvs.take(wi as int));
            assert(t1.last() == dvs[wi as int]);
            assert(prev.len() - 1 - gl == lmax - grapheme_len(dvs[wi as int]));
        }
        wi = wi + 1;
    }
    proof {
        assert(dvs.take(n as int) =~= dvs);
    }
    // Fold the counts from the longest length down, keeping the exact
    // quotient and whether any remainder has appeared.
    let mut q: u128 = counts[lmax];
    let ghost mut rg: int = 0;
    let mut rz: bool = true;
    let mut l: usize = lmax;
    proof {
        vstd::arithmetic::power::lemma_pow0(gd);
        assert(level_sum(counts@, lmax + 1, gd) == 0);
        assert(level_sum(counts@, lmax as int, gd) == counts@[lmax as int] * 1 + 0);
        lemma_entry_le_csum(counts@, lmax as int, lmax as int);
    }
    while l > 0
        invariant
            0 <= l <= lmax,
            counts@.len() == lmax + 1,
            1 <= gd,
            d128 == gd,
            dvs == list.deep_view(),
            gd == char_set(dvs).len() as int,
            lmax == max_glen(dvs),
            level_sum(counts@, 0, gd) == kraft_scaled_sum(dvs, gd, lmax as int),
            csum(counts@, 0) == n,
            n == list@.len(),
            1 <= n,
            level_sum(counts@, l as int, gd) == q * pow(gd, (lmax - l) as nat) + rg,
            0 <= rg < pow(gd, (lmax - l) as nat),
            rz == (rg == 0),
            q <= csum(counts@, l as int),
        decreases l,
    {
        let lprev = l;
        let a = q / d128;
        let b = q % d128;
        proof {
            vstd::arithmetic::div_mod::lemma_fundamental_div_mod(q as int, gd);
            vstd::arithmetic::div_mod::lemma_mod_bound(q as int, gd);
            lemma_csum_le_head(counts@, l as int);
            lemma_csum_nonneg(counts@, l as int);
            assert(q <= n);
            vstd::arithmetic::div_mod::lemma_div_nonincreasing(q as int, gd);
            assert(a <= q);
            lemma_entry_le_csum(counts@, 0, l - 1);
            assert(counts@[l - 1] <= n);
        }
        let q2 = counts[l - 1] + a;
        let rz2 = rz && (b == 0);
        let ghost p_small = pow(gd, (lmax - l) as nat);
        let ghost p_big = pow(gd, (lmax - l + 1) as nat);
        let ghost rg2 = b * p_small + rg;
        proof {
            vstd::arithmetic::power::lemma_pow1(gd);
            vstd::arithmetic::power::lemma_pow_adds(gd, 1, (lmax - l) as nat);
            assert(p_big == gd * p_small);
            vstd::arithmetic::power::lemma_pow_positive(gd, (lmax - l) as nat);
            assert(level_sum(counts@, l - 1, gd) == counts@[l - 1] * p_big + level_sum(
                counts@,
                l as int,
                gd,
            ));
            assert(counts@[l - 1] * p_big + (q * p_small + rg) == q2 * p_big + rg2)
                by (nonlinear_arith)
                requires
                    q == gd * a + b,
                    p_big == gd * p_small,
                    q2 == counts@[l - 1] + a,
                    rg2 == b * p_small + rg,
            ;
            assert(rg2 < p_big) by (nonlinear_arith)
                requires
                    rg2 == b * p_small + rg,
                    0 <= b <= gd - 1,
                    0 <= rg < p_small,
                    p_big == gd * p_small,
                    p_small >= 1,
            ;
            assert(rg2 >= 0) by (nonlinear_arith)
                requires
                    rg2 == b * p_small + rg,
                    b >= 0,
                    p_small >= 1,
                    rg >= 0,
            ;
            assert((rg2 == 0) == (b == 0 && rg == 0)) by (nonlinear_arith)
                requires
                    rg2 == b * p_small + rg,
                    b >= 0,
                    p_small >= 1,
                    rg >= 0,
            ;
            // the new quotient stays within the remaining counts
            assert(q2 <= csum(counts@, l - 1)) by {
                assert(csum(counts@, l - 1) == counts@[l - 1] + csum(counts@, l as int));
            }
        }
        q = q2;
        rz = rz2;
        proof {
            rg = rg2;
        }
        l = l - 1;
    }
    proof {
        let pl = pow(gd, lmax as nat);
        assert(level_sum(counts@, 0, gd) == q * pl + rg);
        assert(kraft_scaled_sum(dvs, gd, lmax as int) == q * pl + rg);
        vstd::arithmetic::power::lemma_pow_positive(gd, lmax as nat);
        if q == 0 {
            assert(kraft_scaled_sum(dvs, gd, lmax as int) <= pl);
        } else if q == 1 && rz {
            assert(kraft_scaled_sum(dvs, gd, lmax as int) == pl);
        } else {
            assert(q * pl + rg > pl) by (nonlinear_arith)
                requires
                    q >= 1,
                    rg >= 0,
                    pl >= 1,
                    !(q == 1 && rg == 0),
                    q >= 2 || rg > 0,
            ;
        }
        assert(kraft_ok(dvs) == (q == 0 || (q == 1 && rz)));
    }
    if q == 0 || (q == 1 && rz) {
        KraftMcmillanOutcome::Satisfied
    } else {
        KraftMcmillanOutcome::NotSatisfied
    }
}

proof fn lemma_csum_zero(cs: Seq<u128>, k: int)
    requires
        forall|x: int| 0 <= x < cs.len() ==> cs[x] == 0,
    ensures
        csum(cs, k) == 0,
    decreases cs.len() - k,
{
    if 0 <= k < cs.len() {
        lemma_csum_zero(cs, k + 1);
    }
}

proof fn lemma_level_sum_zero(cs: Seq<u128>, k: int, d: int)
    requires
        forall|x: int| 0 <= x < cs.len() ==> cs[x] == 0,
    ensures
        level_sum(cs, k, d) == 0,
    decreases cs.len() - k,
{
    if 0 <= k < cs.len() {
        lemma_level_sum_zero(cs, k + 1, d);
    }
}

} // verus!
