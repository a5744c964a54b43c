//! Pairwise Levenshtein analysis over grapheme sequences: the edit
//! distance of two words, the shortest distance over value-distinct
//! pairs, and the exact sum of distances over all unordered pairs of
//! positions.

use crate::lexical::Ratio;
use crate::text::{graphemes, graphemes_of, string_eq};
use crate::AuditError;
use vstd::prelude::*;

verus! {

broadcast use crate::text::lemma_deep_view_index_strings;

/// The smaller of two naturals.
pub open spec fn min2(x: nat, y: nat) -> nat {
    if x <= y {
        x
    } else {
        y
    }
}

/// The smallest of three naturals.
pub open spec fn min3(x: nat, y: nat, z: nat) -> nat {
    min2(x, min2(y, z))
}

/// Levenshtein distance of two grapheme sequences: the minimum number
/// of single-grapheme insertions, deletions or substitutions that turn
/// one into the other.
pub open spec fn edit_dist(a: Seq<Seq<char>>, b: Seq<Seq<char>>) -> nat
    decreases a.len() + b.len(),
{
    if a.len() == 0 {
        b.len()
    } else if b.len() == 0 {
        a.len()
    } else {
        let sub_cost: nat = if a.last() == b.last() {
            0
        } else {
            1
        };
        min3(
            edit_dist(a.drop_last(), b.drop_last()) + sub_cost,
            edit_dist(a.drop_last(), b) + 1,
            edit_dist(a, b.drop_last()) + 1,
        )
    }
}

/// The edit distance never exceeds the longer sequence's length.
pub proof fn lemma_edit_dist_le_max(a: Seq<Seq<char>>, b: Seq<Seq<char>>)
    ensures
        edit_dist(a, b) <= a.len() || edit_dist(a, b) <= b.len(),
        edit_dist(a, b) <= a.len() + b.len(),
    decreases a.len() + b.len(),
{
    if a.len() == 0 || b.len() == 0 {
    } else {
        lemma_edit_dist_le_max(a.drop_last(), b.drop_last());
        lemma_edit_dist_le_max(a.drop_last(), b);
        lemma_edit_dist_le_max(a, b.drop_last());
    }
}

/// The edit distance of a sequence to itself is zero.
pub proof fn lemma_edit_distance_self(a: Seq<Seq<char>>)
    ensures
        edit_dist(a, a) == 0,
    decreases a.len(),
{
    if a.len() > 0 {
        lemma_edit_distance_self(a.drop_last());
        assert(a.last() == a.last());
        assert(edit_dist(a.drop_last(), a.drop_last()) + 0 == 0);
    }
}

/// The edit distance is zero exactly on identical sequences: no two
/// distinct words are zero edits apart.
pub proof fn lemma_edit_dist_zero_iff(a: Seq<Seq<char>>, b: Seq<Seq<char>>)
    ensures
        (edit_dist(a, b) == 0) <==> (a == b),
    decreases a.len() + b.len(),
{
    if a.len() == 0 || b.len() == 0 {
        if a.len() == 0 && b.len() == 0 {
            assert(a =~= b);
        }
        if a == b {
            assert(a.len() == b.len());
        }
    } else {
        lemma_edit_dist_zero_iff(a.drop_last(), b.drop_last());
        if edit_dist(a, b) == 0 {
            assert(a.last() == b.last() && edit_dist(a.drop_last(), b.drop_last()) == 0);
            assert(a.drop_last() == b.drop_last());
            assert(a =~= a.drop_last().push(a.last()));
            assert(b =~= b.drop_last().push(b.last()));
        }
        if a == b {
            assert(a.last() == b.last());
            assert(a.drop_last() =~= b.drop_last());
            assert(edit_dist(a.drop_last(), b.drop_last()) == 0);
        }
    }
}

/// The edit distance is symmetric: editing `a` into `b` costs exactly
/// as much as editing `b` into `a`.
pub proof fn lemma_edit_distance_symmetric(a: Seq<Seq<char>>, b: Seq<Seq<char>>)
    ensures
        edit_dist(a, b) == edit_dist(b, a),
    decreases a.len() + b.len(),
{
    if a.len() == 0 || b.len() == 0 {
    } else {
        lemma_edit_distance_symmetric(a.drop_last(), b.drop_last());
        lemma_edit_distance_symmetric(a.drop_last(), b);
        lemma_edit_distance_symmetric(a, b.drop_last());
    }
}

fn min_usize(x: usize, y: usize) -> (r: usize)
    ensures
        r == min2(x as nat, y as nat),
{
    if x <= y {
        x
    } else {
        y
    }
}

/// Adds one, stopping at the largest representable value; used only for
/// candidates that a smaller exact candidate always undercuts.
fn sat_inc(x: usize) -> (r: usize)
    ensures
        r == min2((x + 1) as nat, usize::MAX as nat),
{
    if x == usize::MAX {
        x
    } else {
        x + 1
    }
}

/// Levenshtein distance of two grapheme vectors, by the classic
/// row-by-row dynamic program.
pub(crate) fn gv_edit_distance(av: &Vec<String>, bv: &Vec<String>) -> (r: usize)
    ensures
        r == edit_dist(av.deep_view(), bv.deep_view()),
{
    let ghost aseq = av.deep_view();
    let ghost bseq = bv.deep_view();
    let na = av.len();
    let nb = bv.len();
    let mut prev: Vec<usize> = Vec::new();
    prev.push(0);
    let mut j: usize = 0;
    while j < nb
        invariant
            0 <= j <= nb,
            prev@.len() == j + 1,
            forall|t: int| 0 <= t <= j ==> prev@[t] == t,
        decreases nb - j,
    {
        prev.push(j + 1);
        j = j + 1;
    }
    proof {
        assert(aseq.len() == na && bseq.len() == nb);
        assert forall|t: int| 0 <= t <= nb implies prev@[t] == edit_dist(
            aseq.take(0),
            bseq.take(t),
        ) by {
            assert(aseq.take(0).len() == 0);
            assert(bseq.take(t).len() == t);
        }
    }
    let mut i: usize = 0;
    while i < na
        invariant
            0 <= i <= na,
            na == aseq.len(),
            nb == bseq.len(),
            aseq == av.deep_view(),
            bseq == bv.deep_view(),
            prev@.len() == nb + 1,
            forall|t: int|
                0 <= t <= nb ==> prev@[t] == edit_dist(aseq.take(i as int), bseq.take(t)),
        decreases na - i,
    {
        let mut cur: Vec<usize> = Vec::new();
        cur.push(i + 1);
        proof {
            assert(bseq.take(0).len() == 0);
            assert(aseq.take(i + 1).len() == i + 1);
            assert(cur@[0] == edit_dist(aseq.take(i + 1), bseq.take(0)));
        }
        let mut j: usize = 0;
        while j < nb
            invariant
                0 <= i < na,
                0 <= j <= nb,
                na == aseq.len(),
                nb == bseq.len(),
                aseq == av.deep_view(),
                bseq == bv.deep_view(),
                prev@.len() == nb + 1,
                forall|t: int|
                    0 <= t <= nb ==> prev@[t] == edit_dist(aseq.take(i as int), bseq.take(t)),
                cur@.len() == j + 1,
                forall|t: int|
                    0 <= t <= j ==> cur@[t] == edit_dist(aseq.take(i + 1), bseq.take(t)),
            decreases nb - j,
        {
            proof {
                assert(av.deep_view()[i as int] == av@[i as int]@);
                assert(bv.deep_view()[j as int] == bv@[j as int]@);
            }
            let cost: usize = if string_eq(&av[i], &bv[j]) {
                0
            } else {
                1
            };
            proof {
                lemma_edit_dist_le_max(aseq.take(i as int), bseq.take(j as int));
                assert(aseq.take(i as int).len() == i);
                assert(bseq.take(j as int).len() == j);
                assert(prev@[j as int] + cost <= usize::MAX);
            }
            let c1 = prev[j] + cost;
            let c2 = sat_inc(prev[j + 1]);
            let c3 = sat_inc(cur[j]);
            let m = min_usize(c1, min_usize(c2, c3));
            proof {
                let gi = i as int;
                let gj = j as int;
                let x = aseq.take(gi + 1);
                let y = bseq.take(gj + 1);
                assert(x.len() == gi + 1 && y.len() == gj + 1);
                assert(x.drop_last() =~= aseq.take(gi));
                assert(y.drop_last() =~= bseq.take(gj));
                assert(x.last() == aseq[gi]);
                assert(y.last() == bseq[gj]);
                let sub_cost: nat = if aseq[gi] == bseq[gj] {
                    0
                } else {
                    1
                };
                assert(cost == sub_cost);
                assert(edit_dist(x, y) == min3(
                    edit_dist(aseq.take(gi), bseq.take(gj)) + sub_cost,
                    edit_dist(aseq.take(gi), y) + 1,
                    edit_dist(x, bseq.take(gj)) + 1,
                ));
                let v1 = edit_dist(aseq.take(gi), bseq.take(gj)) + sub_cost;
                let v2 = edit_dist(aseq.take(gi), y) + 1;
                let v3 = edit_dist(x, bseq.take(gj)) + 1;
                assert(c1 == v1);
                assert(prev@[gj + 1] == edit_dist(aseq.take(gi), y));
                assert(cur@[gj] == edit_dist(x, bseq.take(gj)));
                assert(c2 == min2(v2, usize::MAX as nat));
                assert(c3 == min2(v3, usize::MAX as nat));
                assert(m == min3(v1, v2, v3)) by {
                    assert(v1 <= usize::MAX);
                }
                assert(m == edit_dist(aseq.take(gi + 1), bseq.take(gj + 1)));
            }
            cur.push(m);
            j = j + 1;
        }
        prev = cur;
        i = i + 1;
    }
    proof {
        assert(aseq.take(na as int) =~= aseq);
        assert(bseq.take(nb as int) =~= bseq);
    }
    prev[nb]
}

/// Levenshtein distance between two words, measured in grapheme
/// clusters.
pub fn find_edit_distance(word1: &str, word2: &str) -> (r: usize)
    ensures
        r == edit_dist(graphemes_of(word1@), graphemes_of(word2@)),
{
    let g1 = graphemes(word1);
    let g2 = graphemes(word2);
    gv_edit_distance(&g1, &g2)
}

/// The sentinel the shortest-distance scan reports when the list holds
/// no two value-distinct words: the scan's starting minimum.
pub open spec fn no_pair_sentinel() -> nat {
    0xFFFF_FFFF
}

/// The smallest edit distance between any two value-distinct words of
/// the list, capped at the scan's starting sentinel; the sentinel
/// itself is returned when no value-distinct pair exists. Every
/// unordered pair is examined. Because only value-distinct pairs enter
/// the minimum and the edit distance is zero only on identical
/// sequences, the result is never zero.
pub fn find_shortest_edit_distance(list: &Vec<String>) -> (r: usize)
    ensures
        1 <= r <= no_pair_sentinel(),
        forall|p: int, q: int|
            #![trigger graphemes_of(list.deep_view()[p]), graphemes_of(list.deep_view()[q])]
            0 <= p < q < list@.len() && list.deep_view()[p] != list.deep_view()[q] ==> r
                <= edit_dist(
                graphemes_of(list.deep_view()[p]),
                graphemes_of(list.deep_view()[q]),
            ),
        (exists|p: int, q: int|
            #![trigger graphemes_of(list.deep_view()[p]), graphemes_of(list.deep_view()[q])]
            0 <= p < q < list@.len() && list.deep_view()[p] != list.deep_view()[q] && edit_dist(
                graphemes_of(list.deep_view()[p]),
                graphemes_of(list.deep_view()[q]),
            ) == r) || r == no_pair_sentinel(),
{
    let ghost dvs = list.deep_view();
    let n = list.len();
    let mut gv: Vec<Vec<String>> = Vec::new();
    let mut k: usize = 0;
    while k < n
        invariant
            0 <= k <= n,
            n == list@.len(),
            dvs == list.deep_view(),
            gv@.len() == k,
            forall|t: int| 0 <= t < k ==> gv@[t].deep_view() == graphemes_of(#[trigger] dvs[t]),
            forall|t: int| 0 <= t < k ==> (#[trigger] graphemes_of(dvs[t])).flatten() == dvs[t],
        decreases n - k,
    {
        proof {
            assert(list.deep_view()[k as int] == list@[k as int]@);
        }
        let g = graphemes(list[k].as_str());
        gv.push(g);
        k = k + 1;
    }
    let mut best: usize = 0xFFFF_FFFF;
    let ghost mut witness: (int, int) = (0, 0);
    let ghost mut any_seen = false;
    let mut i: usize = 0;
    while i < n
        invariant
            0 <= i <= n,
            n == list@.len(),
            dvs == list.deep_view(),
            gv@.len() == n,
            forall|t: int| 0 <= t < n ==> gv@[t].deep_view() == graphemes_of(#[trigger] dvs[t]),
            forall|t: int| 0 <= t < n ==> (#[trigger] graphemes_of(dvs[t])).flatten() == dvs[t],
            1 <= best <= no_pair_sentinel(),
            forall|p: int, q: int|
                #![trigger graphemes_of(dvs[p]), graphemes_of(dvs[q])]
                0 <= p < q < n && p < i && dvs[p] != dvs[q] ==> best <= edit_dist(
                    graphemes_of(dvs[p]),
                    graphemes_of(dvs[q]),
                ),
            any_seen ==> 0 <= witness.0 < witness.1 < n && dvs[witness.0] != dvs[witness.1]
                && edit_dist(graphemes_of(dvs[witness.0]), graphemes_of(dvs[witness.1]))
                == best,
            !any_seen ==> best == no_pair_sentinel(),
        decreases n - i,
    {
        let mut j: usize = i + 1;
        while j < n
            invariant
                0 <= i < j <= n,
                n == list@.len(),
                dvs == list.deep_view(),
                gv@.len() == n,
                forall|t: int|
                    0 <= t < n ==> gv@[t].deep_view() == graphemes_of(#[trigger] dvs[t]),
                forall|t: int|
                    0 <= t < n ==> (#[trigger] graphemes_of(dvs[t])).flatten() == dvs[t],
                1 <= best <= no_pair_sentinel(),
                forall|p: int, q: int|
                    #![trigger graphemes_of(dvs[p]), graphemes_of(dvs[q])]
                    0 <= p < q < n && p < i && dvs[p] != dvs[q] ==> best <= edit_dist(
                        graphemes_of(dvs[p]),
                        graphemes_of(dvs[q]),
                    ),
                forall|q: int|
                    i < q < j && dvs[i as int] != dvs[q] ==> best <= edit_dist(
                        graphemes_of(dvs[i as int]),
                        #[trigger] graphemes_of(dvs[q]),
                    ),
                any_seen ==> 0 <= witness.0 < witness.1 < n && dvs[witness.0] != dvs[witness.1]
                    && edit_dist(graphemes_of(dvs[witness.0]), graphemes_of(dvs[witness.1]))
                    == best,
                !any_seen ==> best == no_pair_sentinel(),
            decreases n - j,
        {
            proof {
                assert(list.deep_view()[i as int] == list@[i as int]@);
                assert(list.deep_view()[j as int] == list@[j as int]@);
            }
            if !string_eq(&list[i], &list[j]) {
                let d = gv_edit_distance(&gv[i], &gv[j]);
                proof {
                    assert(gv@[i as int].deep_view() == graphemes_of(dvs[i as int]));
                    assert(gv@[j as int].deep_view() == graphemes_of(dvs[j as int]));
                    lemma_edit_dist_zero_iff(
                        graphemes_of(dvs[i as int]),
                        graphemes_of(dvs[j as int]),
                    );
                    assert(graphemes_of(dvs[i as int]) != graphemes_of(dvs[j as int])) by {
                        if graphemes_of(dvs[i as int]) == graphemes_of(dvs[j as int]) {
                            assert(graphemes_of(dvs[i as int]).flatten() == graphemes_of(
                                dvs[j as int],
                            ).flatten());
                        }
                    }
                    assert(d >= 1);
                }
                if d < best {
                    best = d;
                    proof {
                        witness = (i as int, j as int);
                        any_seen = true;
                    }
                }
            }
            j = j + 1;
        }
        i = i + 1;
    }
    best
}

/// Number of unordered pairs among `n` positions.
pub open spec fn pair_count(n: nat) -> int {
    (n * (n - 1)) / 2
}

/// Sum of the edit distances from `w` to the first `k` entries of the
/// list.
pub open spec fn row_dist_sum(w: Seq<char>, ws: Seq<Seq<char>>, k: int) -> nat
    decreases k,
{
    if k <= 0 {
        0
    } else {
        row_dist_sum(w, ws, k - 1) + edit_dist(graphemes_of(w), graphemes_of(ws[k - 1]))
    }
}

/// Sum of the edit distances over every unordered pair of positions
/// among the first `i` entries, each pair counted exactly once.
pub open spec fn pair_dist_sum(ws: Seq<Seq<char>>, i: int) -> nat
    decreases i,
{
    if i <= 0 {
        0
    } else {
        pair_dist_sum(ws, i - 1) + row_dist_sum(ws[i - 1], ws, i - 1)
    }
}

/// The row and pair sums read only entries below their bound, so equal
/// prefixes give equal sums.
proof fn lemma_row_dist_sum_congruent(w: Seq<char>, ws1: Seq<Seq<char>>, ws2: Seq<Seq<char>>, k: int)
    requires
        forall|t: int| 0 <= t < k ==> ws1[t] == ws2[t],
    ensures
        row_dist_sum(w, ws1, k) == row_dist_sum(w, ws2, k),
    decreases k,
{
    if k > 0 {
        lemma_row_dist_sum_congruent(w, ws1, ws2, k - 1);
    }
}

proof fn lemma_pair_dist_sum_congruent(ws1: Seq<Seq<char>>, ws2: Seq<Seq<char>>, k: int)
    requires
        forall|t: int| 0 <= t < k ==> ws1[t] == ws2[t],
    ensures
        pair_dist_sum(ws1, k) == pair_dist_sum(ws2, k),
    decreases k,
{
    if k > 0 {
        lemma_pair_dist_sum_congruent(ws1, ws2, k - 1);
        lemma_row_dist_sum_congruent(ws1[k - 1], ws1, ws2, k - 1);
    }
}

/// Peeling the first entry off the row: the distance to it plus the row
/// over the rest.
proof fn lemma_row_dist_sum_cons(w: Seq<char>, y: Seq<char>, zs: Seq<Seq<char>>, k: int)
    requires
        0 <= k <= zs.len(),
    ensures
        row_dist_sum(w, seq![y] + zs, k + 1) == edit_dist(graphemes_of(w), graphemes_of(y))
            + row_dist_sum(w, zs, k),
    decreases k,
{
    let ws = seq![y] + zs;
    if k == 0 {
        assert(ws[0] == y);
        assert(row_dist_sum(w, ws, 1) == row_dist_sum(w, ws, 0) + edit_dist(
            graphemes_of(w),
            graphemes_of(ws[0]),
        ));
        assert(row_dist_sum(w, ws, 0) == 0);
        assert(row_dist_sum(w, zs, 0) == 0);
    } else {
        lemma_row_dist_sum_cons(w, y, zs, k - 1);
        assert(ws[k] == zs[k - 1]);
        assert(row_dist_sum(w, ws, k + 1) == row_dist_sum(w, ws, k) + edit_dist(
            graphemes_of(w),
            graphemes_of(ws[k]),
        ));
        assert(row_dist_sum(w, zs, k) == row_dist_sum(w, zs, k - 1) + edit_dist(
            graphemes_of(w),
            graphemes_of(zs[k - 1]),
        ));
    }
}

/// Peeling the first entry off the pair sum: the pairs among the rest,
/// plus the first entry's row against the rest. Uses the symmetry of
/// the edit distance.
proof fn lemma_pair_dist_sum_cons(x: Seq<char>, rest: Seq<Seq<char>>)
    ensures
        pair_dist_sum(seq![x] + rest, rest.len() as int + 1) == pair_dist_sum(rest, rest.len() as int)
            + row_dist_sum(x, rest, rest.len() as int),
    decreases rest.len(),
{
    let ws = seq![x] + rest;
    let n = rest.len() as int;
    if n == 0 {
        assert(pair_dist_sum(ws, 1) == pair_dist_sum(ws, 0) + row_dist_sum(ws[0], ws, 0));
        assert(row_dist_sum(ws[0], ws, 0) == 0);
        assert(pair_dist_sum(ws, 0) == 0);
        assert(pair_dist_sum(rest, 0) == 0);
        assert(row_dist_sum(x, rest, 0) == 0);
    } else {
        let lr = rest.last();
        let rdl = rest.drop_last();
        assert(seq![x] + rdl =~= ws.take(n));
        lemma_pair_dist_sum_cons(x, rdl);
        // peel the last row off the full list
        assert(ws[n] == lr);
        assert(pair_dist_sum(ws, n + 1) == pair_dist_sum(ws, n) + row_dist_sum(ws[n], ws, n));
        lemma_pair_dist_sum_congruent(ws, seq![x] + rdl, n);
        lemma_row_dist_sum_congruent(lr, ws, seq![x] + rdl, n);
        lemma_row_dist_sum_cons(lr, x, rdl, n - 1);
        lemma_edit_distance_symmetric(graphemes_of(lr), graphemes_of(x));
        // peel the last row off the rest alone
        assert(rest[n - 1] == lr);
        assert(pair_dist_sum(rest, n) == pair_dist_sum(rest, n - 1) + row_dist_sum(
            rest[n - 1],
            rest,
            n - 1,
        ));
        lemma_pair_dist_sum_congruent(rest, rdl, n - 1);
        lemma_row_dist_sum_congruent(lr, rest, rdl, n - 1);
        // the first entry's row picks up the last element
        assert(row_dist_sum(x, rest, n) == row_dist_sum(x, rest, n - 1) + edit_dist(
            graphemes_of(x),
            graphemes_of(rest[n - 1]),
        ));
        lemma_row_dist_sum_congruent(x, rest, rdl, n - 1);
    }
}

/// A row of distances is unchanged when the list it runs over is
/// reversed.
proof fn lemma_row_dist_sum_reverse(w: Seq<char>, ws: Seq<Seq<char>>)
    ensures
        row_dist_sum(w, ws.reverse(), ws.len() as int) == row_dist_sum(w, ws, ws.len() as int),
    decreases ws.len(),
{
    let n = ws.len() as int;
    if n > 0 {
        let lr = ws.last();
        let dl = ws.drop_last();
        assert(ws.reverse() =~= seq![lr] + dl.reverse());
        lemma_row_dist_sum_cons(w, lr, dl.reverse(), n - 1);
        lemma_row_dist_sum_reverse(w, dl);
        assert(ws[n - 1] == lr);
        lemma_row_dist_sum_congruent(w, ws, dl, n - 1);
    }
}

/// Reversing the list leaves the pairwise distance sum unchanged: the
/// unordered pairs of positions are the same pairs of words, and the
/// edit distance is symmetric, so the exact mean edit distance does not
/// depend on the direction the list is read in.
pub proof fn lemma_pair_dist_sum_reverse(ws: Seq<Seq<char>>)
    ensures
        pair_dist_sum(ws.reverse(), ws.len() as int) == pair_dist_sum(ws, ws.len() as int),
    decreases ws.len(),
{
    let n = ws.len() as int;
    if n > 0 {
        let x = ws.first();
        let rest = ws.drop_first();
        assert(ws.reverse() =~= rest.reverse().push(x));
        let rev = rest.reverse().push(x);
        assert(rev[n - 1] == x);
        assert(pair_dist_sum(rev, n) == pair_dist_sum(rev, n - 1) + row_dist_sum(x, rev, n - 1));
        lemma_pair_dist_sum_congruent(rev, rest.reverse(), n - 1);
        lemma_row_dist_sum_congruent(x, rev, rest.reverse(), n - 1);
        lemma_pair_dist_sum_reverse(rest);
        lemma_row_dist_sum_reverse(x, rest);
        assert(seq![x] + rest =~= ws);
        lemma_pair_dist_sum_cons(x, rest);
    }
}

proof fn lemma_row_dist_sum_mono(w: Seq<char>, ws: Seq<Seq<char>>, j: int, k: int)
    requires
        j <= k,
    ensures
        row_dist_sum(w, ws, j) <= row_dist_sum(w, ws, k),
    decreases k - j,
{
    if j < k {
        lemma_row_dist_sum_mono(w, ws, j, k - 1);
    }
}

proof fn lemma_pair_dist_sum_mono(ws: Seq<Seq<char>>, i: int, k: int)
    requires
        i <= k,
    ensures
        pair_dist_sum(ws, i) <= pair_dist_sum(ws, k),
    decreases k - i,
{
    if i < k {
        lemma_pair_dist_sum_mono(ws, i, k - 1);
    }
}

/// The exact mean edit distance over every unordered pair of positions:
/// the sum of all pairwise distances over the number of pairs, as an
/// unreduced fraction. A list with fewer than two entries yields the
/// fraction 0 / 0, the explicit "no pairs to compare" marker. An error
/// is reported only if the exact sum outgrows its 128-bit
/// representation.
pub fn find_mean_edit_distance(list: &Vec<String>) -> (r: Result<Ratio, AuditError>)
    ensures
        r matches Ok(rat) ==> rat.num == pair_dist_sum(list.deep_view(), list@.len() as int)
            && rat.den == pair_count(list@.len()),
        r matches Err(e) ==> e == AuditError::ResourceExhausted && pair_dist_sum(
            list.deep_view(),
            list@.len() as int,
        ) > u128::MAX,
{
    let ghost dvs = list.deep_view();
    let n = list.len();
    let mut gv: Vec<Vec<String>> = Vec::new();
    let mut k: usize = 0;
    while k < n
        invariant
            0 <= k <= n,
            n == list@.len(),
            dvs == list.deep_view(),
            gv@.len() == k,
            forall|t: int| 0 <= t < k ==> gv@[t].deep_view() == graphemes_of(#[trigger] dvs[t]),
        decreases n - k,
    {
        proof {
            assert(list.deep_view()[k as int] == list@[k as int]@);
        }
        let g = graphemes(list[k].as_str());
        gv.push(g);
        k = k + 1;
    }
    let mut sum: u128 = 0;
    let mut i: usize = 0;
    while i < n
        invariant
            0 <= i <= n,
            n == list@.len(),
            dvs == list.deep_view(),
            gv@.len() == n,
            forall|t: int| 0 <= t < n ==> gv@[t].deep_view() == graphemes_of(#[trigger] dvs[t]),
            sum == pair_dist_sum(dvs, i as int),
        decreases n - i,
    {
        let mut j: usize = 0;
        while j < i
            invariant
                0 <= j <= i < n,
                n == list@.len(),
                dvs == list.deep_view(),
                gv@.len() == n,
                forall|t: int|
                    0 <= t < n ==> gv@[t].deep_view() == graphemes_of(#[trigger] dvs[t]),
                sum == pair_dist_sum(dvs, i as int) + row_dist_sum(dvs[i as int], dvs, j as int),
            decreases i - j,
        {
            let d = gv_edit_distance(&gv[i], &gv[j]);
            proof {
                assert(gv@[i as int].deep_view() == graphemes_of(dvs[i as int]));
                assert(gv@[j as int].deep_view() == graphemes_of(dvs[j as int]));
            }
            if sum > u128::MAX - (d as u128) {
                proof {
                    lemma_row_dist_sum_mono(dvs[i as int], dvs, j + 1, i as int);
                    lemma_pair_dist_sum_mono(dvs, i + 1, n as int);
                    assert(pair_dist_sum(dvs, i + 1) == pair_dist_sum(dvs, i as int)
                        + row_dist_sum(dvs[i as int], dvs, i as int));
                    assert(pair_dist_sum(dvs, n as int) > u128::MAX);
                }
                return Err(AuditError::ResourceExhausted);
            }
            sum = sum + (d as u128);
            j = j + 1;
        }
        proof {
            assert(pair_dist_sum(dvs, i + 1) == pair_dist_sum(dvs, i as int) + row_dist_sum(
                dvs[i as int],
                dvs,
                i as int,
            ));
        }
        i = i + 1;
    }
    let den: u128 = if n < 2 {
        0
    } else {
        proof {
            assert((n as u128) <= 0xFFFF_FFFF_FFFF_FFFFu128);
            assert((n as u128) * ((n as u128) - 1) <= 0xFFFF_FFFF_FFFF_FFFFu128
                * 0xFFFF_FFFF_FFFF_FFFFu128) by (nonlinear_arith)
                requires
                    2 <= (n as u128) <= 0xFFFF_FFFF_FFFF_FFFFu128,
            ;
        }
        ((n as u128) * ((n as u128) - 1)) / 2
    };
    proof {
        let ln = list@.len() as int;
        assert(pair_count(list@.len()) == (ln * (ln - 1)) / 2);
        if n < 2 {
            assert(ln * (ln - 1) == 0) by (nonlinear_arith)
                requires
                    0 <= ln < 2,
            ;
        } else {
            assert(den == ((n as int) * ((n as int) - 1)) / 2);
        }
        assert(den == pair_count(list@.len()));
    }
    Ok(Ratio { num: sum, den })
}

} // verus!
