//! Unique-decodability of the word list as a concatenation code, by the
//! Sardinas–Patterson dangling-suffix procedure: starting from the
//! suffixes left over when one word is a prefix of another, each round
//! matches the previous round's suffixes against the codewords; the
//! code is uniquely decodable exactly when the empty string never
//! appears. The iteration is capped by a caller-configured bound and
//! reports exhaustion rather than looping unboundedly.

use crate::text::{str_is_prefix, string_eq};
use crate::AuditError;
use vstd::prelude::*;

verus! {

broadcast use crate::text::lemma_deep_view_index_strings;

/// The dangling suffixes of one set against another: whenever a word of
/// `a` is a prefix of a word of `b`, what remains of the longer word.
pub open spec fn tails_of(a: Set<Seq<char>>, b: Set<Seq<char>>) -> Set<Seq<char>> {
    Set::new(
        |t: Seq<char>|
            exists|x: Seq<char>, y: Seq<char>|
                #![trigger a.contains(x), b.contains(y)]
                a.contains(x) && b.contains(y) && x.is_prefix_of(y) && t == y.skip(
                    x.len() as int,
                ),
    )
}

/// The n-th Sardinas–Patterson suffix set of the code `c`. The first
/// set holds the non-empty dangling suffixes of value-distinct codeword
/// pairs; each later set matches the previous set against the codewords
/// in both directions.
pub open spec fn sp_set(c: Set<Seq<char>>, n: nat) -> Set<Seq<char>>
    decreases n,
{
    if n <= 1 {
        tails_of(c, c).remove(Seq::empty())
    } else {
        tails_of(c, sp_set(c, (n - 1) as nat)).union(tails_of(sp_set(c, (n - 1) as nat), c))
    }
}

/// The code is uniquely decodable exactly when the empty string never
/// appears in any Sardinas–Patterson set from the second on.
pub open spec fn uniquely_decodable(c: Set<Seq<char>>) -> bool {
    forall|n: nat| n >= 2 ==> !(#[trigger] sp_set(c, n)).contains(Seq::<char>::empty())
}

/// The iteration settles at round `m` when the next suffix set either
/// holds the empty string or repeats the current one.
pub open spec fn sp_settles(c: Set<Seq<char>>, m: nat) -> bool {
    sp_set(c, m + 1).contains(Seq::<char>::empty()) || sp_set(c, m + 1) == sp_set(c, m)
}

/// Once two consecutive suffix sets agree, every later set is the same.
proof fn lemma_sp_fixpoint(c: Set<Seq<char>>, n: nat, m: nat)
    requires
        n >= 1,
        sp_set(c, n + 1) == sp_set(c, n),
        m >= n,
    ensures
        sp_set(c, m) == sp_set(c, n),
    decreases m,
{
    if m > n {
        lemma_sp_fixpoint(c, n, (m - 1) as nat);
        if m >= 2 {
            assert(sp_set(c, m) == tails_of(c, sp_set(c, (m - 1) as nat)).union(
                tails_of(sp_set(c, (m - 1) as nat), c),
            ));
            if n + 1 >= 2 {
                assert(sp_set(c, n + 1) == tails_of(c, sp_set(c, n)).union(
                    tails_of(sp_set(c, n), c),
                ));
            }
        }
    }
}

/// Whether the vector holds a word equal to `x`.
fn vec_contains(v: &Vec<String>, x: &String) -> (r: bool)
    ensures
        r == v.deep_view().contains(x@),
{
    let n = v.len();
    let mut i: usize = 0;
    while i < n
        invariant
            0 <= i <= n,
            n == v@.len(),
            forall|k: int| 0 <= k < i ==> v.deep_view()[k] != x@,
        decreases n - i,
    {
        proof {
            assert(v.deep_view()[i as int] == v@[i as int]@);
        }
        if string_eq(&v[i], x) {
            proof {
                assert(v.deep_view()[i as int] == x@);
            }
            return true;
        }
        i = i + 1;
    }
    proof {
        assert(forall|k: int| 0 <= k < v.deep_view().len() ==> v.deep_view()[k] != x@);
    }
    false
}

/// Whether the vector holds the empty word.
fn vec_contains_empty(v: &Vec<String>) -> (r: bool)
    ensures
        r == v.deep_view().to_set().contains(Seq::<char>::empty()),
{
    let n = v.len();
    let mut i: usize = 0;
    while i < n
        invariant
            0 <= i <= n,
            n == v@.len(),
            forall|k: int| 0 <= k < i ==> v.deep_view()[k] != Seq::<char>::empty(),
        decreases n - i,
    {
        proof {
            assert(v.deep_view()[i as int] == v@[i as int]@);
        }
        if v[i].as_str().unicode_len() == 0 {
            proof {
                assert(v.deep_view()[i as int] =~= Seq::<char>::empty());
                assert(v.deep_view().contains(Seq::<char>::empty()));
            }
            return true;
        }
        i = i + 1;
    }
    proof {
        assert(!v.deep_view().contains(Seq::<char>::empty()));
    }
    false
}

/// Whether two duplicate-free vectors hold the same set of words.
fn same_word_set(a: &Vec<String>, b: &Vec<String>) -> (r: bool)
    ensures
        r == (a.deep_view().to_set() == b.deep_view().to_set()),
{
    let mut i: usize = 0;
    while i < a.len()
        invariant
            0 <= i <= a@.len(),
            forall|k: int|
                0 <= k < i ==> b.deep_view().contains(#[trigger] a.deep_view()[k]),
        decreases a@.len() - i,
    {
        proof {
            assert(a.deep_view()[i as int] == a@[i as int]@);
        }
        if !vec_contains(b, &a[i]) {
            proof {
                assert(a.deep_view().to_set().contains(a.deep_view()[i as int]));
                assert(!b.deep_view().to_set().contains(a.deep_view()[i as int]));
            }
            return false;
        }
        i = i + 1;
    }
    let mut j: usize = 0;
    while j < b.len()
        invariant
            0 <= j <= b@.len(),
            forall|k: int|
                0 <= k < a.deep_view().len() ==> b.deep_view().contains(
                    #[trigger] a.deep_view()[k],
                ),
            forall|k: int|
                0 <= k < j ==> a.deep_view().contains(#[trigger] b.deep_view()[k]),
        decreases b@.len() - j,
    {
        proof {
            assert(b.deep_view()[j as int] == b@[j as int]@);
        }
        if !vec_contains(a, &b[j]) {
            proof {
                assert(b.deep_view().to_set().contains(b.deep_view()[j as int]));
                assert(!a.deep_view().to_set().contains(b.deep_view()[j as int]));
            }
            return false;
        }
        j = j + 1;
    }
    proof {
        assert(a.deep_view().to_set() =~= b.deep_view().to_set()) by {
            assert forall|x: Seq<char>| a.deep_view().to_set().contains(x) implies b.deep_view()
                .to_set().contains(x) by {
                let k = choose|k: int|
                    0 <= k < a.deep_view().len() && a.deep_view()[k] == x;
                assert(b.deep_view().contains(a.deep_view()[k]));
            }
            assert forall|x: Seq<char>| b.deep_view().to_set().contains(x) implies a.deep_view()
                .to_set().contains(x) by {
                let k = choose|k: int|
                    0 <= k < b.deep_view().len() && b.deep_view()[k] == x;
                assert(a.deep_view().contains(b.deep_view()[k]));
            }
        }
    }
    true
}

/// What remains of `y` once its prefix `x` is removed.
fn word_tail(x: &String, y: &String) -> (r: String)
    requires
        x@.is_prefix_of(y@),
    ensures
        r@ == y@.skip(x@.len() as int),
{
    let xl = x.as_str().unicode_len();
    let yl = y.as_str().unicode_len();
    let t = y.as_str().substring_char(xl, yl);
    proof {
        assert(y@.subrange(xl as int, yl as int) =~= y@.skip(xl as int));
    }
    t.to_owned()
}

/// Adds to `out` every dangling suffix of a word of `a` against a word
/// of `b`, keeping `out` free of duplicates.
fn tails_into(a: &Vec<String>, b: &Vec<String>, out: &mut Vec<String>)
    requires
        old(out).deep_view().no_duplicates(),
    ensures
        final(out).deep_view().no_duplicates(),
        final(out).deep_view().to_set() == old(out).deep_view().to_set().union(
            tails_of(a.deep_view().to_set(), b.deep_view().to_set()),
        ),
{
    let ghost aset = a.deep_view().to_set();
    let ghost bset = b.deep_view().to_set();
    let ghost oldset = old(out).deep_view().to_set();
    let na = a.len();
    let nb = b.len();
    let mut i: usize = 0;
    while i < na
        invariant
            0 <= i <= na,
            na == a@.len(),
            nb == b@.len(),
            aset == a.deep_view().to_set(),
            bset == b.deep_view().to_set(),
            out.deep_view().no_duplicates(),
            forall|x: Seq<char>|
                oldset.contains(x) ==> #[trigger] out.deep_view().to_set().contains(x),
            forall|x: Seq<char>|
                #[trigger] out.deep_view().to_set().contains(x) ==> oldset.contains(x)
                    || tails_of(aset, bset).contains(x),
            forall|p: int, q: int|
                #![trigger a.deep_view()[p], b.deep_view()[q]]
                0 <= p < i && 0 <= q < nb && a.deep_view()[p].is_prefix_of(b.deep_view()[q])
                    ==> out.deep_view().to_set().contains(
                    b.deep_view()[q].skip(a.deep_view()[p].len() as int),
                ),
        decreases na - i,
    {
        let mut j: usize = 0;
        while j < nb
            invariant
                0 <= i < na,
                0 <= j <= nb,
                na == a@.len(),
                nb == b@.len(),
                aset == a.deep_view().to_set(),
                bset == b.deep_view().to_set(),
                out.deep_view().no_duplicates(),
                forall|x: Seq<char>|
                    oldset.contains(x) ==> #[trigger] out.deep_view().to_set().contains(x),
                forall|x: Seq<char>|
                    #[trigger] out.deep_view().to_set().contains(x) ==> oldset.contains(x)
                        || tails_of(aset, bset).contains(x),
                forall|p: int, q: int|
                    #![trigger a.deep_view()[p], b.deep_view()[q]]
                    0 <= p < i && 0 <= q < nb && a.deep_view()[p].is_prefix_of(b.deep_view()[q])
                        ==> out.deep_view().to_set().contains(
                        b.deep_view()[q].skip(a.deep_view()[p].len() as int),
                    ),
                forall|q: int|
                    0 <= q < j && a.deep_view()[i as int].is_prefix_of(
                        #[trigger] b.deep_view()[q],
                    ) ==> out.deep_view().to_set().contains(
                        b.deep_view()[q].skip(a.deep_view()[i as int].len() as int),
                    ),
            decreases nb - j,
        {
            proof {
                assert(a.deep_view()[i as int] == a@[i as int]@);
                assert(b.deep_view()[j as int] == b@[j as int]@);
            }
            if str_is_prefix(a[i].as_str(), b[j].as_str()) {
                let t = word_tail(&a[i], &b[j]);
                let ghost prevdv = out.deep_view();
                if !vec_contains(&out, &t) {
                    out.push(t);
                    proof {
                        assert(out.deep_view() =~= prevdv.push(
                            b.deep_view()[j as int].skip(a.deep_view()[i as int].len() as int),
                        ));
                        assert(out.deep_view().to_set() =~= prevdv.to_set().insert(
                            b.deep_view()[j as int].skip(a.deep_view()[i as int].len() as int),
                        )) by {
                            Seq::<Seq<char>>::lemma_push_to_set_commute(
                                prevdv,
                                b.deep_view()[j as int].skip(
                                    a.deep_view()[i as int].len() as int,
                                ),
                            );
                        }
                    }
                }
                proof {
                    let xw = a.deep_view()[i as int];
                    let yw = b.deep_view()[j as int];
                    assert(aset.contains(xw));
                    assert(bset.contains(yw));
                    assert(tails_of(aset, bset).contains(yw.skip(xw.len() as int)));
                    assert(out.deep_view().to_set().contains(yw.skip(xw.len() as int)));
                }
            }
            j = j + 1;
        }
        i = i + 1;
    }
    proof {
        assert(out.deep_view().to_set() =~= oldset.union(tails_of(aset, bset))) by {
            assert forall|x: Seq<char>| oldset.union(tails_of(aset, bset)).contains(x) implies
                out.deep_view().to_set().contains(x) by {
                if oldset.contains(x) {
                } else {
                    assert(tails_of(aset, bset).contains(x));
                    let (xw, yw): (Seq<char>, Seq<char>) = choose|xw: Seq<char>, yw: Seq<char>|
                        aset.contains(xw) && #[trigger] bset.contains(yw)
                            && #[trigger] xw.is_prefix_of(yw) && x == yw.skip(xw.len() as int);
                    let p = choose|p: int|
                        0 <= p < a.deep_view().len() && a.deep_view()[p] == xw;
                    let q = choose|q: int|
                        0 <= q < b.deep_view().len() && b.deep_view()[q] == yw;
                    assert(a.deep_view()[p].is_prefix_of(b.deep_view()[q]));
                    assert(out.deep_view().to_set().contains(
                        b.deep_view()[q].skip(a.deep_view()[p].len() as int),
                    ));
                }
            }
        }
    }
}

/// The non-empty dangling suffixes of value-distinct codeword pairs:
/// the first Sardinas–Patterson set.
fn initial_tails(c: &Vec<String>) -> (r: Vec<String>)
    ensures
        r.deep_view().no_duplicates(),
        r.deep_view().to_set() == sp_set(c.deep_view().to_set(), 1),
{
    let ghost cset = c.deep_view().to_set();
    let ghost target = tails_of(cset, cset).remove(Seq::<char>::empty());
    let n = c.len();
    let mut out: Vec<String> = Vec::new();
    let mut i: usize = 0;
    while i < n
        invariant
            0 <= i <= n,
            n == c@.len(),
            cset == c.deep_view().to_set(),
            target == tails_of(cset, cset).remove(Seq::<char>::empty()),
            out.deep_view().no_duplicates(),
            forall|x: Seq<char>|
                #[trigger] out.deep_view().to_set().contains(x) ==> target.contains(x),
            forall|p: int, q: int|
                #![trigger c.deep_view()[p], c.deep_view()[q]]
                0 <= p < i && 0 <= q < n && c.deep_view()[p] != c.deep_view()[q]
                    && c.deep_view()[p].is_prefix_of(c.deep_view()[q]) ==> out.deep_view()
                    .to_set().contains(c.deep_view()[q].skip(c.deep_view()[p].len() as int)),
        decreases n - i,
    {
        let mut j: usize = 0;
        while j < n
            invariant
                0 <= i < n,
                0 <= j <= n,
                n == c@.len(),
                cset == c.deep_view().to_set(),
                target == tails_of(cset, cset).remove(Seq::<char>::empty()),
                out.deep_view().no_duplicates(),
                forall|x: Seq<char>|
                    #[trigger] out.deep_view().to_set().contains(x) ==> target.contains(x),
                forall|p: int, q: int|
                    #![trigger c.deep_view()[p], c.deep_view()[q]]
                    0 <= p < i && 0 <= q < n && c.deep_view()[p] != c.deep_view()[q]
                        && c.deep_view()[p].is_prefix_of(c.deep_view()[q]) ==> out.deep_view()
                        .to_set().contains(c.deep_view()[q].skip(c.deep_view()[p].len() as int)),
                forall|q: int|
                    0 <= q < j && c.deep_view()[i as int] != #[trigger] c.deep_view()[q]
                        && c.deep_view()[i as int].is_prefix_of(c.deep_view()[q])
                        ==> out.deep_view().to_set().contains(
                        c.deep_view()[q].skip(c.deep_view()[i as int].len() as int),
                    ),
            decreases n - j,
        {
            proof {
                assert(c.deep_view()[i as int] == c@[i as int]@);
                assert(c.deep_view()[j as int] == c@[j as int]@);
            }
            if !string_eq(&c[i], &c[j]) && str_is_prefix(c[i].as_str(), c[j].as_str()) {
                let t = word_tail(&c[i], &c[j]);
                let ghost xw = c.deep_view()[i as int];
                let ghost yw = c.deep_view()[j as int];
                proof {
                    assert(xw.len() <= yw.len());
                    assert(xw.len() < yw.len()) by {
                        if xw.len() == yw.len() {
                            assert(xw =~= yw);
                        }
                    }
                    assert(t@.len() > 0);
                    assert(cset.contains(xw));
                    assert(cset.contains(yw));
                    assert(tails_of(cset, cset).contains(yw.skip(xw.len() as int)));
                    assert(target.contains(yw.skip(xw.len() as int)));
                }
                let ghost prevdv = out.deep_view();
                if !vec_contains(&out, &t) {
                    out.push(t);
                    proof {
                        assert(out.deep_view() =~= prevdv.push(yw.skip(xw.len() as int)));
                        assert(out.deep_view().to_set() =~= prevdv.to_set().insert(
                            yw.skip(xw.len() as int),
                        )) by {
                            Seq::<Seq<char>>::lemma_push_to_set_commute(
                                prevdv,
                                yw.skip(xw.len() as int),
                            );
                        }
                    }
                }
                proof {
                    assert(out.deep_view().to_set().contains(yw.skip(xw.len() as int)));
                }
            }
            j = j + 1;
        }
        i = i + 1;
    }
    proof {
        assert(out.deep_view().to_set() =~= target) by {
            assert forall|x: Seq<char>| target.contains(x) implies out.deep_view()
                .to_set().contains(x) by {
                assert(tails_of(cset, cset).contains(x));
                assert(x != Seq::<char>::empty());
                let (xw, yw): (Seq<char>, Seq<char>) = choose|xw: Seq<char>, yw: Seq<char>|
                    cset.contains(xw) && #[trigger] cset.contains(yw) && #[trigger] xw
                        .is_prefix_of(yw) && x == yw.skip(xw.len() as int);
                assert(xw != yw) by {
                    if xw == yw {
                        assert(yw.skip(xw.len() as int) =~= Seq::<char>::empty());
                    }
                }
                let p = choose|p: int| 0 <= p < c.deep_view().len() && c.deep_view()[p] == xw;
                let q = choose|q: int| 0 <= q < c.deep_view().len() && c.deep_view()[q] == yw;
                assert(c.deep_view()[p] != c.deep_view()[q]);
                assert(c.deep_view()[p].is_prefix_of(c.deep_view()[q]));
                assert(out.deep_view().to_set().contains(
                    c.deep_view()[q].skip(c.deep_view()[p].len() as int),
                ));
            }
        }
        assert(sp_set(cset, 1) == target);
    }
    out
}

/// Decides whether the list, taken as a set of codewords, is uniquely
/// decodable, running the dangling-suffix rounds until the suffix set
/// repeats (decodable), the empty string appears (not decodable), or
/// the caller's iteration bound runs out. An exhausted bound reports an
/// error rather than an answer; no round before the bound had settled.
pub fn is_uniquely_decodable(list: &Vec<String>, max_iterations: usize) -> (r: Result<
    bool,
    AuditError,
>)
    ensures
        r matches Ok(b) ==> b == uniquely_decodable(list.deep_view().to_set()),
        r matches Err(e) ==> e == AuditError::ResourceExhausted && forall|m: nat|
            1 <= m < max_iterations ==> !sp_settles(list.deep_view().to_set(), m),
{
    let ghost cset = list.deep_view().to_set();
    // Deduplicate the codewords by value.
    let n = list.len();
    let mut code: Vec<String> = Vec::new();
    let mut i: usize = 0;
    while i < n
        invariant
            0 <= i <= n,
            n == list@.len(),
            cset == list.deep_view().to_set(),
            code.deep_view().no_duplicates(),
            forall|x: Seq<char>|
                #[trigger] code.deep_view().to_set().contains(x) == list.deep_view().take(
                    i as int,
                ).contains(x),
        decreases n - i,
    {
        proof {
            assert(list.deep_view()[i as int] == list@[i as int]@);
        }
        let w = list[i].clone();
        proof {
            assert(w@ == list.deep_view()[i as int]);
        }
        let ghost prevdv = code.deep_view();
        if !vec_contains(&code, &w) {
            code.push(w);
            proof {
                assert(code.deep_view() =~= prevdv.push(list.deep_view()[i as int]));
                Seq::<Seq<char>>::lemma_push_to_set_commute(
                    prevdv,
                    list.deep_view()[i as int],
                );
            }
        }
        proof {
            let t1 = list.deep_view().take(i + 1);
            assert(t1.drop_last() =~= list.deep_view().take(i as int));
            assert(t1.last() == list.deep_view()[i as int]);
            assert forall|x: Seq<char>| #[trigger] code.deep_view().to_set().contains(x)
                == t1.contains(x) by {
                assert(t1.contains(x) == (t1.drop_last().contains(x) || t1.last() == x)) by {
                    if t1.contains(x) {
                        let k = choose|k: int| 0 <= k < t1.len() && t1[k] == x;
                        if k < t1.len() - 1 {
                            assert(t1.drop_last()[k] == x);
                        }
                    }
                    if t1.drop_last().contains(x) {
                        let k = choose|k: int|
                            0 <= k < t1.drop_last().len() && t1.drop_last()[k] == x;
                        assert(t1[k] == x);
                    }
                    if t1.last() == x {
                        assert(t1[t1.len() - 1] == x);
                    }
                }
            }
        }
        i = i + 1;
    }
    proof {
        assert(list.deep_view().take(n as int) =~= list.deep_view());
        assert forall|x: Seq<char>| #[trigger] code.deep_view().to_set().contains(x)
            == cset.contains(x) by {
            assert(list.deep_view().contains(x) == cset.contains(x));
        }
        assert(code.deep_view().to_set() =~= cset);
    }
    // The first suffix set.
    let mut s = initial_tails(&code);
    let ghost mut level: nat = 1;
    let mut rounds: usize = 1;
    while rounds < max_iterations
        invariant
            1 <= rounds,
            level == rounds,
            cset == list.deep_view().to_set(),
            code.deep_view().no_duplicates(),
            code.deep_view().to_set() == cset,
            s.deep_view().no_duplicates(),
            s.deep_view().to_set() == sp_set(cset, level),
            forall|m: nat| 2 <= m <= level ==> !(#[trigger] sp_set(cset, m)).contains(
                Seq::<char>::empty(),
            ),
            forall|m: nat| 1 <= m < level ==> !sp_settles(cset, m),
        decreases max_iterations - rounds,
    {
        let mut next: Vec<String> = Vec::new();
        tails_into(&code, &s, &mut next);
        tails_into(&s, &code, &mut next);
        proof {
            assert(Set::<Seq<char>>::empty().union(
                tails_of(code.deep_view().to_set(), s.deep_view().to_set()),
            ) =~= tails_of(cset, sp_set(cset, level)));
            assert(next.deep_view().to_set() =~= tails_of(cset, sp_set(cset, level)).union(
                tails_of(sp_set(cset, level), cset),
            ));
            assert(sp_set(cset, level + 1) == tails_of(cset, sp_set(cset, level)).union(
                tails_of(sp_set(cset, level), cset),
            ));
            assert(next.deep_view().to_set() == sp_set(cset, level + 1));
        }
        if vec_contains_empty(&next) {
            proof {
                assert(sp_set(cset, level + 1).contains(Seq::<char>::empty()));
                assert(level + 1 >= 2);
                assert(!uniquely_decodable(cset));
            }
            return Ok(false);
        }
        if same_word_set(&next, &s) {
            proof {
                assert(sp_set(cset, level + 1) == sp_set(cset, level));
                assert forall|m: nat| m >= 2 implies !(#[trigger] sp_set(cset, m)).contains(
                    Seq::<char>::empty(),
                ) by {
                    if m > level {
                        lemma_sp_fixpoint(cset, level, m);
                    }
                }
            }
            return Ok(true);
        }
        s = next;
        proof {
            level = level + 1;
        }
        rounds = rounds + 1;
    }
    Err(AuditError::ResourceExhausted)
}

} // verus!
