//! Word-list cleaning helpers: decoding quoted words, stripping
//! metadata around a delimiter, and splitting a string by a substring.

use crate::text::{str_is_prefix, trim, trim_spec};
use vstd::prelude::*;

verus! {

/// What remains of a quoted word once it is trimmed and stripped of its
/// first character and its last two; a trimmed word shorter than three
/// characters decodes to the empty word.
pub open spec fn decode_word_spec(w: Seq<char>) -> Seq<char> {
    let t = trim_spec(w);
    if t.len() >= 3 {
        t.subrange(1, t.len() - 2)
    } else {
        Seq::empty()
    }
}

/// Trims the word, then removes its first character and its last two:
/// `"word",` becomes `word`.
pub fn decode_word(word: &str) -> (r: String)
    ensures
        r@ == decode_word_spec(word@),
{
    let t = trim(word);
    let n = t.as_str().unicode_len();
    if n >= 3 {
        t.as_str().substring_char(1, n - 2).to_owned()
    } else {
        String::new()
    }
}

/// How one entry of the list is decoded: if the trimmed entry starts
/// with a double quote and ends with a double quote followed by a
/// comma, those three characters go; otherwise the trimmed entry stays
/// as it is.
pub open spec fn decode_entry_spec(w: Seq<char>) -> Seq<char> {
    let t = trim_spec(w);
    if t.len() >= 2 && t[0] == '"' && t[t.len() - 2] == '"' && t[t.len() - 1] == ',' {
        if t.len() >= 3 {
            t.subrange(1, t.len() - 2)
        } else {
            Seq::empty()
        }
    } else {
        t
    }
}

/// Decodes every entry of the list: an entry that, once trimmed, starts
/// with a double quote and ends with a double quote and a comma loses
/// those three characters; every other entry is only trimmed.
pub fn decode_list(list: &Vec<String>) -> (r: Vec<String>)
    ensures
        r@.len() == list@.len(),
        forall|k: int| 0 <= k < list@.len() ==> (#[trigger] r@[k])@ == decode_entry_spec(list@[k]@),
{
    let n = list.len();
    let mut decoded: Vec<String> = Vec::new();
    let mut i: usize = 0;
    while i < n
        invariant
            0 <= i <= n,
            n == list@.len(),
            decoded@.len() == i,
            forall|k: int| 0 <= k < i ==> (#[trigger] decoded@[k])@ == decode_entry_spec(list@[k]@),
        decreases n - i,
    {
        let t = trim(list[i].as_str());
        let m = t.as_str().unicode_len();
        let is_coded = if m >= 2 {
            let c0 = t.as_str().get_char(0);
            let cq = t.as_str().get_char(m - 2);
            let cc = t.as_str().get_char(m - 1);
            c0 == '"' && cq == '"' && cc == ','
        } else {
            false
        };
        if is_coded {
            if m >= 3 {
                decoded.push(t.as_str().substring_char(1, m - 2).to_owned());
            } else {
                decoded.push(String::new());
            }
        } else {
            decoded.push(t);
        }
        i = i + 1;
    }
    decoded
}

/// The delimiter a user names on the command line: `s` stands for a
/// space and `t` for a tab; any other character stands for itself.
pub open spec fn parse_delimiter_spec(d: char) -> char {
    if d == 's' {
        ' '
    } else if d == 't' {
        '\t'
    } else {
        d
    }
}

/// Turns the letters `s` and `t` into the whitespace delimiters they
/// stand for, so users need not type a literal space or tab.
pub fn parse_delimiter(delimiter: char) -> (r: Option<char>)
    ensures
        r == Some(parse_delimiter_spec(delimiter)),
{
    if delimiter == 's' {
        Some(' ')
    } else if delimiter == 't' {
        Some('\t')
    } else {
        Some(delimiter)
    }
}

/// The pieces of `s` split at each leftmost, non-overlapping occurrence
/// of the non-empty separator `sep`; there is always at least one
/// piece, and the separator itself appears in none of them.
pub open spec fn split_spec(s: Seq<char>, sep: Seq<char>) -> Seq<Seq<char>>
    decreases s.len(),
{
    if sep.len() == 0 {
        seq![s]
    } else if sep.is_prefix_of(s) {
        seq![Seq::<char>::empty()] + split_spec(s.skip(sep.len() as int), sep)
    } else if s.len() == 0 {
        seq![s]
    } else {
        let rest = split_spec(s.drop_first(), sep);
        seq![seq![s[0]] + rest[0]] + rest.skip(1)
    }
}

/// A split always yields at least one piece.
pub proof fn lemma_split_len(s: Seq<char>, sep: Seq<char>)
    ensures
        split_spec(s, sep).len() >= 1,
    decreases s.len(),
{
    if sep.len() == 0 {
    } else if sep.is_prefix_of(s) {
        assert(s.len() >= sep.len());
        if sep.len() == 0 {
        } else {
            lemma_split_len(s.skip(sep.len() as int), sep);
        }
    } else if s.len() == 0 {
    } else {
        lemma_split_len(s.drop_first(), sep);
    }
}

/// When the separator matches nowhere in `s`, the split is `s` whole.
proof fn lemma_split_no_match(s: Seq<char>, sep: Seq<char>)
    requires
        sep.len() > 0,
        forall|q: int| 0 <= q <= s.len() ==> !sep.is_prefix_of(#[trigger] s.skip(q)),
    ensures
        split_spec(s, sep) =~= seq![s],
    decreases s.len(),
{
    assert(s.skip(0) =~= s);
    assert(!sep.is_prefix_of(s));
    if s.len() == 0 {
    } else {
        assert(forall|q: int|
            0 <= q <= s.drop_first().len() ==> #[trigger] s.drop_first().skip(q) =~= s.skip(
                q + 1,
            ));
        lemma_split_no_match(s.drop_first(), sep);
        assert(split_spec(s.drop_first(), sep) == seq![s.drop_first()]);
        assert(seq![s[0]] + s.drop_first() =~= s);
        assert(split_spec(s, sep) =~= seq![s]);
    }
}

/// When the separator first matches at position `p`, the split is the
/// piece before `p` followed by the split of what comes after the
/// separator.
proof fn lemma_split_match_at(s: Seq<char>, sep: Seq<char>, p: int)
    requires
        sep.len() > 0,
        0 <= p,
        p + sep.len() <= s.len(),
        sep.is_prefix_of(s.skip(p)),
        forall|q: int| 0 <= q < p ==> !sep.is_prefix_of(#[trigger] s.skip(q)),
    ensures
        split_spec(s, sep) =~= seq![s.take(p)] + split_spec(s.skip(p + sep.len()), sep),
    decreases p,
{
    if p == 0 {
        assert(s.skip(0) =~= s);
        assert(sep.is_prefix_of(s));
        assert(s.take(0) =~= Seq::<char>::empty());
    } else {
        assert(s.skip(0) =~= s);
        assert(!sep.is_prefix_of(s));
        assert(s.len() > 0);
        let d = s.drop_first();
        assert(forall|q: int| 0 <= q <= d.len() ==> #[trigger] d.skip(q) =~= s.skip(q + 1));
        lemma_split_match_at(d, sep, p - 1);
        let rest = split_spec(d, sep);
        assert(rest =~= seq![d.take(p - 1)] + split_spec(d.skip(p - 1 + sep.len()), sep));
        lemma_split_len(d.skip(p - 1 + sep.len()), sep);
        assert(rest[0] == d.take(p - 1));
        assert(seq![s[0]] + d.take(p - 1) =~= s.take(p));
        assert(rest.skip(1) =~= split_spec(d.skip(p - 1 + sep.len()), sep));
        assert(d.skip(p - 1 + sep.len()) =~= s.skip(p + sep.len()));
    }
}

/// Whether the separator matches `s` at character position `p`.
fn match_at(s: &str, sep: &str, p: usize) -> (r: bool)
    requires
        p <= s@.len(),
    ensures
        r == sep@.is_prefix_of(s@.skip(p as int)),
{
    let n = s.unicode_len();
    let tail = s.substring_char(p, n);
    str_is_prefix(sep, tail)
}

/// Position of the leftmost match of the non-empty separator in `s`,
/// if any.
fn find_match(s: &str, sep: &str) -> (r: Option<usize>)
    requires
        sep@.len() > 0,
    ensures
        r matches Some(p) ==> p + sep@.len() <= s@.len() && sep@.is_prefix_of(s@.skip(p as int))
            && forall|q: int| 0 <= q < p ==> !sep@.is_prefix_of(#[trigger] s@.skip(q)),
        r is None ==> forall|q: int| 0 <= q <= s@.len() ==> !sep@.is_prefix_of(
            #[trigger] s@.skip(q),
        ),
{
    let n = s.unicode_len();
    let sepn = sep.unicode_len();
    if sepn > n {
        proof {
            assert forall|q: int| 0 <= q <= s@.len() implies !sep@.is_prefix_of(
                #[trigger] s@.skip(q),
            ) by {
                assert(s@.skip(q).len() == s@.len() - q);
                assert(s@.skip(q).len() < sep@.len());
            }
        }
        return None;
    }
    let mut p: usize = 0;
    while p <= n - sepn
        invariant
            0 <= p <= n - sepn + 1,
            n == s@.len(),
            sepn == sep@.len(),
            1 <= sepn <= n,
            forall|q: int| 0 <= q < p ==> !sep@.is_prefix_of(#[trigger] s@.skip(q)),
        decreases n - p,
    {
        if match_at(s, sep, p) {
            return Some(p);
        }
        p = p + 1;
    }
    proof {
        assert forall|q: int| 0 <= q <= s@.len() implies !sep@.is_prefix_of(
            #[trigger] s@.skip(q),
        ) by {
            if q >= p {
                assert(s@.skip(q).len() == s@.len() - q);
                assert(s@.skip(q).len() < sep@.len());
            }
        }
    }
    None
}

/// Splits a string at every leftmost, non-overlapping occurrence of the
/// non-empty separator, keeping empty pieces: `a:b:c` split at `:`
/// yields `a`, `b`, `c`.
pub fn split_and_vectorize(string_to_split: &str, splitter: &str) -> (r: Vec<String>)
    requires
        splitter@.len() > 0,
    ensures
        r.deep_view() == split_spec(string_to_split@, splitter@),
{
    let ghost s0 = string_to_split@;
    let ghost sepv = splitter@;
    let sepn = splitter.unicode_len();
    let mut rem: String = string_to_split.to_owned();
    let mut pieces: Vec<String> = Vec::new();
    loop
        invariant
            sepn == sepv.len(),
            sepn >= 1,
            sepv == splitter@,
            s0 == string_to_split@,
            pieces.deep_view() + split_spec(rem@, sepv) =~= split_spec(s0, sepv),
        decreases rem@.len(),
    {
        let remn = rem.as_str().unicode_len();
        let found = find_match(rem.as_str(), splitter);
        match found {
            None => {
                proof {
                    lemma_split_no_match(rem@, sepv);
                }
                let ghost prev = pieces.deep_view();
                let ghost remv = rem@;
                pieces.push(rem);
                proof {
                    assert(pieces.deep_view() =~= prev.push(remv));
                    assert(prev + split_spec(remv, sepv) =~= split_spec(s0, sepv));
                    assert(split_spec(remv, sepv) =~= seq![remv]);
                    assert(pieces.deep_view() =~= prev + seq![remv]);
                    assert(pieces.deep_view() =~= split_spec(s0, sepv));
                }
                return pieces;
            },
            Some(p) => {
                proof {
                    lemma_split_match_at(rem@, sepv, p as int);
                }
                let piece = rem.as_str().substring_char(0, p).to_owned();
                let newrem = rem.as_str().substring_char(p + sepn, remn).to_owned();
                let ghost prev = pieces.deep_view();
                let ghost oldrem = rem@;
                pieces.push(piece);
                rem = newrem;
                proof {
                    assert(piece@ =~= oldrem.take(p as int));
                    assert(rem@ =~= oldrem.skip(p + sepn));
                    assert(pieces.deep_view() =~= prev.push(oldrem.take(p as int)));
                    assert(pieces.deep_view() + split_spec(rem@, sepv) =~= prev + (seq![
                        oldrem.take(p as int),
                    ] + split_spec(oldrem.skip(p + sepn), sepv)));
                    assert(pieces.deep_view() + split_spec(rem@, sepv) =~= split_spec(s0, sepv));
                }
            },
        }
    }
}

/// Whether the word holds the character anywhere.
pub(crate) fn contains_char(w: &str, d: char) -> (r: bool)
    ensures
        r == w@.contains(d),
{
    let n = w.unicode_len();
    let mut i: usize = 0;
    while i < n
        invariant
            0 <= i <= n,
            n == w@.len(),
            forall|q: int| 0 <= q < i ==> w@[q] != d,
        decreases n - i,
    {
        if w.get_char(i) == d {
            proof {
                assert(w@[i as int] == d);
            }
            return true;
        }
        i = i + 1;
    }
    proof {
        assert(forall|q: int| 0 <= q < w@.len() ==> w@[q] != d);
    }
    false
}

/// A word that holds the delimiter splits into at least two pieces.
proof fn lemma_contains_split(w: Seq<char>, d: char)
    requires
        w.contains(d),
    ensures
        split_spec(w, seq![d]).len() >= 2,
    decreases w.len(),
{
    let sep = seq![d];
    assert(sep.len() == 1);
    if sep.is_prefix_of(w) {
        lemma_split_len(w.skip(1), sep);
    } else {
        assert(w.len() > 0);
        assert(w[0] != d) by {
            if w[0] == d {
                assert(sep[0] == w[0]);
                assert(sep =~= w.take(1));
                assert(w.take(1).is_prefix_of(w));
            }
        }
        let q = choose|q: int| 0 <= q < w.len() && w[q] == d;
        assert(q >= 1);
        assert(w.drop_first()[q - 1] == d);
        assert(w.drop_first().contains(d));
        lemma_contains_split(w.drop_first(), d);
    }
}

/// A word without the delimiter splits into itself alone.
proof fn lemma_no_contains_split(w: Seq<char>, d: char)
    requires
        !w.contains(d),
    ensures
        split_spec(w, seq![d]) =~= seq![w],
{
    let sep = seq![d];
    assert forall|q: int| 0 <= q <= w.len() implies !sep.is_prefix_of(#[trigger] w.skip(q)) by {
        if sep.is_prefix_of(w.skip(q)) {
            assert(w.skip(q).len() >= 1);
            assert(sep[0] == d);
            assert(sep == w.skip(q).subrange(0, 1));
            assert(w.skip(q).subrange(0, 1)[0] == w.skip(q)[0]);
            assert(w[q] == d);
        }
    }
    lemma_split_no_match(w, sep);
}

/// One entry with its metadata removed: an entry holding the delimiter
/// keeps only what follows the first occurrence (`keep_tail`) or what
/// precedes it; any other entry stays whole.
pub open spec fn metadata_free_entry(w: Seq<char>, d: char, keep_tail: bool) -> Seq<char> {
    if w.contains(d) {
        if keep_tail {
            split_spec(w, seq![d])[1]
        } else {
            split_spec(w, seq![d])[0]
        }
    } else {
        w
    }
}

/// Relies on char::to_string: the one-character string of `c`.
#[verifier::external_body]
fn char_to_string(c: char) -> (r: String)
    ensures
        r@ =~= seq![c],
{
    c.to_string()
}

/// Strips per-word metadata around a delimiter. With an ending
/// delimiter given, each word keeps what follows the delimiter's first
/// occurrence; with a starting delimiter, what precedes it; with
/// neither, the list is returned unchanged. The delimiter letters `s`
/// and `t` stand for space and tab. Giving both delimiters at once is
/// not supported.
pub fn make_list_free_of_metadata(
    list: &Vec<String>,
    ignore_ending_metadata_delimiter: Option<char>,
    ignore_starting_metadata_delimiter: Option<char>,
) -> (r: Vec<String>)
    requires
        !(ignore_ending_metadata_delimiter is Some && ignore_starting_metadata_delimiter is Some),
    ensures
        r@.len() == list@.len(),
        ignore_ending_metadata_delimiter matches Some(d) ==> forall|k: int|
            0 <= k < list@.len() ==> (#[trigger] r@[k])@ == metadata_free_entry(
                list@[k]@,
                parse_delimiter_spec(d),
                true,
            ),
        ignore_starting_metadata_delimiter matches Some(d) ==> forall|k: int|
            0 <= k < list@.len() ==> (#[trigger] r@[k])@ == metadata_free_entry(
                list@[k]@,
                parse_delimiter_spec(d),
                false,
            ),
        (ignore_ending_metadata_delimiter is None && ignore_starting_metadata_delimiter is None)
            ==> r@ == list@,
{
    let (delim, keep_tail) = match (
        ignore_ending_metadata_delimiter,
        ignore_starting_metadata_delimiter,
    ) {
        (Some(d), None) => (d, true),
        (None, Some(d)) => (d, false),
        (None, None) => {
            let n = list.len();
            let mut out: Vec<String> = Vec::new();
            let mut i: usize = 0;
            while i < n
                invariant
                    0 <= i <= n,
                    n == list@.len(),
                    out@.len() == i,
                    forall|k: int| 0 <= k < i ==> out@[k] == list@[k],
                decreases n - i,
            {
                out.push(list[i].clone());
                i = i + 1;
            }
            proof {
                assert(out@ =~= list@);
            }
            return out;
        },
        (Some(_), Some(_)) => {
            proof {
                assert(false);
            }
            unreached()
        },
    };
    let delimiter = match parse_delimiter(delim) {
        Some(d) => d,
        None => {
            proof {
                assert(false);
            }
            unreached()
        },
    };
    let ds = char_to_string(delimiter);
    let n = list.len();
    let mut out: Vec<String> = Vec::new();
    let mut i: usize = 0;
    while i < n
        invariant
            0 <= i <= n,
            n == list@.len(),
            out@.len() == i,
            ds@ =~= seq![delimiter],
            delimiter == parse_delimiter_spec(delim),
            forall|k: int|
                0 <= k < i ==> (#[trigger] out@[k])@ == metadata_free_entry(
                    list@[k]@,
                    delimiter,
                    keep_tail,
                ),
        decreases n - i,
    {
        let w = &list[i];
        if contains_char(w.as_str(), delimiter) {
            proof {
                lemma_contains_split(w@, delimiter);
            }
            let sv = split_and_vectorize(w.as_str(), ds.as_str());
            proof {
                assert(sv.deep_view() == split_spec(w@, seq![delimiter]));
                assert(sv@.len() == sv.deep_view().len());
                assert(sv.deep_view()[0] == sv@[0]@);
                assert(sv.deep_view()[1] == sv@[1]@);
            }
            if keep_tail {
                out.push(sv[1].clone());
            } else {
                out.push(sv[0].clone());
            }
        } else {
            out.push(w.clone());
        }
        i = i + 1;
    }
    out
}

} // verus!
