//! Character-level primitives shared by the analysis passes: grapheme
//! segmentation, whitespace trimming, ASCII lower-casing, and prefix /
//! suffix tests on words.

use unicode_normalization::UnicodeNormalization;
use unicode_segmentation::UnicodeSegmentation;
use vstd::prelude::*;

verus! {

/// The sequence of extended grapheme clusters of a string, each cluster
/// given as its own sequence of characters. A word's length is measured
/// in grapheme clusters everywhere length matters.
pub uninterp spec fn graphemes_of(s: Seq<char>) -> Seq<Seq<char>>;

/// Number of grapheme clusters in a word.
pub open spec fn grapheme_len(s: Seq<char>) -> nat {
    graphemes_of(s).len()
}

/// Relies on unicode_segmentation::UnicodeSegmentation::graphemes with
/// extended clusters: the clusters are non-empty substrings of the word
/// that concatenate back to the whole word, and they depend on the
/// word's characters alone.
#[verifier::external_body]
pub(crate) fn graphemes(word: &str) -> (r: Vec<String>)
    ensures
        r.deep_view() == graphemes_of(word@),
        r.deep_view().flatten() == word@,
        forall|i: int| 0 <= i < r.deep_view().len() ==> r.deep_view()[i].len() > 0,
{
    word.graphemes(true).map(|g| g.to_string()).collect()
}

/// Counts the user-perceived characters (grapheme clusters) of a word,
/// so that an accented letter or an emoji counts as one character.
pub fn count_characters(word: &str) -> (n: usize)
    ensures
        n == grapheme_len(word@),
        (n == 0) == (word@.len() == 0),
{
    let g = graphemes(word);
    proof {
        let gs = graphemes_of(word@);
        if gs.len() > 0 {
            assert(gs.flatten() == gs.first() + gs.drop_first().flatten());
            assert(gs[0].len() > 0);
            assert(word@.len() > 0);
        } else {
            assert(gs.flatten() =~= Seq::<char>::empty());
        }
    }
    g.len()
}

/// Indexing the deep view of a word vector yields the view of the word.
pub broadcast proof fn lemma_deep_view_index_strings(v: Vec<String>, i: int)
    requires
        0 <= i < v@.len(),
    ensures
        #[trigger] v.deep_view()[i] == v@[i]@,
{
}

/// Indexing the deep view of a character-vector vector yields the view
/// of the inner vector.
pub broadcast proof fn lemma_deep_view_index_chars(v: Vec<Vec<char>>, i: int)
    requires
        0 <= i < v@.len(),
    ensures
        #[trigger] v.deep_view()[i] == v@[i]@,
{
}

/// The Unicode canonical composed form (NFC) of a string of characters.
pub uninterp spec fn nfc_of(s: Seq<char>) -> Seq<char>;

/// Relies on unicode_normalization::UnicodeNormalization::nfc: the
/// canonical composed form depends on the word's characters alone, and
/// an ASCII word is already in canonical composed form, so it comes
/// back unchanged.
#[verifier::external_body]
pub(crate) fn nfc_exec(word: &str) -> (r: String)
    ensures
        r@ == nfc_of(word@),
        vstd::utf8::is_ascii_chars(word@) ==> r@ == word@,
{
    word.nfc().collect()
}

/// Whether a character counts as whitespace.
pub uninterp spec fn is_space_char(c: char) -> bool;

/// Relies on char::is_whitespace: the result depends on the character
/// alone. The documented White_Space set includes the space, tab and
/// line-break characters and excludes the ASCII letters and digits.
#[verifier::external_body]
pub(crate) fn char_is_space(c: char) -> (r: bool)
    ensures
        r == is_space_char(c),
        c == ' ' || c == '\t' || c == '\n' || c == '\r' ==> r,
        ('a' <= c && c <= 'z') || ('A' <= c && c <= 'Z') || ('0' <= c && c <= '9') ==> !r,
{
    c.is_whitespace()
}

/// What remains of a word once leading whitespace is removed.
pub open spec fn trim_front(s: Seq<char>) -> Seq<char>
    decreases s.len(),
{
    if s.len() > 0 && is_space_char(s.first()) {
        trim_front(s.drop_first())
    } else {
        s
    }
}

/// What remains of a word once trailing whitespace is removed.
pub open spec fn trim_back(s: Seq<char>) -> Seq<char>
    decreases s.len(),
{
    if s.len() > 0 && is_space_char(s.last()) {
        trim_back(s.drop_last())
    } else {
        s
    }
}

/// What remains of a word once leading and trailing whitespace is removed.
pub open spec fn trim_spec(s: Seq<char>) -> Seq<char> {
    trim_back(trim_front(s))
}

proof fn lemma_trim_front_skip(s: Seq<char>, a: int)
    requires
        0 <= a < s.len(),
        forall|i: int| 0 <= i < a ==> is_space_char(s[i]),
    ensures
        trim_front(s) == trim_front(s.skip(a)),
    decreases a,
{
    if a == 0 {
        assert(s.skip(0) =~= s);
    } else {
        assert(is_space_char(s[0]));
        assert(s.first() == s[0]);
        assert(trim_front(s) == trim_front(s.drop_first()));
        assert(s.drop_first() =~= s.skip(1));
        assert(s.skip(1).skip(a - 1) =~= s.skip(a));
        lemma_trim_front_skip(s.skip(1), a - 1);
    }
}

proof fn lemma_trim_front_all_space(s: Seq<char>)
    requires
        forall|i: int| 0 <= i < s.len() ==> is_space_char(s[i]),
    ensures
        trim_front(s) =~= Seq::<char>::empty(),
    decreases s.len(),
{
    if s.len() > 0 {
        lemma_trim_front_all_space(s.drop_first());
    }
}

proof fn lemma_trim_back_take(s: Seq<char>, b: int)
    requires
        0 <= b <= s.len(),
        forall|i: int| b <= i < s.len() ==> is_space_char(s[i]),
    ensures
        trim_back(s) == trim_back(s.take(b)),
    decreases s.len(),
{
    if b == s.len() {
        assert(s.take(b) =~= s);
    } else {
        assert(is_space_char(s[s.len() - 1]));
        assert(s.last() == s[s.len() - 1]);
        assert(trim_back(s) == trim_back(s.drop_last()));
        assert(s.drop_last() =~= s.take(s.len() - 1));
        assert(s.take(s.len() - 1).take(b) =~= s.take(b));
        lemma_trim_back_take(s.take(s.len() - 1), b);
    }
}

/// Removes leading and trailing whitespace from a word.
pub fn trim(word: &str) -> (r: String)
    ensures
        r@ == trim_spec(word@),
{
    let n = word.unicode_len();
    let mut a: usize = 0;
    while a < n && char_is_space(word.get_char(a))
        invariant
            0 <= a <= n,
            n == word@.len(),
            forall|i: int| 0 <= i < a ==> is_space_char(word@[i]),
        decreases n - a,
    {
        a = a + 1;
    }
    let ghost tail = word@.skip(a as int);
    proof {
        if a == n {
            lemma_trim_front_all_space(word@);
            assert(tail =~= Seq::<char>::empty());
            assert(trim_front(word@) =~= tail);
        } else {
            lemma_trim_front_skip(word@, a as int);
            assert(tail.first() == word@[a as int]);
            assert(trim_front(tail) == tail);
        }
        assert(trim_front(word@) == tail);
    }
    let mut b: usize = n;
    while b > a && char_is_space(word.get_char(b - 1))
        invariant
            a <= b <= n,
            n == word@.len(),
            forall|i: int| b <= i < n ==> is_space_char(word@[i]),
        decreases b,
    {
        b = b - 1;
    }
    proof {
        assert(forall|i: int| b - a <= i < tail.len() ==> is_space_char(tail[i]));
        lemma_trim_back_take(tail, b - a);
        assert(tail.take(b - a) =~= word@.subrange(a as int, b as int));
        if b > a {
            assert(tail.take(b - a).last() == word@[b - 1]);
            assert(trim_back(tail.take(b - a)) == tail.take(b - a));
        } else {
            assert(tail.take(b - a) =~= Seq::<char>::empty());
        }
        assert(trim_spec(word@) == word@.subrange(a as int, b as int));
    }
    let s = word.substring_char(a, b);
    s.to_owned()
}

/// Equality of two words, stated over their character sequences.
pub(crate) fn string_eq(a: &String, b: &String) -> (r: bool)
    ensures
        r == (a@ == b@),
{
    a.eq(b)
}

/// Whether `p` is a (not necessarily proper) prefix of `w`.
pub(crate) fn str_is_prefix(p: &str, w: &str) -> (r: bool)
    ensures
        r == p@.is_prefix_of(w@),
{
    let np = p.unicode_len();
    let nw = w.unicode_len();
    if np > nw {
        return false;
    }
    let mut i: usize = 0;
    while i < np
        invariant
            0 <= i <= np <= nw,
            np == p@.len(),
            nw == w@.len(),
            forall|j: int| 0 <= j < i ==> p@[j] == w@[j],
        decreases np - i,
    {
        if p.get_char(i) != w.get_char(i) {
            assert(p@[i as int] != w@.subrange(0, np as int)[i as int]);
            return false;
        }
        i = i + 1;
    }
    proof {
        assert(p@ =~= w@.subrange(0, np as int));
    }
    true
}

/// Whether `s` is a (not necessarily proper) suffix of `w`.
pub(crate) fn str_is_suffix(s: &str, w: &str) -> (r: bool)
    ensures
        r == s@.is_suffix_of(w@),
{
    let ns = s.unicode_len();
    let nw = w.unicode_len();
    if ns > nw {
        return false;
    }
    let off = nw - ns;
    let mut i: usize = 0;
    while i < ns
        invariant
            0 <= i <= ns <= nw,
            off == nw - ns,
            ns == s@.len(),
            nw == w@.len(),
            forall|j: int| 0 <= j < i ==> s@[j] == w@[off + j],
        decreases ns - i,
    {
        if s.get_char(i) != w.get_char(off + i) {
            assert(s@[i as int] != w@.subrange(off as int, nw as int)[i as int]);
            return false;
        }
        i = i + 1;
    }
    proof {
        assert(s@ =~= w@.subrange(off as int, nw as int));
    }
    true
}

/// ASCII lower-casing of one character: the letters 'A' through 'Z'
/// map to 'a' through 'z'; every other character is unchanged.
pub open spec fn lower_char(c: char) -> char {
    if 'A' <= c && c <= 'Z' {
        (((c as u8) + 32) as char)
    } else {
        c
    }
}

/// ASCII lower-casing of a whole word, character by character.
pub open spec fn lower_seq(s: Seq<char>) -> Seq<char> {
    s.map_values(|c: char| lower_char(c))
}

/// The case- and whitespace-insensitive form of a word: ASCII
/// lower-cased, then trimmed.
pub open spec fn fuzzy_form(s: Seq<char>) -> Seq<char> {
    trim_spec(lower_seq(s))
}

pub(crate) fn lower_char_exec(c: char) -> (r: char)
    ensures
        r == lower_char(c),
{
    if 'A' <= c && c <= 'Z' {
        ((c as u8) + 32) as char
    } else {
        c
    }
}

/// The case- and whitespace-insensitive form of a word, as characters.
pub(crate) fn fuzzy_chars(word: &str) -> (r: Vec<char>)
    ensures
        r@ == fuzzy_form(word@),
{
    let n = word.unicode_len();
    let mut low: Vec<char> = Vec::new();
    let mut i: usize = 0;
    while i < n
        invariant
            0 <= i <= n,
            n == word@.len(),
            low@ =~= lower_seq(word@).take(i as int),
        decreases n - i,
    {
        let c = lower_char_exec(word.get_char(i));
        low.push(c);
        proof {
            assert(low@ =~= lower_seq(word@).take(i + 1));
        }
        i = i + 1;
    }
    proof {
        assert(low@ =~= lower_seq(word@));
    }
    chars_trim(&low)
}

/// Removes leading and trailing whitespace from a character vector.
pub(crate) fn chars_trim(v: &Vec<char>) -> (r: Vec<char>)
    ensures
        r@ == trim_spec(v@),
{
    let n = v.len();
    let mut a: usize = 0;
    while a < n && char_is_space(v[a])
        invariant
            0 <= a <= n,
            n == v@.len(),
            forall|i: int| 0 <= i < a ==> is_space_char(v@[i]),
        decreases n - a,
    {
        a = a + 1;
    }
    let ghost tail = v@.skip(a as int);
    proof {
        if a == n {
            lemma_trim_front_all_space(v@);
            assert(tail =~= Seq::<char>::empty());
            assert(trim_front(v@) =~= tail);
        } else {
            lemma_trim_front_skip(v@, a as int);
            assert(tail.first() == v@[a as int]);
            assert(trim_front(tail) == tail);
        }
        assert(trim_front(v@) == tail);
    }
    let mut b: usize = n;
    while b > a && char_is_space(v[b - 1])
        invariant
            a <= b <= n,
            n == v@.len(),
            forall|i: int| b <= i < n ==> is_space_char(v@[i]),
        decreases b,
    {
        b = b - 1;
    }
    proof {
        assert(forall|i: int| b - a <= i < tail.len() ==> is_space_char(tail[i]));
        lemma_trim_back_take(tail, b - a);
        assert(tail.take(b - a) =~= v@.subrange(a as int, b as int));
        if b > a {
            assert(tail.take(b - a).last() == v@[b - 1]);
            assert(trim_back(tail.take(b - a)) == tail.take(b - a));
        } else {
            assert(tail.take(b - a) =~= Seq::<char>::empty());
        }
        assert(trim_spec(v@) == v@.subrange(a as int, b as int));
    }
    let mut r: Vec<char> = Vec::new();
    let mut i: usize = a;
    while i < b
        invariant
            a <= i <= b <= n,
            n == v@.len(),
            r@ =~= v@.subrange(a as int, i as int),
        decreases b - i,
    {
        r.push(v[i]);
        proof {
            assert(r@ =~= v@.subrange(a as int, i + 1));
        }
        i = i + 1;
    }
    proof {
        assert(r@ =~= v@.subrange(a as int, b as int));
    }
    r
}

/// Equality of two character vectors, stated over their views.
pub(crate) fn chars_eq(a: &Vec<char>, b: &Vec<char>) -> (r: bool)
    ensures
        r == (a@ == b@),
{
    if a.len() != b.len() {
        return false;
    }
    let mut i: usize = 0;
    while i < a.len()
        invariant
            0 <= i <= a@.len(),
            a@.len() == b@.len(),
            forall|j: int| 0 <= j < i ==> a@[j] == b@[j],
        decreases a@.len() - i,
    {
        if a[i] != b[i] {
            return false;
        }
        i = i + 1;
    }
    proof {
        assert(a@ =~= b@);
    }
    true
}

} // verus!
