//! Character-level helpers on string slices, with their specifications.
use vstd::prelude::*;
use vstd::std_specs::iter::IteratorSpec;

verus! {

broadcast use vstd::string::group_string_axioms;

/// The Unicode `White_Space` property, as `char::is_whitespace` documents it.
pub open spec fn is_ws(c: char) -> bool {
    ||| '\u{9}' <= c <= '\u{d}'
    ||| c == ' '
    ||| c == '\u{85}'
    ||| c == '\u{a0}'
    ||| c == '\u{1680}'
    ||| '\u{2000}' <= c <= '\u{200a}'
    ||| c == '\u{2028}'
    ||| c == '\u{2029}'
    ||| c == '\u{202f}'
    ||| c == '\u{205f}'
    ||| c == '\u{3000}'
}

pub fn is_whitespace(c: char) -> (b: bool)
    ensures
        b == is_ws(c),
{
    ('\u{9}' <= c && c <= '\u{d}') || c == ' ' || c == '\u{85}' || c == '\u{a0}' || c == '\u{1680}'
        || ('\u{2000}' <= c && c <= '\u{200a}') || c == '\u{2028}' || c == '\u{2029}' || c
        == '\u{202f}' || c == '\u{205f}' || c == '\u{3000}'
}

/// The characters of `s`, in order.
pub fn chars_of(s: &str) -> (v: Vec<char>)
    ensures
        v@ == s@,
{
    let n = s.unicode_len();
    let mut v: Vec<char> = Vec::new();
    let mut it = s.chars();
    let mut i: usize = 0;
    while i < n
        invariant
            v@ + it.remaining() == s@,
            n == s@.len(),
            i == v@.len(),
            i <= n,
        ensures
            v@ + it.remaining() == s@,
            it.remaining().len() == 0,
        decreases n - i,
    {
        match it.next() {
            Some(c) => {
                v.push(c);
            },
            None => {
                break;
            },
        }
        i = i + 1;
    }
    assert(v@ == v@ + it.remaining());
    v
}

} // verus!

verus! {

/// Index of the first non-whitespace character of `s` at or after `i` (or `s.len()`).
pub open spec fn skip_ws(s: Seq<char>, i: int) -> int
    decreases s.len() - i,
{
    if i >= s.len() {
        s.len() as int
    } else if !is_ws(s[i]) {
        i
    } else {
        skip_ws(s, i + 1)
    }
}

/// End of the whitespace-free prefix of `s.take(j)`, scanning backwards from `j`.
pub open spec fn skip_ws_back(s: Seq<char>, j: int) -> int
    decreases j,
{
    if j <= 0 {
        0
    } else if !is_ws(s[j - 1]) {
        j
    } else {
        skip_ws_back(s, j - 1)
    }
}

/// `s` without leading and trailing whitespace, as `str::trim` documents it.
pub open spec fn trimmed(s: Seq<char>) -> Seq<char> {
    let a = skip_ws(s, 0);
    let b = skip_ws_back(s, s.len() as int);
    if a < b {
        s.subrange(a, b)
    } else {
        Seq::empty()
    }
}

/// Index just past the run of non-whitespace characters that starts at `i`.
pub open spec fn word_end(s: Seq<char>, i: int) -> int
    decreases s.len() - i,
{
    if i >= s.len() || is_ws(s[i]) {
        i
    } else {
        word_end(s, i + 1)
    }
}

/// The maximal runs of non-whitespace characters of `s` from index `i` on, in order,
/// as `str::split_whitespace` documents them.
pub open spec fn words_from(s: Seq<char>, i: int) -> Seq<Seq<char>>
    decreases s.len() - i,
{
    let a = skip_ws(s, i);
    if i < 0 || a >= s.len() {
        Seq::empty()
    } else {
        let b = word_end(s, a);
        proof {
            lemma_skip_ws_bounds(s, i);
            lemma_word_end_bounds(s, a);
        }
        if b <= a {
            Seq::empty()
        } else {
            seq![s.subrange(a, b)] + words_from(s, b)
        }
    }
}

pub open spec fn words(s: Seq<char>) -> Seq<Seq<char>> {
    words_from(s, 0)
}

pub proof fn lemma_skip_ws_bounds(s: Seq<char>, i: int)
    requires
        0 <= i <= s.len(),
    ensures
        i <= skip_ws(s, i) <= s.len(),
        forall|k: int| i <= k < skip_ws(s, i) ==> is_ws(#[trigger] s[k]),
        skip_ws(s, i) < s.len() ==> !is_ws(s[skip_ws(s, i)]),
    decreases s.len() - i,
{
    if i < s.len() && is_ws(s[i]) {
        lemma_skip_ws_bounds(s, i + 1);
    }
}

pub proof fn lemma_skip_ws_back_bounds(s: Seq<char>, j: int)
    requires
        0 <= j <= s.len(),
    ensures
        0 <= skip_ws_back(s, j) <= j,
        forall|k: int| skip_ws_back(s, j) <= k < j ==> is_ws(#[trigger] s[k]),
        skip_ws_back(s, j) > 0 ==> !is_ws(s[skip_ws_back(s, j) - 1]),
    decreases j,
{
    if j > 0 && is_ws(s[j - 1]) {
        lemma_skip_ws_back_bounds(s, j - 1);
    }
}

pub proof fn lemma_word_end_bounds(s: Seq<char>, i: int)
    requires
        0 <= i <= s.len(),
    ensures
        i <= word_end(s, i) <= s.len(),
    decreases s.len() - i,
{
    if i < s.len() && !is_ws(s[i]) {
        lemma_word_end_bounds(s, i + 1);
    }
}

/// A non-empty run of characters none of which is whitespace.
pub open spec fn is_word(w: Seq<char>) -> bool {
    w.len() > 0 && forall|k: int| 0 <= k < w.len() ==> !is_ws(#[trigger] w[k])
}

pub proof fn lemma_word_end_run(s: Seq<char>, i: int)
    requires
        0 <= i <= s.len(),
    ensures
        forall|k: int| i <= k < word_end(s, i) ==> !is_ws(#[trigger] s[k]),
    decreases s.len() - i,
{
    if i < s.len() && !is_ws(s[i]) {
        lemma_word_end_run(s, i + 1);
    }
}

/// Each piece that `words_from` gives is a word.
pub proof fn lemma_words_from(s: Seq<char>, i: int)
    requires
        0 <= i <= s.len(),
    ensures
        forall|k: int| 0 <= k < words_from(s, i).len() ==> is_word(#[trigger] words_from(s, i)[k]),
    decreases s.len() - i,
{
    let a = skip_ws(s, i);
    lemma_skip_ws_bounds(s, i);
    if a < s.len() {
        let b = word_end(s, a);
        lemma_word_end_bounds(s, a);
        if b > a {
            lemma_word_end_run(s, a);
            lemma_words_from(s, b);
            let w = s.subrange(a, b);
            assert(is_word(w)) by {
                assert forall|k: int| 0 <= k < w.len() implies !is_ws(#[trigger] w[k]) by {
                    assert(w[k] == s[a + k]);
                }
            }
            let rest = words_from(s, b);
            assert forall|k: int| 0 <= k < words_from(s, i).len() implies is_word(#[trigger] words_from(s, i)[k]) by {
                if k > 0 {
                    assert(words_from(s, i)[k] == rest[k - 1]);
                }
            }
        }
    }
}

/// The words of a string are words: non-empty, without whitespace.
pub proof fn lemma_words(s: Seq<char>)
    ensures
        forall|k: int| 0 <= k < words(s).len() ==> is_word(#[trigger] words(s)[k]),
{
    lemma_words_from(s, 0);
}

/// `s` with leading and trailing whitespace removed (`str::trim`).
pub fn trim(s: &str) -> (r: &str)
    ensures
        r@ == trimmed(s@),
{
    let cs = chars_of(s);
    let n = cs.len();
    let mut a: usize = 0;
    while a < n && is_whitespace(cs[a])
        invariant
            cs@ == s@,
            n == cs@.len(),
            a <= n,
            skip_ws(s@, a as int) == skip_ws(s@, 0),
        decreases n - a,
    {
        a = a + 1;
    }
    let mut b: usize = n;
    while b > 0 && is_whitespace(cs[b - 1])
        invariant
            cs@ == s@,
            n == cs@.len(),
            b <= n,
            skip_ws_back(s@, b as int) == skip_ws_back(s@, n as int),
        decreases b,
    {
        b = b - 1;
    }
    if a < b {
        s.substring_char(a, b)
    } else {
        s.substring_char(0, 0)
    }
}

/// Whether `s` holds nothing but whitespace (`s.trim().is_empty()`).
pub fn is_blank(s: &str) -> (b: bool)
    ensures
        b == (trimmed(s@).len() == 0),
{
    trim(s).is_empty()
}

/// The whitespace-separated words of `s`, in order (`str::split_whitespace`).
pub fn split_whitespace(s: &str) -> (r: Vec<&str>)
    ensures
        r@.len() == words(s@).len(),
        forall|k: int| 0 <= k < r@.len() ==> #[trigger] r@[k]@ == words(s@)[k],
{
    let cs = chars_of(s);
    let n = cs.len();
    let mut r: Vec<&str> = Vec::new();
    let mut i: usize = 0;
    while i < n
        invariant
            cs@ == s@,
            n == cs@.len(),
            i <= n,
            r@.len() + words_from(s@, i as int).len() == words(s@).len(),
            forall|k: int| 0 <= k < r@.len() ==> #[trigger] r@[k]@ == words(s@)[k],
            forall|k: int|
                0 <= k < words_from(s@, i as int).len() ==> #[trigger] words_from(
                    s@,
                    i as int,
                )[k] == words(s@)[r@.len() + k],
        decreases n - i,
    {
        let ghost old_i = i as int;
        proof {
            lemma_skip_ws_bounds(s@, i as int);
        }
        let mut a = i;
        while a < n && is_whitespace(cs[a])
            invariant
                cs@ == s@,
                n == cs@.len(),
                old_i <= a <= n,
                skip_ws(s@, a as int) == skip_ws(s@, old_i),
            decreases n - a,
        {
            a = a + 1;
        }
        if a >= n {
            i = n;
            assert(words_from(s@, old_i) == Seq::<Seq<char>>::empty());
        } else {
            proof {
                lemma_word_end_bounds(s@, a as int);
            }
            let mut b = a;
            while b < n && !is_whitespace(cs[b])
                invariant
                    cs@ == s@,
                    n == cs@.len(),
                    a <= b <= n,
                    word_end(s@, b as int) == word_end(s@, a as int),
                decreases n - b,
            {
                b = b + 1;
            }
            assert(b > a);
            let w = s.substring_char(a, b);
            let ghost wf = words_from(s@, old_i);
            assert(wf == seq![s@.subrange(a as int, b as int)] + words_from(s@, b as int));
            assert(wf[0] == w@);
            assert forall|k: int| 0 <= k < words_from(s@, b as int).len() implies #[trigger] words_from(
                s@,
                b as int,
            )[k] == words(s@)[r@.len() + 1 + k] by {
                assert(words_from(s@, b as int)[k] == wf[k + 1]);
            }
            r.push(w);
            i = b;
        }
    }
    assert(words_from(s@, n as int) == Seq::<Seq<char>>::empty());
    r
}

/// Whether two string slices hold the same characters.
pub fn str_eq(a: &str, b: &str) -> (r: bool)
    ensures
        r == (a@ == b@),
{
    let x = chars_of(a);
    let y = chars_of(b);
    if x.len() != y.len() {
        return false;
    }
    let mut i: usize = 0;
    while i < x.len()
        invariant
            x@ == a@,
            y@ == b@,
            x@.len() == y@.len(),
            i <= x@.len(),
            forall|k: int| 0 <= k < i ==> x@[k] == y@[k],
        decreases x@.len() - i,
    {
        if x[i] != y[i] {
            return false;
        }
        i = i + 1;
    }
    assert(x@ =~= y@);
    true
}

} // verus!

verus! {

/// The lowercase form of a string under Unicode's case mapping, as `str::to_lowercase`
/// computes it.
pub uninterp spec fn lowercase(s: Seq<char>) -> Seq<char>;

/// Every character of `s` is ASCII.
pub open spec fn is_ascii(s: Seq<char>) -> bool {
    forall|k: int| 0 <= k < s.len() ==> (#[trigger] s[k] as u32) < 128
}

/// The ASCII lowercase form of `c`: `A`-`Z` become `a`-`z`, every other character stays.
pub open spec fn ascii_lower(c: char) -> char {
    if 'A' <= c <= 'Z' {
        ((c as u32) + 32) as char
    } else {
        c
    }
}

/// Calls `str::to_lowercase`. Claimed: the result is `lowercase` of the argument's
/// characters, and an ASCII text is lowered letter by letter as ASCII (`A`-`Z` to
/// `a`-`z`, the rest kept), as Unicode's case mapping does for ASCII; for other characters
/// the mapping is left unstated.
#[verifier::external_body]
pub(crate) fn to_lowercase(s: &str) -> (r: String)
    ensures
        r@ == lowercase(s@),
        is_ascii(s@) ==> r@ == s@.map_values(
            |c: char| ascii_lower(c),
        ),
{
    s.to_lowercase()
}

} // verus!
