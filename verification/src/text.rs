//! Character-level text utilities shared by the header and date parsers:
//! whitespace trimming, first-occurrence search, and case-insensitive
//! comparison, each with a specification over the string's view.

use vstd::prelude::*;

verus! {

use vstd::string::StrSliceExecFns;

/// Whitespace as the post format understands it: the characters removed by
/// trimming header lines, header values and the body text.
pub open spec fn is_space(c: char) -> bool {
    c == ' ' || c == '\t' || c == '\n' || c == '\r' || c == '\u{b}' || c == '\u{c}'
        || c == '\u{85}' || c == '\u{a0}' || c == '\u{1680}'
        || ('\u{2000}' <= c && c <= '\u{200a}')
        || c == '\u{2028}' || c == '\u{2029}' || c == '\u{202f}' || c == '\u{205f}'
        || c == '\u{3000}'
}

/// Runtime test for [`is_space`].
pub fn space_char(c: char) -> (r: bool)
    ensures
        r == is_space(c),
{
    c == ' ' || c == '\t' || c == '\n' || c == '\r' || c == '\u{b}' || c == '\u{c}'
        || c == '\u{85}' || c == '\u{a0}' || c == '\u{1680}'
        || ('\u{2000}' <= c && c <= '\u{200a}')
        || c == '\u{2028}' || c == '\u{2029}' || c == '\u{202f}' || c == '\u{205f}'
        || c == '\u{3000}'
}

/// The first index at or after `i` holding a non-whitespace character,
/// or `s.len()` if the rest of `s` is whitespace.
pub open spec fn first_non_space(s: Seq<char>, i: int) -> int
    decreases s.len() - i,
{
    if i >= s.len() {
        s.len() as int
    } else if !is_space(s[i]) {
        i
    } else {
        first_non_space(s, i + 1)
    }
}

pub proof fn lemma_first_non_space(s: Seq<char>, i: int)
    requires
        0 <= i <= s.len(),
    ensures
        i <= first_non_space(s, i) <= s.len(),
        forall|j: int| i <= j < first_non_space(s, i) ==> is_space(s[j]),
        first_non_space(s, i) < s.len() ==> !is_space(s[first_non_space(s, i)]),
    decreases s.len() - i,
{
    if i < s.len() && is_space(s[i]) {
        lemma_first_non_space(s, i + 1);
    }
}

/// The last index at or before `i` holding a non-whitespace character,
/// or `-1` if there is none.
pub open spec fn last_non_space(s: Seq<char>, i: int) -> int
    decreases i + 1,
{
    if i < 0 {
        -1
    } else if i >= s.len() {
        last_non_space(s, s.len() - 1)
    } else if !is_space(s[i]) {
        i
    } else {
        last_non_space(s, i - 1)
    }
}

pub proof fn lemma_last_non_space(s: Seq<char>, i: int)
    requires
        -1 <= i < s.len(),
    ensures
        -1 <= last_non_space(s, i) <= i,
        forall|j: int| last_non_space(s, i) < j <= i ==> is_space(s[j]),
        last_non_space(s, i) >= 0 ==> !is_space(s[last_non_space(s, i)]),
    decreases i + 1,
{
    if i >= 0 && is_space(s[i]) {
        lemma_last_non_space(s, i - 1);
    }
}

/// `s` with leading and trailing whitespace removed.
pub open spec fn trim(s: Seq<char>) -> Seq<char> {
    let a = first_non_space(s, 0);
    let b = last_non_space(s, s.len() - 1);
    if a > b {
        Seq::empty()
    } else {
        s.subrange(a, b + 1)
    }
}

/// The slice of `s` between the character indices `lo` and `hi`, with
/// leading and trailing whitespace removed.
pub fn trim_slice<'a>(s: &'a str, lo: usize, hi: usize) -> (r: &'a str)
    requires
        lo <= hi <= s@.len(),
    ensures
        r@ == trim(s@.subrange(lo as int, hi as int)),
{
    let ghost sub = s@.subrange(lo as int, hi as int);
    let mut a: usize = lo;
    while a < hi && space_char(s.get_char(a))
        invariant
            lo <= a <= hi <= s@.len(),
            forall|j: int| lo <= j < a ==> is_space(s@[j]),
        decreases hi - a,
    {
        a = a + 1;
    }
    let mut b: usize = hi;
    while b > a && space_char(s.get_char(b - 1))
        invariant
            lo <= a <= b <= hi <= s@.len(),
            forall|j: int| b <= j < hi ==> is_space(s@[j]),
        decreases b,
    {
        b = b - 1;
    }
    proof {
        lemma_first_non_space(sub, 0);
        lemma_last_non_space(sub, sub.len() - 1);
        assert(forall|j: int| 0 <= j < a - lo ==> is_space(sub[j]));
        assert(a < hi ==> !is_space(sub[a - lo]));
        assert(first_non_space(sub, 0) == a - lo) by {
            let f = first_non_space(sub, 0);
            if f < a - lo {
                assert(is_space(sub[f]));
            } else if f > a - lo {
                assert(is_space(sub[a - lo]));
            }
        }
        if b > a {
            assert(!is_space(sub[b - 1 - lo]));
            assert(forall|j: int| b - lo <= j < sub.len() ==> is_space(sub[j]));
            assert(last_non_space(sub, sub.len() - 1) == b - 1 - lo) by {
                let l = last_non_space(sub, sub.len() - 1);
                if l > b - 1 - lo {
                    assert(is_space(sub[l]));
                } else if l < b - 1 - lo {
                    assert(is_space(sub[b - 1 - lo]));
                }
            }
            assert(trim(sub) =~= s@.subrange(a as int, b as int));
        } else {
            // the whole range is whitespace
            assert(forall|j: int| 0 <= j < sub.len() ==> is_space(sub[j]));
            assert(first_non_space(sub, 0) == sub.len()) by {
                let f = first_non_space(sub, 0);
                if f < sub.len() {
                    assert(is_space(sub[f]));
                }
            }
            assert(last_non_space(sub, sub.len() - 1) == -1) by {
                let l = last_non_space(sub, sub.len() - 1);
                if l >= 0 {
                    assert(is_space(sub[l]));
                }
            }
            assert(trim(sub) =~= s@.subrange(a as int, b as int));
        }
    }
    s.substring_char(a, b)
}

/// The first index at or after `i` where `c` occurs in `s`, or `s.len()`
/// if it does not occur there.
pub open spec fn find_char_from(s: Seq<char>, i: int, c: char) -> int
    decreases s.len() - i,
{
    if i >= s.len() {
        s.len() as int
    } else if s[i] == c {
        i
    } else {
        find_char_from(s, i + 1, c)
    }
}

pub proof fn lemma_find_char_from(s: Seq<char>, i: int, c: char)
    requires
        0 <= i <= s.len(),
    ensures
        i <= find_char_from(s, i, c) <= s.len(),
        forall|j: int| i <= j < find_char_from(s, i, c) ==> s[j] != c,
        find_char_from(s, i, c) < s.len() ==> s[find_char_from(s, i, c)] == c,
    decreases s.len() - i,
{
    if i < s.len() && s[i] != c {
        lemma_find_char_from(s, i + 1, c);
    }
}

/// The first occurrence of `c` in `s` between the character indices `lo`
/// and `hi`, as an index into `s`; `hi` if there is none.
pub fn find_char_in(s: &str, lo: usize, hi: usize, c: char) -> (r: usize)
    requires
        lo <= hi <= s@.len(),
    ensures
        lo <= r <= hi,
        r - lo == find_char_from(s@.subrange(lo as int, hi as int), 0, c),
{
    let ghost sub = s@.subrange(lo as int, hi as int);
    let mut i: usize = lo;
    while i < hi && s.get_char(i) != c
        invariant
            lo <= i <= hi <= s@.len(),
            forall|j: int| lo <= j < i ==> s@[j] != c,
        decreases hi - i,
    {
        i = i + 1;
    }
    proof {
        lemma_find_char_from(sub, 0, c);
        assert(i < hi ==> sub[i - lo] == c);
        assert(find_char_from(sub, 0, c) == i - lo) by {
            let f = find_char_from(sub, 0, c);
            if f < i - lo {
                assert(sub[f] == c);
            } else if f > i - lo {
                assert(sub[i - lo] != c);
            }
        }
    }
    i
}

/// Lower-casing of the characters that matter to header keys and month
/// names: the twenty-six ASCII letters; every other character is kept.
pub open spec fn lower_char(c: char) -> char {
    match c {
        'A' => 'a', 'B' => 'b', 'C' => 'c', 'D' => 'd', 'E' => 'e', 'F' => 'f',
        'G' => 'g', 'H' => 'h', 'I' => 'i', 'J' => 'j', 'K' => 'k', 'L' => 'l',
        'M' => 'm', 'N' => 'n', 'O' => 'o', 'P' => 'p', 'Q' => 'q', 'R' => 'r',
        'S' => 's', 'T' => 't', 'U' => 'u', 'V' => 'v', 'W' => 'w', 'X' => 'x',
        'Y' => 'y', 'Z' => 'z', _ => c,
    }
}

/// Runtime counterpart of [`lower_char`].
pub fn to_lower(c: char) -> (r: char)
    ensures
        r == lower_char(c),
{
    match c {
        'A' => 'a', 'B' => 'b', 'C' => 'c', 'D' => 'd', 'E' => 'e', 'F' => 'f',
        'G' => 'g', 'H' => 'h', 'I' => 'i', 'J' => 'j', 'K' => 'k', 'L' => 'l',
        'M' => 'm', 'N' => 'n', 'O' => 'o', 'P' => 'p', 'Q' => 'q', 'R' => 'r',
        'S' => 's', 'T' => 't', 'U' => 'u', 'V' => 'v', 'W' => 'w', 'X' => 'x',
        'Y' => 'y', 'Z' => 'z', _ => c,
    }
}

/// `s` lower-cased character by character.
pub open spec fn lower_seq(s: Seq<char>) -> Seq<char> {
    s.map_values(|c: char| lower_char(c))
}

/// Lower-casing keeps a string's length.
pub broadcast proof fn lemma_lower_len(s: Seq<char>)
    ensures
        #[trigger] lower_seq(s).len() == s.len(),
{
}

/// Whether the characters of `s` between `lo` and `hi` equal `pat`,
/// ignoring ASCII case on both sides.
pub fn eq_ignore_case(s: &str, lo: usize, hi: usize, pat: &str) -> (r: bool)
    requires
        lo <= hi <= s@.len(),
    ensures
        r == (lower_seq(s@.subrange(lo as int, hi as int)) == lower_seq(pat@)),
{
    let ghost sub = s@.subrange(lo as int, hi as int);
    let n = pat.unicode_len();
    if hi - lo != n {
        proof {
            assert(lower_seq(sub).len() == sub.len());
            assert(lower_seq(pat@).len() == pat@.len());
        }
        return false;
    }
    let mut j: usize = 0;
    while j < n
        invariant
            hi - lo == n == pat@.len(),
            lo <= hi <= s@.len(),
            sub == s@.subrange(lo as int, hi as int),
            forall|k: int| 0 <= k < j ==> lower_char(sub[k]) == lower_char(pat@[k]),
        decreases n - j,
    {
        if to_lower(s.get_char(lo + j)) != to_lower(pat.get_char(j)) {
            proof {
                assert(lower_seq(sub)[j as int] != lower_seq(pat@)[j as int]);
            }
            return false;
        }
        j = j + 1;
    }
    proof {
        assert(lower_seq(sub) =~= lower_seq(pat@));
    }
    true
}

} // verus!
