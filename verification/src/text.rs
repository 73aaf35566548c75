//! Character-level text utilities: converting strings to character vectors,
//! splitting on a delimiter, and trimming whitespace.
//!
//! Dictionary entries are modelled as vectors of characters; these functions
//! carry exact contracts over the corresponding character sequences.

use vstd::prelude::*;
use vstd::std_specs::iter::IteratorSpec;

verus! {

broadcast use vstd::string::group_string_axioms;

/// Collects the characters of a string slice into a vector.
pub fn str_chars(s: &str) -> (r: Vec<char>)
    ensures
        r@ == s@,
{
    let mut it = s.chars();
    let mut r: Vec<char> = Vec::new();
    loop
        invariant
            it.obeys_prophetic_iter_laws(),
            it.decrease() is Some,
            r@ + it.remaining() == s@,
        ensures
            r@ == s@,
        decreases it.decrease()->0,
    {
        match it.next() {
            Some(c) => {
                r.push(c);
            },
            None => {
                proof {
                    assert(r@ =~= s@);
                }
                break ;
            },
        }
    }
    r
}

/// Relies on String's FromIterator: collecting characters yields the
/// string of exactly those characters, in order.
#[verifier::external_body]
pub(crate) fn chars_to_string(v: &Vec<char>) -> (s: String)
    ensures
        s@ == v@,
{
    v.iter().collect()
}

/// The whitespace characters stripped from dictionary entries.
pub open spec fn is_search_whitespace(c: char) -> bool {
    c == ' ' || c == '\t' || c == '\n' || c == '\r' || c == '\u{b}' || c == '\u{c}'
}

/// Executable test for `is_search_whitespace`.
pub fn is_whitespace_char(c: char) -> (r: bool)
    ensures
        r == is_search_whitespace(c),
{
    c == ' ' || c == '\t' || c == '\n' || c == '\r' || c == '\u{b}' || c == '\u{c}'
}

/// The first index at or after `i` holding the delimiter `d`, or the length
/// of `s` if there is none.
pub open spec fn find_delim(s: Seq<char>, d: char, i: int) -> int
    decreases s.len() - i,
{
    if i < 0 {
        0
    } else if i >= s.len() {
        s.len() as int
    } else if s[i] == d {
        i
    } else {
        find_delim(s, d, i + 1)
    }
}

pub proof fn lemma_find_delim_bounds(s: Seq<char>, d: char, i: int)
    requires
        0 <= i <= s.len(),
    ensures
        i <= find_delim(s, d, i) <= s.len(),
    decreases s.len() - i,
{
    if i < s.len() && s[i] != d {
        lemma_find_delim_bounds(s, d, i + 1);
    }
}

/// The pieces of `s[i..]` between occurrences of the delimiter `d`, in
/// order. A trailing delimiter yields a trailing empty piece, and an empty
/// input yields one empty piece.
pub open spec fn split_from(s: Seq<char>, d: char, i: int) -> Seq<Seq<char>>
    decreases s.len() - i,
        when 0 <= i <= s.len()
        via split_from_decreases
{
    let k = find_delim(s, d, i);
    if k >= s.len() {
        seq![s.subrange(i, s.len() as int)]
    } else {
        seq![s.subrange(i, k)] + split_from(s, d, k + 1)
    }
}

#[via_fn]
proof fn split_from_decreases(s: Seq<char>, d: char, i: int) {
    lemma_find_delim_bounds(s, d, i);
}

/// The pieces of `s` between occurrences of the delimiter `d`.
pub open spec fn split_spec(s: Seq<char>, d: char) -> Seq<Seq<char>> {
    split_from(s, d, 0)
}

/// Index just past the leading whitespace of `s`, scanning from `i`.
pub open spec fn trim_start_idx(s: Seq<char>, i: int) -> int
    decreases s.len() - i,
{
    if 0 <= i < s.len() && is_search_whitespace(s[i]) {
        trim_start_idx(s, i + 1)
    } else {
        i
    }
}

/// Index just before the trailing whitespace of `s`, scanning down from `j`.
pub open spec fn trim_end_idx(s: Seq<char>, j: int) -> int
    decreases j,
{
    if 0 < j <= s.len() && is_search_whitespace(s[j - 1]) {
        trim_end_idx(s, j - 1)
    } else {
        j
    }
}

/// `s` without its leading and trailing whitespace.
pub open spec fn trimmed(s: Seq<char>) -> Seq<char> {
    let a = trim_start_idx(s, 0);
    let b = trim_end_idx(s, s.len() as int);
    if a <= b {
        s.subrange(a, b)
    } else {
        Seq::empty()
    }
}

proof fn lemma_trim_start_bounds(s: Seq<char>, i: int)
    requires
        0 <= i <= s.len(),
    ensures
        i <= trim_start_idx(s, i) <= s.len(),
    decreases s.len() - i,
{
    if i < s.len() && is_search_whitespace(s[i]) {
        lemma_trim_start_bounds(s, i + 1);
    }
}

proof fn lemma_trim_end_bounds(s: Seq<char>, j: int)
    requires
        0 <= j <= s.len(),
    ensures
        0 <= trim_end_idx(s, j) <= j,
    decreases j,
{
    if 0 < j && is_search_whitespace(s[j - 1]) {
        lemma_trim_end_bounds(s, j - 1);
    }
}

/// Copies `v[a..b]` into a fresh vector.
pub fn copy_range(v: &Vec<char>, a: usize, b: usize) -> (r: Vec<char>)
    requires
        a <= b <= v@.len(),
    ensures
        r@ == v@.subrange(a as int, b as int),
{
    let mut r: Vec<char> = Vec::new();
    let mut k: usize = a;
    while k < b
        invariant
            a <= k <= b <= v@.len(),
            r@ == v@.subrange(a as int, k as int),
        decreases b - k,
    {
        r.push(v[k]);
        proof {
            assert(r@ =~= v@.subrange(a as int, k as int + 1));
        }
        k = k + 1;
    }
    r
}

/// `v` without its leading and trailing whitespace.
pub fn trim_chars(v: &Vec<char>) -> (r: Vec<char>)
    ensures
        r@ == trimmed(v@),
{
    let n = v.len();
    let mut a: usize = 0;
    while a < n && is_whitespace_char(v[a])
        invariant
            0 <= a <= n == v@.len(),
            trim_start_idx(v@, 0) == trim_start_idx(v@, a as int),
        decreases n - a,
    {
        a = a + 1;
    }
    proof {
        lemma_trim_start_bounds(v@, a as int);
    }
    let mut b: usize = n;
    while b > a && is_whitespace_char(v[b - 1])
        invariant
            a <= b <= n == v@.len(),
            trim_end_idx(v@, n as int) == trim_end_idx(v@, b as int),
        decreases b,
    {
        b = b - 1;
    }
    proof {
        lemma_trim_end_bounds(v@, b as int);
    }
    if b <= a {
        // Only reachable when every character is whitespace.
        Vec::new()
    } else {
        copy_range(v, a, b)
    }
}

/// Whether `s` holds a NUL character; such candidates can never be a
/// PKCS#12 password and are rejected without consulting the oracle.
pub open spec fn has_nul(s: Seq<char>) -> bool {
    exists|i: int| 0 <= i < s.len() && s[i] == '\0'
}

/// Executable test for `has_nul`.
pub fn contains_nul(v: &Vec<char>) -> (r: bool)
    ensures
        r == has_nul(v@),
{
    let mut k: usize = 0;
    while k < v.len()
        invariant
            0 <= k <= v@.len(),
            forall|i: int| 0 <= i < k ==> v@[i] != '\0',
        decreases v@.len() - k,
    {
        if v[k] == '\0' {
            return true;
        }
        k = k + 1;
    }
    false
}

/// Splits `v` on the delimiter `d` into the pieces between occurrences.
pub fn split_chars(v: &Vec<char>, d: char) -> (r: Vec<Vec<char>>)
    ensures
        r.deep_view() == split_spec(v@, d),
{
    let n = v.len();
    let mut r: Vec<Vec<char>> = Vec::new();
    let mut start: usize = 0;
    loop
        invariant_except_break
            split_spec(v@, d) == r.deep_view() + split_from(v@, d, start as int),
        invariant
            0 <= start <= n == v@.len(),
        ensures
            r.deep_view() == split_spec(v@, d),
        decreases n - start + 1,
    {
        let mut j: usize = start;
        while j < n && v[j] != d
            invariant
                start <= j <= n == v@.len(),
                find_delim(v@, d, start as int) == find_delim(v@, d, j as int),
            decreases n - j,
        {
            j = j + 1;
        }
        let piece = copy_range(v, start, j);
        let ghost pre = r.deep_view();
        r.push(piece);
        proof {
            assert(r.deep_view() =~~= pre.push(piece@));
        }
        if j == n {
            proof {
                assert(split_from(v@, d, start as int) =~~= seq![piece@]);
                assert(r.deep_view() =~~= split_spec(v@, d));
            }
            break ;
        }
        proof {
            assert(split_from(v@, d, start as int) =~~= seq![piece@] + split_from(
                v@,
                d,
                j as int + 1,
            ));
            assert(r.deep_view() + split_from(v@, d, j as int + 1) =~~= split_spec(v@, d));
        }
        start = j + 1;
    }
    r
}

} // verus!
