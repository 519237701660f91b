//! Character-level helpers: the whitespace trimming and case folding that
//! the search applies to a query, and substring containment.

use vstd::prelude::*;

verus! {

/// The whitespace characters that input lines are trimmed of: the ASCII
/// set.  Rarer Unicode whitespace is deliberately left alone; prompts are
/// answered with ASCII input.
pub open spec fn is_space(c: char) -> bool {
    c == ' ' || c == '\t' || c == '\n' || c == '\r'
}

fn is_space_char(c: char) -> (b: bool)
    ensures
        b == is_space(c),
{
    c == ' ' || c == '\t' || c == '\n' || c == '\r'
}

/// Upper-casing of one character: the ASCII letters and the Latin-1
/// letters with a single-character upper case.  Characters whose upper
/// case is longer than one character (such as '\u{df}') and everything
/// beyond Latin-1 are deliberately left alone: station names are stored
/// upper-case, so folding the query this far is what makes matching
/// case-insensitive end to end.
pub open spec fn spec_upper_char(c: char) -> char {
    if c == 'a' { 'A' }
    else if c == 'b' { 'B' }
    else if c == 'c' { 'C' }
    else if c == 'd' { 'D' }
    else if c == 'e' { 'E' }
    else if c == 'f' { 'F' }
    else if c == 'g' { 'G' }
    else if c == 'h' { 'H' }
    else if c == 'i' { 'I' }
    else if c == 'j' { 'J' }
    else if c == 'k' { 'K' }
    else if c == 'l' { 'L' }
    else if c == 'm' { 'M' }
    else if c == 'n' { 'N' }
    else if c == 'o' { 'O' }
    else if c == 'p' { 'P' }
    else if c == 'q' { 'Q' }
    else if c == 'r' { 'R' }
    else if c == 's' { 'S' }
    else if c == 't' { 'T' }
    else if c == 'u' { 'U' }
    else if c == 'v' { 'V' }
    else if c == 'w' { 'W' }
    else if c == 'x' { 'X' }
    else if c == 'y' { 'Y' }
    else if c == 'z' { 'Z' }
    else if c == '\u{e0}' { '\u{c0}' }
    else if c == '\u{e1}' { '\u{c1}' }
    else if c == '\u{e2}' { '\u{c2}' }
    else if c == '\u{e3}' { '\u{c3}' }
    else if c == '\u{e4}' { '\u{c4}' }
    else if c == '\u{e5}' { '\u{c5}' }
    else if c == '\u{e6}' { '\u{c6}' }
    else if c == '\u{e7}' { '\u{c7}' }
    else if c == '\u{e8}' { '\u{c8}' }
    else if c == '\u{e9}' { '\u{c9}' }
    else if c == '\u{ea}' { '\u{ca}' }
    else if c == '\u{eb}' { '\u{cb}' }
    else if c == '\u{ec}' { '\u{cc}' }
    else if c == '\u{ed}' { '\u{cd}' }
    else if c == '\u{ee}' { '\u{ce}' }
    else if c == '\u{ef}' { '\u{cf}' }
    else if c == '\u{f0}' { '\u{d0}' }
    else if c == '\u{f1}' { '\u{d1}' }
    else if c == '\u{f2}' { '\u{d2}' }
    else if c == '\u{f3}' { '\u{d3}' }
    else if c == '\u{f4}' { '\u{d4}' }
    else if c == '\u{f5}' { '\u{d5}' }
    else if c == '\u{f6}' { '\u{d6}' }
    else if c == '\u{f8}' { '\u{d8}' }
    else if c == '\u{f9}' { '\u{d9}' }
    else if c == '\u{fa}' { '\u{da}' }
    else if c == '\u{fb}' { '\u{db}' }
    else if c == '\u{fc}' { '\u{dc}' }
    else if c == '\u{fd}' { '\u{dd}' }
    else if c == '\u{fe}' { '\u{de}' }
    else if c == '\u{ff}' { '\u{178}' }
    else if c == '\u{b5}' { '\u{39c}' }
    else { c }
}

fn upper_char(c: char) -> (r: char)
    ensures
        r == spec_upper_char(c),
{
    if c == 'a' { 'A' }
    else if c == 'b' { 'B' }
    else if c == 'c' { 'C' }
    else if c == 'd' { 'D' }
    else if c == 'e' { 'E' }
    else if c == 'f' { 'F' }
    else if c == 'g' { 'G' }
    else if c == 'h' { 'H' }
    else if c == 'i' { 'I' }
    else if c == 'j' { 'J' }
    else if c == 'k' { 'K' }
    else if c == 'l' { 'L' }
    else if c == 'm' { 'M' }
    else if c == 'n' { 'N' }
    else if c == 'o' { 'O' }
    else if c == 'p' { 'P' }
    else if c == 'q' { 'Q' }
    else if c == 'r' { 'R' }
    else if c == 's' { 'S' }
    else if c == 't' { 'T' }
    else if c == 'u' { 'U' }
    else if c == 'v' { 'V' }
    else if c == 'w' { 'W' }
    else if c == 'x' { 'X' }
    else if c == 'y' { 'Y' }
    else if c == 'z' { 'Z' }
    else if c == '\u{e0}' { '\u{c0}' }
    else if c == '\u{e1}' { '\u{c1}' }
    else if c == '\u{e2}' { '\u{c2}' }
    else if c == '\u{e3}' { '\u{c3}' }
    else if c == '\u{e4}' { '\u{c4}' }
    else if c == '\u{e5}' { '\u{c5}' }
    else if c == '\u{e6}' { '\u{c6}' }
    else if c == '\u{e7}' { '\u{c7}' }
    else if c == '\u{e8}' { '\u{c8}' }
    else if c == '\u{e9}' { '\u{c9}' }
    else if c == '\u{ea}' { '\u{ca}' }
    else if c == '\u{eb}' { '\u{cb}' }
    else if c == '\u{ec}' { '\u{cc}' }
    else if c == '\u{ed}' { '\u{cd}' }
    else if c == '\u{ee}' { '\u{ce}' }
    else if c == '\u{ef}' { '\u{cf}' }
    else if c == '\u{f0}' { '\u{d0}' }
    else if c == '\u{f1}' { '\u{d1}' }
    else if c == '\u{f2}' { '\u{d2}' }
    else if c == '\u{f3}' { '\u{d3}' }
    else if c == '\u{f4}' { '\u{d4}' }
    else if c == '\u{f5}' { '\u{d5}' }
    else if c == '\u{f6}' { '\u{d6}' }
    else if c == '\u{f8}' { '\u{d8}' }
    else if c == '\u{f9}' { '\u{d9}' }
    else if c == '\u{fa}' { '\u{da}' }
    else if c == '\u{fb}' { '\u{db}' }
    else if c == '\u{fc}' { '\u{dc}' }
    else if c == '\u{fd}' { '\u{dd}' }
    else if c == '\u{fe}' { '\u{de}' }
    else if c == '\u{ff}' { '\u{178}' }
    else if c == '\u{b5}' { '\u{39c}' }
    else { c }
}

/// Upper-casing of a whole character sequence.
pub open spec fn spec_upper(s: Seq<char>) -> Seq<char> {
    s.map_values(|c: char| spec_upper_char(c))
}

/// The sequence without its leading whitespace.
pub open spec fn spec_trim_front(s: Seq<char>) -> Seq<char>
    decreases s.len(),
{
    if s.len() > 0 && is_space(s[0]) {
        spec_trim_front(s.drop_first())
    } else {
        s
    }
}

/// The sequence without its trailing whitespace.
pub open spec fn spec_trim_back(s: Seq<char>) -> Seq<char>
    decreases s.len(),
{
    if s.len() > 0 && is_space(s.last()) {
        spec_trim_back(s.drop_last())
    } else {
        s
    }
}

/// The sequence without leading and trailing whitespace.
pub open spec fn spec_trim(s: Seq<char>) -> Seq<char> {
    spec_trim_back(spec_trim_front(s))
}

/// Trims leading and trailing whitespace from `s`, returning the characters
/// that remain.
pub fn trimmed_chars(s: &str) -> (t: Vec<char>)
    ensures
        t@ == spec_trim(s@),
{
    let n = s.unicode_len();
    let mut a: usize = 0;
    proof {
        assert(s@.skip(0) =~= s@);
    }
    while a < n && is_space_char(s.get_char(a))
        invariant
            a <= n,
            n == s@.len(),
            spec_trim_front(s@) == spec_trim_front(s@.skip(a as int)),
        decreases n - a,
    {
        proof {
            assert(s@.skip(a as int).drop_first() =~= s@.skip(a as int + 1));
            assert(s@.skip(a as int)[0] == s@[a as int]);
        }
        a = a + 1;
    }
    proof {
        if a == n {
            assert(s@.skip(a as int) =~= Seq::<char>::empty());
        }
        assert(spec_trim_front(s@) == s@.skip(a as int));
    }
    let ghost front: Seq<char> = s@.skip(a as int);
    let mut b: usize = n;
    proof {
        assert(s@.subrange(a as int, b as int) =~= front);
    }
    while b > a && is_space_char(s.get_char(b - 1))
        invariant
            a <= b <= n,
            n == s@.len(),
            spec_trim_front(s@) == front,
            spec_trim_back(front) == spec_trim_back(s@.subrange(a as int, b as int)),
        decreases b,
    {
        proof {
            assert(s@.subrange(a as int, b as int).drop_last() =~= s@.subrange(
                a as int,
                b as int - 1,
            ));
            assert(s@.subrange(a as int, b as int).last() == s@[b as int - 1]);
        }
        b = b - 1;
    }
    proof {
        assert(spec_trim_back(s@.subrange(a as int, b as int)) == s@.subrange(a as int, b as int));
    }
    let mut t: Vec<char> = Vec::new();
    let mut i: usize = a;
    while i < b
        invariant
            a <= i <= b <= n,
            n == s@.len(),
            t@ =~= s@.subrange(a as int, i as int),
        decreases b - i,
    {
        t.push(s.get_char(i));
        i = i + 1;
    }
    proof {
        assert(t@ =~= s@.subrange(a as int, b as int));
    }
    t
}

/// Upper-cases every character of `v`.
pub fn upper_chars(v: &Vec<char>) -> (r: Vec<char>)
    ensures
        r@ == spec_upper(v@),
{
    let mut r: Vec<char> = Vec::new();
    let mut i: usize = 0;
    while i < v.len()
        invariant
            i <= v@.len(),
            r@ =~= spec_upper(v@.take(i as int)),
        decreases v@.len() - i,
    {
        r.push(upper_char(v[i]));
        proof {
            assert(r@ =~= spec_upper(v@.take(i as int + 1)));
        }
        i = i + 1;
    }
    proof {
        assert(v@.take(v@.len() as int) =~= v@);
    }
    r
}

/// `needle` occurs contiguously somewhere in `hay`.
pub open spec fn contains_seq(hay: Seq<char>, needle: Seq<char>) -> bool {
    exists|k: int|
        0 <= k && k + needle.len() <= hay.len() && #[trigger] hay.subrange(
            k,
            k + needle.len() as int,
        ) == needle
}

/// The empty sequence occurs in every sequence.
pub proof fn lemma_contains_empty(hay: Seq<char>)
    ensures
        contains_seq(hay, Seq::<char>::empty()),
{
    let e = Seq::<char>::empty();
    assert(hay.subrange(0, 0 + e.len() as int) =~= e);
}

fn match_at(hay: &str, k: usize, needle: &Vec<char>) -> (b: bool)
    requires
        k + needle@.len() <= hay@.len(),
        k + needle@.len() <= usize::MAX,
    ensures
        b == (hay@.subrange(k as int, k as int + needle@.len() as int) == needle@),
{
    let m = needle.len();
    let mut j: usize = 0;
    while j < m
        invariant
            j <= m,
            m == needle@.len(),
            k + m <= hay@.len(),
            k + m <= usize::MAX,
            forall|t: int| 0 <= t < j ==> hay@[k + t] == needle@[t],
        decreases m - j,
    {
        if hay.get_char(k + j) != needle[j] {
            proof {
                assert(hay@.subrange(k as int, k as int + m as int)[j as int] != needle@[j as int]);
            }
            return false;
        }
        j = j + 1;
    }
    proof {
        assert(hay@.subrange(k as int, k as int + m as int) =~= needle@);
    }
    true
}

/// Whether `needle` occurs as a contiguous run of characters in `hay`.
pub fn contains_chars(hay: &str, needle: &Vec<char>) -> (b: bool)
    ensures
        b == contains_seq(hay@, needle@),
{
    let n = hay.unicode_len();
    let m = needle.len();
    if m > n {
        proof {
            assert(!contains_seq(hay@, needle@));
        }
        return false;
    }
    if m == 0 {
        proof {
            lemma_contains_empty(hay@);
            assert(needle@ =~= Seq::<char>::empty());
        }
        return true;
    }
    let mut k: usize = 0;
    while k <= n - m
        invariant
            1 <= m <= n,
            n == hay@.len(),
            m == needle@.len(),
            k <= n - m + 1,
            forall|k2: int|
                0 <= k2 < k ==> #[trigger] hay@.subrange(k2, k2 + m as int) != needle@,
        decreases n - k,
    {
        if match_at(hay, k, needle) {
            return true;
        }
        k = k + 1;
    }
    proof {
        assert(forall|k2: int|
            0 <= k2 && k2 + needle@.len() <= hay@.len() ==> #[trigger] hay@.subrange(
                k2,
                k2 + needle@.len() as int,
            ) != needle@);
    }
    false
}

} // verus!
