//! Decimal numerals: parsing a selection number the way `usize` text is
//! read (optional leading `+`, digits only, overflow rejected), and
//! rendering integers as decimal text.

use vstd::prelude::*;

use crate::chars::{spec_trim, trimmed_chars};

verus! {

/// The value of a decimal digit character, `None` for anything else.
pub open spec fn spec_digit_val(c: char) -> Option<int> {
    if c == '0' { Some(0int) } else if c == '1' { Some(1int) }
    else if c == '2' { Some(2int) } else if c == '3' { Some(3int) }
    else if c == '4' { Some(4int) } else if c == '5' { Some(5int) }
    else if c == '6' { Some(6int) } else if c == '7' { Some(7int) }
    else if c == '8' { Some(8int) } else if c == '9' { Some(9int) }
    else { None }
}

fn digit_val(c: char) -> (r: Option<u8>)
    ensures
        match r {
            Some(d) => spec_digit_val(c) == Some(d as int),
            None => spec_digit_val(c) is None,
        },
{
    if c == '0' { Some(0) } else if c == '1' { Some(1) }
    else if c == '2' { Some(2) } else if c == '3' { Some(3) }
    else if c == '4' { Some(4) } else if c == '5' { Some(5) }
    else if c == '6' { Some(6) } else if c == '7' { Some(7) }
    else if c == '8' { Some(8) } else if c == '9' { Some(9) }
    else { None }
}

/// Every character of `s` is a decimal digit.
pub open spec fn all_digits(s: Seq<char>) -> bool {
    forall|i: int| 0 <= i < s.len() ==> (#[trigger] spec_digit_val(s[i])) is Some
}

/// The numeric value of a digit sequence, most significant digit first.
pub open spec fn digits_val(s: Seq<char>) -> int
    decreases s.len(),
{
    if s.len() == 0 {
        0
    } else {
        digits_val(s.drop_last()) * 10 + (match spec_digit_val(s.last()) {
            Some(d) => d,
            None => 0,
        })
    }
}

/// `s` without one optional leading plus sign.
pub open spec fn strip_plus(s: Seq<char>) -> Seq<char> {
    if s.len() > 0 && s[0] == '+' {
        s.drop_first()
    } else {
        s
    }
}

/// How `usize` text is read: after an optional `+`, a non-empty run of
/// digits whose value fits, and nothing else.
pub open spec fn spec_parse_usize(s: Seq<char>) -> Option<int> {
    let d = strip_plus(s);
    if d.len() > 0 && all_digits(d) && digits_val(d) <= usize::MAX {
        Some(digits_val(d))
    } else {
        None
    }
}

proof fn lemma_digits_val_nonneg(s: Seq<char>)
    requires
        all_digits(s),
    ensures
        digits_val(s) >= 0,
    decreases s.len(),
{
    if s.len() > 0 {
        assert(forall|i: int|
            0 <= i < s.drop_last().len() ==> s.drop_last()[i] == s[i]);
        lemma_digits_val_nonneg(s.drop_last());
    }
}

/// A digit sequence's value never shrinks as more digits are appended.
proof fn lemma_digits_prefix_le(s: Seq<char>, i: int, j: int)
    requires
        all_digits(s),
        0 <= i <= j <= s.len(),
    ensures
        digits_val(s.take(i)) <= digits_val(s.take(j)),
    decreases j - i,
{
    if i < j {
        lemma_digits_prefix_le(s, i, j - 1);
        let p = s.take(j);
        assert(p.drop_last() =~= s.take(j - 1));
        assert(p.last() == s[j - 1]);
        assert(forall|k: int| 0 <= k < s.take(j - 1).len() ==> s.take(j - 1)[k] == s[k]);
        lemma_digits_val_nonneg(s.take(j - 1));
        assert(digits_val(s.take(j - 1)) * 10 + 0 >= digits_val(s.take(j - 1)));
    }
}

/// Parses a selection line the way the selection prompt reads it: the line
/// is trimmed, then read as `usize` text; `None` on anything that is not a
/// number in range.
pub fn parse_selection(line: &str) -> (r: Option<usize>)
    ensures
        match r {
            Some(n) => spec_parse_usize(spec_trim(line@)) == Some(n as int),
            None => spec_parse_usize(spec_trim(line@)) is None,
        },
{
    let t = trimmed_chars(line);
    let ghost tv: Seq<char> = t@;
    let start: usize = if t.len() > 0 && t[0] == '+' {
        1
    } else {
        0
    };
    let ghost d: Seq<char> = strip_plus(tv);
    proof {
        assert(d =~= tv.skip(start as int));
    }
    if t.len() == start {
        proof {
            assert(d.len() == 0);
        }
        return None;
    }
    let mut acc: usize = 0;
    let mut i: usize = start;
    proof {
        assert(d.take(0) =~= Seq::<char>::empty());
    }
    while i < t.len()
        invariant
            start <= i <= t.len(),
            tv == t@,
            tv == spec_trim(line@),
            d == strip_plus(tv),
            d =~= tv.skip(start as int),
            d.len() == t.len() - start,
            all_digits(d.take(i - start)),
            acc == digits_val(d.take(i - start)),
        decreases t.len() - i,
    {
        let ghost k: int = i - start;
        match digit_val(t[i]) {
            None => {
                proof {
                    assert(d[k] == tv[i as int]);
                    assert(spec_digit_val(d[k]) is None);
                    assert(!all_digits(d));
                }
                return None;
            },
            Some(dg) => {
                proof {
                    assert(d.take(k + 1).drop_last() =~= d.take(k));
                    assert(d.take(k + 1).last() == d[k]);
                    assert(d[k] == tv[i as int]);
                    assert(digits_val(d.take(k + 1)) == acc * 10 + dg as int);
                    assert(all_digits(d.take(k + 1)));
                }
                if acc as u128 * 10 + dg as u128 > usize::MAX as u128 {
                    proof {
                        if all_digits(d) {
                            lemma_digits_prefix_le(d, k + 1, d.len() as int);
                            assert(d.take(d.len() as int) =~= d);
                            assert(digits_val(d) > usize::MAX);
                        }
                    }
                    return None;
                }
                acc = acc * 10 + dg as usize;
            },
        }
        i = i + 1;
    }
    proof {
        assert(d.take(d.len() as int) =~= d);
        assert(all_digits(d));
        assert(acc == digits_val(d));
    }
    Some(acc)
}

/// The character of a decimal digit value.
pub open spec fn spec_digit_char(d: int) -> char {
    if d == 0 { '0' } else if d == 1 { '1' } else if d == 2 { '2' }
    else if d == 3 { '3' } else if d == 4 { '4' } else if d == 5 { '5' }
    else if d == 6 { '6' } else if d == 7 { '7' } else if d == 8 { '8' }
    else { '9' }
}

/// The decimal text of a non-negative integer, most significant digit
/// first, with no leading zero except for zero itself.
pub open spec fn spec_nat_digits(n: int) -> Seq<char>
    decreases n,
{
    if n < 10 {
        seq![spec_digit_char(n)]
    } else {
        spec_nat_digits(n / 10).push(spec_digit_char(n % 10))
    }
}

/// The decimal text of an integer, with a leading minus sign when it is
/// negative.
pub open spec fn spec_int_text(n: int) -> Seq<char> {
    if n < 0 {
        seq!['-'] + spec_nat_digits(-n)
    } else {
        spec_nat_digits(n)
    }
}

pub(crate) fn digit_str(d: u64) -> (r: &'static str)
    requires
        d < 10,
    ensures
        r@ == seq![spec_digit_char(d as int)],
{
    if d == 0 { proof { reveal_strlit("0"); assert("0"@ =~= seq![spec_digit_char(0int)]); } "0" }
    else if d == 1 { proof { reveal_strlit("1"); assert("1"@ =~= seq![spec_digit_char(1int)]); } "1" }
    else if d == 2 { proof { reveal_strlit("2"); assert("2"@ =~= seq![spec_digit_char(2int)]); } "2" }
    else if d == 3 { proof { reveal_strlit("3"); assert("3"@ =~= seq![spec_digit_char(3int)]); } "3" }
    else if d == 4 { proof { reveal_strlit("4"); assert("4"@ =~= seq![spec_digit_char(4int)]); } "4" }
    else if d == 5 { proof { reveal_strlit("5"); assert("5"@ =~= seq![spec_digit_char(5int)]); } "5" }
    else if d == 6 { proof { reveal_strlit("6"); assert("6"@ =~= seq![spec_digit_char(6int)]); } "6" }
    else if d == 7 { proof { reveal_strlit("7"); assert("7"@ =~= seq![spec_digit_char(7int)]); } "7" }
    else if d == 8 { proof { reveal_strlit("8"); assert("8"@ =~= seq![spec_digit_char(8int)]); } "8" }
    else { proof { reveal_strlit("9"); assert("9"@ =~= seq![spec_digit_char(9int)]); } "9" }
}

/// Renders `n` as decimal text.
pub fn u64_text(n: u64) -> (s: String)
    ensures
        s@ == spec_nat_digits(n as int),
    decreases n,
{
    if n < 10 {
        String::from_str(digit_str(n))
    } else {
        let mut s = u64_text(n / 10);
        s.append(digit_str(n % 10));
        proof {
            assert(spec_nat_digits((n / 10) as int).push(spec_digit_char((n % 10) as int)) =~= s@);
        }
        s
    }
}

/// Renders `n` as decimal text, with a minus sign when it is negative.
pub fn i32_text(n: i32) -> (s: String)
    ensures
        s@ == spec_int_text(n as int),
{
    if n < 0 {
        let m: u64 = (-(n as i64)) as u64;
        proof {
            assert(m as int == -(n as int));
        }
        let mut s = String::from_str("-");
        s.append(u64_text(m).as_str());
        proof {
            reveal_strlit("-");
            assert("-"@ =~= seq!['-']);
        }
        s
    } else {
        let m: u64 = n as u64;
        proof {
            assert(m as int == n as int);
        }
        u64_text(m)
    }
}

} // verus!
