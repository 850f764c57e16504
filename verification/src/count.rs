//! Parsing of a member count: the decimal text of a matched element, read as
//! a non-negative integer exactly as `str::parse::<u32>` reads it.

use vstd::prelude::*;
use vstd::string::StrSliceExecFns;

verus! {

/// A decimal digit character.
pub open spec fn is_count_digit(c: char) -> bool {
    '0' as int <= c as int <= '9' as int
}

/// The numeric value of one digit character.
pub open spec fn digit_value(c: char) -> int {
    c as int - '0' as int
}

/// Every character of `s` is a decimal digit.
pub open spec fn all_count_digits(s: Seq<char>) -> bool {
    forall|i: int| 0 <= i < s.len() ==> is_count_digit(#[trigger] s[i])
}

/// The numeric value of a digit string, most significant digit first.
pub open spec fn digits_value(s: Seq<char>) -> int
    decreases s.len(),
{
    if s.len() == 0 {
        0
    } else {
        digits_value(s.drop_last()) * 10 + digit_value(s.last())
    }
}

/// The digit portion of a count text: `u32` parsing accepts one optional
/// leading `'+'` before the digits.
pub open spec fn count_digits(s: Seq<char>) -> Seq<char> {
    if s.len() > 0 && s[0] == '+' {
        s.drop_first()
    } else {
        s
    }
}

/// What parsing a count text yields: the value of its digits when the text is
/// one or more digits (after an optional leading `'+'`) and the value fits in
/// a `u32`; nothing otherwise.
pub open spec fn parse_count(s: Seq<char>) -> Option<u32> {
    let d = count_digits(s);
    if d.len() > 0 && all_count_digits(d) && digits_value(d) <= u32::MAX {
        Some(digits_value(d) as u32)
    } else {
        None
    }
}

/// A digit string never has a negative value.
pub proof fn lemma_digits_value_nonneg(s: Seq<char>)
    requires
        all_count_digits(s),
    ensures
        digits_value(s) >= 0,
    decreases s.len(),
{
    if s.len() > 0 {
        lemma_digits_value_nonneg(s.drop_last());
    }
}

/// Parse a count text as `str::parse::<u32>` does: an optional leading `'+'`,
/// then one or more decimal digits whose value fits in a `u32`.
pub fn parse_count_u32(s: &str) -> (r: Option<u32>)
    ensures
        r == parse_count(s@),
{
    let n: usize = s.unicode_len();
    let start: usize = if n > 0 && s.get_char(0) == '+' {
        1
    } else {
        0
    };
    if n == start {
        proof {
            assert(count_digits(s@) =~= s@.subrange(start as int, n as int));
        }
        return None;
    }
    let mut acc: u64 = 0;
    let mut i: usize = start;
    while i < n
        invariant
            start <= i <= n,
            n == s@.len(),
            start == if s@.len() > 0 && s@[0] == '+' { 1int } else { 0int },
            all_count_digits(s@.subrange(start as int, i as int)),
            acc <= 0x1_0000_0000u64,
            digits_value(s@.subrange(start as int, i as int)) <= u32::MAX ==> acc
                == digits_value(s@.subrange(start as int, i as int)),
            digits_value(s@.subrange(start as int, i as int)) > u32::MAX ==> acc
                == 0x1_0000_0000u64,
        decreases n - i,
    {
        let c = s.get_char(i);
        let v: u32 = c as u32;
        if v < 48 || v > 57 {
            proof {
                let d = count_digits(s@);
                assert(d =~= s@.subrange(start as int, n as int));
                assert(d[i - start] == s@[i as int]);
                assert(!is_count_digit(d[i - start]));
            }
            return None;
        }
        proof {
            let pre = s@.subrange(start as int, i as int);
            let post = s@.subrange(start as int, i + 1int);
            assert(post.drop_last() =~= pre);
            assert(post.last() == s@[i as int]);
            lemma_digits_value_nonneg(pre);
        }
        acc = acc * 10 + ((v - 48) as u64);
        if acc > 0xFFFF_FFFFu64 {
            acc = 0x1_0000_0000u64;
        }
        i = i + 1;
    }
    proof {
        let d = count_digits(s@);
        assert(d =~= s@.subrange(start as int, n as int));
        lemma_digits_value_nonneg(d);
    }
    if acc <= 0xFFFF_FFFFu64 {
        Some(acc as u32)
    } else {
        None
    }
}

} // verus!
