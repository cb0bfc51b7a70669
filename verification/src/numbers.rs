//! Decimal numerals: the grammar the startup arguments are read with.
//!
//! A numeral is an optional leading `+` followed by one or more ASCII
//! digits, and its value must fit the target type -- exactly the strings
//! the standard library's unsigned integer parsing accepts.

use vstd::prelude::*;

verus! {

/// Every character is an ASCII digit.
pub open spec fn all_digits(s: Seq<char>) -> bool {
    forall|i: int| 0 <= i < s.len() ==> 48 <= #[trigger] (s[i] as int) <= 57
}

/// The value of a digit string, most significant digit first.
pub open spec fn digits_val(s: Seq<char>) -> int
    decreases s.len(),
{
    if s.len() == 0 {
        0
    } else {
        digits_val(s.drop_last()) * 10 + (s.last() as int - 48)
    }
}

/// The digit string with an optional leading `+` removed.
pub open spec fn unsigned_part(s: Seq<char>) -> Seq<char> {
    if s.len() >= 1 && s[0] == '+' {
        s.skip(1)
    } else {
        s
    }
}

/// The value of a numeral, when the string is one and the value is at most
/// `max`.
pub open spec fn parsed_dec(s: Seq<char>, max: int) -> Option<int> {
    let t = unsigned_part(s);
    if t.len() >= 1 && all_digits(t) && digits_val(t) <= max {
        Some(digits_val(t))
    } else {
        None
    }
}

/// The value of a numeral that fits a 16-bit port number.
pub open spec fn parsed_u16(s: Seq<char>) -> Option<u16> {
    match parsed_dec(s, u16::MAX as int) {
        Some(v) => Some(v as u16),
        None => None,
    }
}

/// The value of a numeral that fits a count of corpus entries.
pub open spec fn parsed_usize(s: Seq<char>) -> Option<usize> {
    match parsed_dec(s, usize::MAX as int) {
        Some(v) => Some(v as usize),
        None => None,
    }
}

/// A digit string's value is never negative.
pub proof fn lemma_digits_nonneg(s: Seq<char>)
    requires
        all_digits(s),
    ensures
        digits_val(s) >= 0,
    decreases s.len(),
{
    if s.len() > 0 {
        assert(all_digits(s.drop_last()));
        lemma_digits_nonneg(s.drop_last());
    }
}

/// Reading more digits never shrinks the value: every prefix's value is at
/// most the whole string's.
pub proof fn lemma_digits_take(s: Seq<char>, k: int)
    requires
        all_digits(s),
        0 <= k <= s.len(),
    ensures
        digits_val(s.take(k)) <= digits_val(s),
    decreases s.len() - k,
{
    if k < s.len() {
        lemma_digits_take(s, k + 1);
        assert(s.take(k + 1).drop_last() =~= s.take(k));
        assert(s.take(k + 1).last() == s[k]);
        assert(all_digits(s.take(k)));
        lemma_digits_nonneg(s.take(k));
        assert(digits_val(s.take(k)) <= digits_val(s.take(k + 1)));
    } else {
        assert(s.take(k) =~= s);
    }
}

/// Reads a 16-bit numeral, `None` when the string is not one or overflows.
pub fn parse_u16(s: &str) -> (r: Option<u16>)
    ensures
        r == parsed_u16(s@),
{
    let len = s.unicode_len();
    if len == 0 {
        return None;
    }
    let first = s.get_char(0);
    let plus = first == '+';
    let start: usize = if plus {
        1
    } else {
        0
    };
    let ghost t = unsigned_part(s@);
    if start == len {
        return None;
    }
    let mut i: usize = start;
    let mut val: u32 = 0;
    proof {
        assert(t.take(0) =~= Seq::<char>::empty());
    }
    while i < len
        invariant
            start <= i <= len,
            len == s@.len(),
            start == 1 <==> (s@.len() >= 1 && s@[0] == '+'),
            start <= 1,
            t == unsigned_part(s@),
            t.len() == len - start,
            forall|m: int| 0 <= m < t.len() ==> t[m] == s@[m + start],
            all_digits(t.take(i - start)),
            val == digits_val(t.take(i - start)),
            val <= 65535,
        decreases len - i,
    {
        let c = s.get_char(i);
        let d32 = c as u32;
        proof {
            assert(t[i - start] == s@[i as int]);
        }
        if d32 < 48 || d32 > 57 {
            proof {
                assert(48 <= (t[i - start] as int) <= 57 ==> false);
            }
            return None;
        }
        let d = d32 - 48;
        proof {
            assert(t.take(i - start + 1).drop_last() =~= t.take(i - start));
            assert(t.take(i - start + 1).last() == t[i - start]);
            assert(digits_val(t.take(i - start + 1)) == val * 10 + d);
            assert(all_digits(t.take(i - start + 1)));
        }
        if val > 6553 || (val == 6553 && d > 5) {
            proof {
                if all_digits(t) {
                    lemma_digits_take(t, i - start + 1);
                }
            }
            return None;
        }
        val = val * 10 + d;
        i = i + 1;
    }
    proof {
        assert(t.take(len - start) =~= t);
    }
    Some(val as u16)
}

/// Reads a machine-word numeral, `None` when the string is not one or
/// overflows.
pub fn parse_usize(s: &str) -> (r: Option<usize>)
    ensures
        r == parsed_usize(s@),
{
    let len = s.unicode_len();
    if len == 0 {
        return None;
    }
    let first = s.get_char(0);
    let plus = first == '+';
    let start: usize = if plus {
        1
    } else {
        0
    };
    let ghost t = unsigned_part(s@);
    if start == len {
        return None;
    }
    let mut i: usize = start;
    let mut val: usize = 0;
    proof {
        assert(t.take(0) =~= Seq::<char>::empty());
    }
    while i < len
        invariant
            start <= i <= len,
            len == s@.len(),
            start == 1 <==> (s@.len() >= 1 && s@[0] == '+'),
            start <= 1,
            t == unsigned_part(s@),
            t.len() == len - start,
            forall|m: int| 0 <= m < t.len() ==> t[m] == s@[m + start],
            all_digits(t.take(i - start)),
            val == digits_val(t.take(i - start)),
        decreases len - i,
    {
        let c = s.get_char(i);
        let d32 = c as u32;
        proof {
            assert(t[i - start] == s@[i as int]);
        }
        if d32 < 48 || d32 > 57 {
            proof {
                assert(48 <= (t[i - start] as int) <= 57 ==> false);
            }
            return None;
        }
        let d = (d32 - 48) as usize;
        proof {
            assert(t.take(i - start + 1).drop_last() =~= t.take(i - start));
            assert(t.take(i - start + 1).last() == t[i - start]);
            assert(digits_val(t.take(i - start + 1)) == val * 10 + d);
            assert(all_digits(t.take(i - start + 1)));
        }
        if val > usize::MAX / 10 || (val == usize::MAX / 10 && d > usize::MAX % 10) {
            proof {
                assert((usize::MAX / 10) * 10 + (usize::MAX % 10) == usize::MAX as int);
                assert(val * 10 + d > usize::MAX as int);
                if all_digits(t) {
                    lemma_digits_take(t, i - start + 1);
                }
            }
            return None;
        }
        val = val * 10 + d;
        i = i + 1;
    }
    proof {
        assert(t.take(len - start) =~= t);
    }
    Some(val)
}

} // verus!
