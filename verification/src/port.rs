//! Port validation for the listener role: a port argument is accepted when
//! it is a decimal numeral (an optional leading `+`, then digits) whose
//! value lies in 1..=65535.  A string that is not a numeral at all — or
//! whose value does not even fit in 64 bits — is `NotANumber`; a numeral
//! whose value is 0 or above 65535 is `OutOfRange`.

use vstd::prelude::*;
use vstd::string::StrSliceExecFns;

verus! {

/// Why a port argument was rejected.
#[derive(Clone, Copy, Debug, PartialEq, Eq, Structural)]
pub enum PortError {
    NotANumber,
    OutOfRange,
}

/// An ASCII decimal digit.
pub open spec fn is_digit(c: char) -> bool {
    48 <= c as u32 && c as u32 <= 57
}

/// The numeric value of an ASCII decimal digit.
pub open spec fn digit_val(c: char) -> int {
    c as u32 - 48
}

/// The value of a digit string, most significant digit first.
pub open spec fn digits_value(cs: Seq<char>) -> int
    decreases cs.len(),
{
    if cs.len() == 0 {
        0
    } else {
        digits_value(cs.drop_last()) * 10 + digit_val(cs.last())
    }
}

/// The digit part of a numeral: everything after an optional leading `+`.
pub open spec fn numeral_body(cs: Seq<char>) -> Seq<char> {
    if cs.len() > 0 && cs[0] == '+' {
        cs.drop_first()
    } else {
        cs
    }
}

/// A decimal numeral: an optional leading `+`, then one or more digits.
pub open spec fn is_numeral(cs: Seq<char>) -> bool {
    numeral_body(cs).len() > 0 && (forall|i: int|
        0 <= i < numeral_body(cs).len() ==> is_digit(numeral_body(cs)[i]))
}

/// The value a numeral denotes.
pub open spec fn numeral_value(cs: Seq<char>) -> int {
    digits_value(numeral_body(cs))
}

/// A digit string denotes a non-negative value.
proof fn lemma_digits_value_nonneg(cs: Seq<char>)
    requires
        forall|i: int| 0 <= i < cs.len() ==> is_digit(cs[i]),
    ensures
        digits_value(cs) >= 0,
    decreases cs.len(),
{
    if cs.len() > 0 {
        lemma_digits_value_nonneg(cs.drop_last());
    }
}

/// Appending digits never shrinks the value: a prefix of a digit string
/// denotes at most what the whole string denotes.
proof fn lemma_digits_value_prefix_le(cs: Seq<char>, k: int)
    requires
        0 <= k <= cs.len(),
        forall|i: int| 0 <= i < cs.len() ==> is_digit(cs[i]),
    ensures
        digits_value(cs.subrange(0, k)) <= digits_value(cs),
    decreases cs.len() - k,
{
    if k == cs.len() {
        assert(cs.subrange(0, k) =~= cs);
    } else {
        let shorter = cs.subrange(0, k);
        let longer = cs.subrange(0, k + 1);
        assert(longer.drop_last() =~= shorter);
        assert(forall|i: int| 0 <= i < shorter.len() ==> is_digit(shorter[i]));
        lemma_digits_value_nonneg(shorter);
        assert(digits_value(longer) == digits_value(shorter) * 10 + digit_val(longer.last()));
        assert(digits_value(shorter) <= digits_value(longer));
        lemma_digits_value_prefix_le(cs, k + 1);
    }
}

/// Validate a port argument: `Ok` exactly when the string is a decimal
/// numeral whose value is in 1..=65535, and then the returned port is that
/// value.  `NotANumber` exactly when the string is not a numeral or its
/// value exceeds `u64::MAX`; `OutOfRange` exactly when it is a numeral
/// denoting 0 or a value above 65535 that still fits in 64 bits.
pub fn port_in_range(s: &str) -> (r: Result<u16, PortError>)
    ensures
        r is Ok <==> is_numeral(s@) && 1 <= numeral_value(s@) <= 65535,
        r is Ok ==> r->Ok_0 == numeral_value(s@),
        (r == Err::<u16, PortError>(PortError::NotANumber)) <==> (!is_numeral(s@)
            || numeral_value(s@) > u64::MAX),
        (r == Err::<u16, PortError>(PortError::OutOfRange)) <==> (is_numeral(s@) && (
        numeral_value(s@) == 0 || (65535 < numeral_value(s@) <= u64::MAX))),
{
    let n = s.unicode_len();
    let has_sign = n > 0 && s.get_char(0) == '+';
    let mut i: usize = if has_sign {
        1
    } else {
        0
    };
    let ghost start = i as int;
    let ghost body = numeral_body(s@);
    proof {
        assert(body =~= s@.skip(start));
    }
    if i == n {
        proof {
            assert(body.len() == 0);
        }
        return Err(PortError::NotANumber);
    }
    let mut val: u64 = 0;
    while i < n
        invariant
            start <= i <= n,
            n == s@.len(),
            0 <= start <= 1,
            body == numeral_body(s@),
            body =~= s@.skip(start),
            forall|k: int| 0 <= k < i - start ==> is_digit(body[k]),
            val == digits_value(body.subrange(0, i - start)),
        decreases n - i,
    {
        let c = s.get_char(i);
        let u = c as u32;
        proof {
            assert(body[i - start] == s@[i as int]);
        }
        if u < 48 || u > 57 {
            proof {
                assert(!is_digit(body[i - start]));
                assert(!is_numeral(s@));
            }
            return Err(PortError::NotANumber);
        }
        let d: u64 = (u - 48) as u64;
        let ghost k = i - start + 1;
        proof {
            assert(body.subrange(0, k).drop_last() =~= body.subrange(0, i - start));
            assert(body.subrange(0, k).last() == body[i - start]);
            assert(digits_value(body.subrange(0, k)) == val * 10 + d);
        }
        let next = match val.checked_mul(10) {
            Some(p) => p.checked_add(d),
            None => None,
        };
        match next {
            Some(v) => {
                val = v;
            },
            None => {
                proof {
                    if is_numeral(s@) {
                        lemma_digits_value_prefix_le(body, k);
                    }
                }
                return Err(PortError::NotANumber);
            },
        }
        i = i + 1;
    }
    proof {
        assert(body.subrange(0, n - start) =~= body);
        assert(is_numeral(s@));
        assert(val == numeral_value(s@));
    }
    if val == 0 || val > 65535 {
        return Err(PortError::OutOfRange);
    }
    Ok(val as u16)
}

} // verus!
