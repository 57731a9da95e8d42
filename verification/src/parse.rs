//! Reading an unsigned integer out of one line of input: ASCII whitespace
//! is trimmed from both ends, an optional leading `+` is accepted, and the
//! decimal digits must fit the machine word. The caller hands in the raw
//! bytes of the line.
use vstd::prelude::*;

verus! {

/// ASCII whitespace, as trimming understands it.
pub open spec fn is_space(b: u8) -> bool {
    b == 32 || b == 9 || b == 10 || b == 13 || b == 11 || b == 12
}

/// The bytes with leading whitespace removed.
pub open spec fn trim_front(s: Seq<u8>) -> Seq<u8>
    decreases s.len(),
{
    if s.len() > 0 && is_space(s[0]) {
        trim_front(s.drop_first())
    } else {
        s
    }
}

/// The bytes with trailing whitespace removed.
pub open spec fn trim_back(s: Seq<u8>) -> Seq<u8>
    decreases s.len(),
{
    if s.len() > 0 && is_space(s[s.len() - 1]) {
        trim_back(s.drop_last())
    } else {
        s
    }
}

/// Whitespace trimmed from both ends.
pub open spec fn trimmed(s: Seq<u8>) -> Seq<u8> {
    trim_back(trim_front(s))
}

pub open spec fn is_digit(b: u8) -> bool {
    48 <= b <= 57
}

/// One or more decimal digits and nothing else.
pub open spec fn all_digits(s: Seq<u8>) -> bool {
    s.len() > 0 && forall|i: int| 0 <= i < s.len() ==> is_digit(#[trigger] s[i])
}

/// The number the digits denote, most significant first.
pub open spec fn digits_value(s: Seq<u8>) -> nat
    decreases s.len(),
{
    if s.len() == 0 {
        0
    } else {
        digits_value(s.drop_last()) * 10 + (s[s.len() - 1] - 48) as nat
    }
}

/// The digit bytes of the trimmed input, once an optional leading `+` is
/// taken off.
pub open spec fn digits_of(s: Seq<u8>) -> Seq<u8> {
    let t = trimmed(s);
    if t.len() > 0 && t[0] == 43 {
        t.drop_first()
    } else {
        t
    }
}

/// The input holds one unsigned decimal number that fits a machine word.
pub open spec fn parses_to_usize(s: Seq<u8>) -> bool {
    all_digits(digits_of(s)) && digits_value(digits_of(s)) <= usize::MAX as nat
}

/// A digit prefix denotes no more than the whole digit string.
proof fn lemma_digits_value_prefix(s: Seq<u8>, t: int)
    requires
        0 <= t <= s.len(),
    ensures
        digits_value(s.take(t)) <= digits_value(s),
    decreases s.len() - t,
{
    if t == s.len() {
        assert(s.take(t) =~= s);
    } else {
        lemma_digits_value_prefix(s, t + 1);
        assert(s.take(t + 1).drop_last() =~= s.take(t));
        assert(digits_value(s.take(t + 1)) == digits_value(s.take(t)) * 10 + (s[t] - 48) as nat);
    }
}

/// Parses the bytes of one input line as an unsigned integer: whitespace
/// is trimmed, a single leading `+` is allowed, and `None` is returned for
/// anything that is not a number or does not fit, exactly as
/// `parses_to_usize` describes.
pub fn read_usize(input: &Vec<u8>) -> (r: Option<usize>)
    ensures
        match r {
            Some(v) => parses_to_usize(input@) && v as nat == digits_value(digits_of(input@)),
            None => !parses_to_usize(input@),
        },
{
    let len = input.len();
    let mut start: usize = 0;
    proof {
        assert(input@.skip(0) =~= input@);
    }
    while start < len && is_space_byte(input[start])
        invariant
            len == input@.len(),
            start <= len,
            trim_front(input@) == trim_front(input@.skip(start as int)),
        decreases len - start,
    {
        proof {
            assert(input@.skip(start as int)[0] == input@[start as int]);
            assert(input@.skip(start as int).drop_first() =~= input@.skip(start + 1));
        }
        start += 1;
    }
    let mut stop: usize = len;
    proof {
        assert(input@.skip(start as int) =~= input@.subrange(start as int, len as int));
        if start < len {
            assert(input@.skip(start as int)[0] == input@[start as int]);
        }
        assert(trim_front(input@.skip(start as int)) == input@.skip(start as int));
        assert(trim_front(input@) == input@.subrange(start as int, stop as int));
    }
    while stop > start && is_space_byte(input[stop - 1])
        invariant
            len == input@.len(),
            start <= stop <= len,
            trimmed(input@) == trim_back(input@.subrange(start as int, stop as int)),
        decreases stop,
    {
        proof {
            let t = input@.subrange(start as int, stop as int);
            assert(t[t.len() - 1] == input@[stop - 1]);
            assert(t.drop_last() =~= input@.subrange(start as int, stop - 1));
        }
        stop -= 1;
    }
    proof {
        let t = input@.subrange(start as int, stop as int);
        if t.len() > 0 {
            assert(t[t.len() - 1] == input@[stop - 1]);
        }
        assert(trim_back(t) == t);
        assert(trimmed(input@) == t);
    }
    let mut digit_start = start;
    if stop > start && input[start] == 43 {
        digit_start = start + 1;
        proof {
            assert(trimmed(input@)[0] == 43);
            assert(trimmed(input@).drop_first() =~= input@.subrange(digit_start as int, stop as int));
        }
    } else {
        proof {
            if trimmed(input@).len() > 0 {
                assert(trimmed(input@)[0] == input@[start as int]);
            }
        }
    }
    let ghost digits = digits_of(input@);
    proof {
        assert(digits =~= input@.subrange(digit_start as int, stop as int));
    }
    if digit_start == stop {
        proof {
            assert(digits.len() == 0);
        }
        return None;
    }
    let mut value: usize = 0;
    let mut i = digit_start;
    while i < stop
        invariant
            len == input@.len(),
            digit_start <= i <= stop <= len,
            digit_start < stop,
            digits == digits_of(input@),
            digits == input@.subrange(digit_start as int, stop as int),
            forall|t: int| digit_start <= t < i ==> is_digit(#[trigger] input@[t]),
            value as nat == digits_value(digits.take(i - digit_start)),
        decreases stop - i,
    {
        let b = input[i];
        if b < 48 || b > 57 {
            proof {
                assert(digits[i - digit_start] == input@[i as int]);
                assert(!all_digits(digits));
            }
            return None;
        }
        let d = (b - 48) as usize;
        if value > (usize::MAX - d) / 10 {
            proof {
                assert(digits.take(i - digit_start + 1).drop_last() =~= digits.take(
                    i - digit_start,
                ));
                assert(digits.take(i - digit_start + 1)[i - digit_start] == input@[i as int]);
                assert(digits_value(digits.take(i - digit_start + 1)) == (value as nat) * 10
                    + d as nat);
                assert((value as nat) * 10 + d as nat > usize::MAX as nat) by (nonlinear_arith)
                    requires
                        value > (usize::MAX - d) / 10,
                        d <= 9,
                        value <= usize::MAX,
                ;
                lemma_digits_value_prefix(digits, i - digit_start + 1);
            }
            return None;
        }
        proof {
            assert((value as nat) * 10 + d as nat <= usize::MAX as nat) by (nonlinear_arith)
                requires
                    value <= (usize::MAX - d) / 10,
                    d <= 9,
            ;
            assert(digits.take(i - digit_start + 1).drop_last() =~= digits.take(i - digit_start));
            assert(digits.take(i - digit_start + 1)[i - digit_start] == input@[i as int]);
        }
        value = value * 10 + d;
        i += 1;
    }
    proof {
        assert(digits.take(stop - digit_start) =~= digits);
        assert(all_digits(digits)) by {
            assert forall|t: int| 0 <= t < digits.len() implies is_digit(#[trigger] digits[t]) by {
                assert(digits[t] == input@[digit_start + t]);
            }
        }
    }
    Some(value)
}

/// The executable twin of `is_space`.
fn is_space_byte(b: u8) -> (r: bool)
    ensures
        r == is_space(b),
{
    b == 32 || b == 9 || b == 10 || b == 13 || b == 11 || b == 12
}

} // verus!
