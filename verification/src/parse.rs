//! Verified parsing of the decimal integer text that hardware endpoints expose.
//!
//! Every sensor attribute is a short text value; the controller's decisions
//! depend on the integers inside. The grammar is an optional sign followed by
//! one or more decimal digits, and a value is accepted only when it fits in
//! an `i32`; anything else is a parse failure, which the caller treats as
//! fatal.

use vstd::prelude::*;

verus! {

/// One decimal digit.
pub open spec fn is_digit(c: char) -> bool {
    48 <= c as u32 && c as u32 <= 57
}

/// Numeric value of one decimal digit.
pub open spec fn digit_val(c: char) -> int {
    c as u32 - 48
}

/// Every character of `s` is a decimal digit.
pub open spec fn all_digits(s: Seq<char>) -> bool {
    forall|i: int| 0 <= i < s.len() ==> is_digit(#[trigger] s[i])
}

/// Value of a digit string read most-significant first.
pub open spec fn digits_val(s: Seq<char>) -> int
    decreases s.len(),
{
    if s.len() == 0 {
        0
    } else {
        digits_val(s.drop_last()) * 10 + digit_val(s.last())
    }
}

/// The text is an optional `+` or `-` sign followed by at least one digit.
pub open spec fn int_text_shape(s: Seq<char>) -> bool {
    if s.len() == 0 {
        false
    } else if s[0] == '+' || s[0] == '-' {
        s.len() >= 2 && all_digits(s.skip(1))
    } else {
        all_digits(s)
    }
}

/// Signed value of well-shaped integer text.
pub open spec fn int_text_val(s: Seq<char>) -> int {
    if s.len() > 0 && s[0] == '-' {
        -digits_val(s.skip(1))
    } else if s.len() > 0 && s[0] == '+' {
        digits_val(s.skip(1))
    } else {
        digits_val(s)
    }
}

/// The text denotes an integer that fits in an `i32`.
pub open spec fn valid_i32_text(s: Seq<char>) -> bool {
    &&& int_text_shape(s)
    &&& -2147483648 <= int_text_val(s) <= 2147483647
}

/// A digit string's value is never negative.
pub proof fn lemma_digits_val_nonneg(s: Seq<char>)
    requires
        all_digits(s),
    ensures
        digits_val(s) >= 0,
    decreases s.len(),
{
    if s.len() > 0 {
        assert(all_digits(s.drop_last()));
        lemma_digits_val_nonneg(s.drop_last());
    }
}

/// Parses signed decimal text exactly as the controller needs it: `Some`
/// precisely on well-shaped text whose value fits in an `i32`.
pub fn parse_i32(text: &str) -> (r: Option<i32>)
    ensures
        r is Some <==> valid_i32_text(text@),
        r is Some ==> r->Some_0 == int_text_val(text@),
{
    let n = text.unicode_len();
    if n == 0 {
        return None;
    }
    let first = text.get_char(0);
    let neg = first == '-';
    let start: usize = if first == '-' || first == '+' {
        1
    } else {
        0
    };
    if n == start {
        // a bare sign has no digits
        return None;
    }
    let mut i = start;
    let mut acc: u64 = 0;
    let mut over = false;
    while i < n
        invariant
            start <= i <= n,
            start == 0 || start == 1,
            n == text@.len(),
            start == 1 ==> (text@[0] == '-' || text@[0] == '+'),
            start == 0 ==> !(text@[0] == '-' || text@[0] == '+'),
            neg == (text@[0] == '-'),
            all_digits(text@.subrange(start as int, i as int)),
            !over ==> acc == digits_val(text@.subrange(start as int, i as int)),
            !over ==> acc <= 0x8000_0000,
            over ==> digits_val(text@.subrange(start as int, i as int)) > 0x8000_0000,
        decreases n - i,
    {
        let c = text.get_char(i);
        let cv = c as u32;
        if cv < 48 || cv > 57 {
            // a non-digit after the sign: the shape is broken
            proof {
                let rest = text@.skip(start as int);
                assert(rest[i - start] == text@[i as int]);
                assert(!is_digit(rest[i - start]));
                assert(!all_digits(rest));
                if start == 0 {
                    assert(text@.skip(0) =~= text@);
                }
                assert(!int_text_shape(text@));
            }
            return None;
        }
        proof {
            let prefix = text@.subrange(start as int, i as int);
            let grown = text@.subrange(start as int, i + 1);
            assert(grown.drop_last() =~= prefix);
            assert(grown.last() == text@[i as int]);
            assert(all_digits(grown));
            if over {
                lemma_digits_val_nonneg(prefix);
                assert(digits_val(grown) == digits_val(prefix) * 10 + digit_val(grown.last()));
                assert(digits_val(prefix) * 10 >= digits_val(prefix)) by (nonlinear_arith)
                    requires digits_val(prefix) >= 0;
            }
        }
        if !over {
            acc = acc * 10 + (cv - 48) as u64;
            if acc > 0x8000_0000 {
                over = true;
            }
        }
        i = i + 1;
    }
    proof {
        assert(text@.subrange(start as int, n as int) =~= text@.skip(start as int));
        if start == 0 {
            assert(text@.skip(0) =~= text@);
        }
    }
    if over {
        // magnitude above 2^31 can fit no i32 of either sign
        return None;
    }
    if neg {
        if acc == 0x8000_0000 {
            Some(i32::MIN)
        } else {
            Some(-(acc as i32))
        }
    } else {
        if acc > 0x7FFF_FFFF {
            // 2^31 is representable only as a negative value
            return None;
        }
        Some(acc as i32)
    }
}

} // verus!
