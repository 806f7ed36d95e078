//! Decimal integer literals: which strings denote an integer, what value they
//! denote, and the canonical rendering of an integer back into digits.
use vstd::prelude::*;
use vstd::string::StrSliceExecFns;
use vstd::string::StringExecFns;

verus! {

/// A decimal digit character.
pub open spec fn is_digit(c: char) -> bool {
    48 <= c as int <= 57
}

/// Numeric value of a digit character.
pub open spec fn digit_val(c: char) -> int {
    c as int - 48
}

/// The digit character for a value in 0..10.
pub open spec fn digit_char(d: int) -> char {
    if d == 0 {
        '0'
    } else if d == 1 {
        '1'
    } else if d == 2 {
        '2'
    } else if d == 3 {
        '3'
    } else if d == 4 {
        '4'
    } else if d == 5 {
        '5'
    } else if d == 6 {
        '6'
    } else if d == 7 {
        '7'
    } else if d == 8 {
        '8'
    } else {
        '9'
    }
}

pub open spec fn all_digits(s: Seq<char>) -> bool {
    forall|i: int| 0 <= i < s.len() ==> is_digit(#[trigger] s[i])
}

/// Value of a digit string, most significant digit first.
pub open spec fn digits_val(s: Seq<char>) -> int
    decreases s.len(),
{
    if s.len() == 0 {
        0
    } else {
        digits_val(s.drop_last()) * 10 + digit_val(s.last())
    }
}

/// A string accepted as an integer literal: an optional leading minus sign
/// followed by one or more digits.
pub open spec fn valid_int_literal(s: Seq<char>) -> bool {
    if s.len() > 0 && s[0] == '-' {
        s.len() >= 2 && all_digits(s.skip(1))
    } else {
        s.len() >= 1 && all_digits(s)
    }
}

/// The integer denoted by a valid literal.
pub open spec fn literal_val(s: Seq<char>) -> int
    recommends
        valid_int_literal(s),
{
    if s.len() > 0 && s[0] == '-' {
        -digits_val(s.skip(1))
    } else {
        digits_val(s)
    }
}

/// Canonical digits of a non-negative value: no leading zeros.
pub open spec fn dec_digits(n: nat) -> Seq<char>
    decreases n,
{
    if n < 10 {
        seq![digit_char(n as int)]
    } else {
        dec_digits(n / 10).push(digit_char((n % 10) as int))
    }
}

/// Canonical decimal rendering of an integer: minus sign for negatives,
/// no leading zeros, no leading plus sign.
pub open spec fn int_to_dec(n: int) -> Seq<char> {
    if n < 0 {
        seq!['-'] + dec_digits((-n) as nat)
    } else {
        dec_digits(n as nat)
    }
}

/// The canonical digits of a value denote that value, are never empty, and
/// carry no leading zero (except for the single digit of zero itself).
pub proof fn lemma_dec_digits(n: nat)
    ensures
        dec_digits(n).len() >= 1,
        all_digits(dec_digits(n)),
        digits_val(dec_digits(n)) == n,
        dec_digits(n)[0] == '0' ==> n == 0,
    decreases n,
{
    if n < 10 {
        assert(dec_digits(n) =~= seq![digit_char(n as int)]);
        assert(dec_digits(n).drop_last() =~= Seq::<char>::empty());
        assert(dec_digits(n).last() == digit_char(n as int));
        assert(digit_val(digit_char(n as int)) == n);
        assert(digits_val(dec_digits(n)) == digits_val(dec_digits(n).drop_last()) * 10 + digit_val(
            dec_digits(n).last(),
        ));
    } else {
        lemma_dec_digits(n / 10);
        assert(dec_digits(n) =~= dec_digits(n / 10).push(digit_char((n % 10) as int)));
        assert(dec_digits(n).drop_last() =~= dec_digits(n / 10));
        assert(dec_digits(n).last() == digit_char((n % 10) as int));
        assert(digits_val(dec_digits(n)) == (n / 10) * 10 + n % 10);
        assert((n / 10) * 10 + n % 10 == n) by (nonlinear_arith);
        assert(dec_digits(n)[0] == dec_digits(n / 10)[0]);
    }
}

/// The canonical rendering of any integer is a valid literal that denotes
/// that same integer, and every character in it is a minus sign or a digit.
pub proof fn lemma_int_to_dec(n: int)
    ensures
        int_to_dec(n).len() >= 1,
        valid_int_literal(int_to_dec(n)),
        literal_val(int_to_dec(n)) == n,
        forall|i: int|
            0 <= i < int_to_dec(n).len() ==> (#[trigger] int_to_dec(n)[i] == '-' || is_digit(
                int_to_dec(n)[i],
            )),
{
    if n < 0 {
        lemma_dec_digits((-n) as nat);
        let s = int_to_dec(n);
        assert(s =~= seq!['-'] + dec_digits((-n) as nat));
        assert(s[0] == '-');
        assert(s.skip(1) =~= dec_digits((-n) as nat));
        assert(literal_val(s) == -digits_val(dec_digits((-n) as nat)));
        assert forall|i: int| 0 <= i < s.len() implies (#[trigger] s[i] == '-' || is_digit(
            s[i],
        )) by {
            if i >= 1 {
                assert(s[i] == dec_digits((-n) as nat)[i - 1]);
            }
        }
    } else {
        lemma_dec_digits(n as nat);
        let s = int_to_dec(n);
        assert(s == dec_digits(n as nat));
        assert(is_digit(s[0]));
        assert(s[0] != '-');
    }
}

/// Digit strings denote non-negative values.
pub proof fn lemma_digits_val_nonneg(s: Seq<char>)
    requires
        all_digits(s),
    ensures
        digits_val(s) >= 0,
    decreases s.len(),
{
    if s.len() > 0 {
        assert(all_digits(s.drop_last())) by {
            assert(forall|i: int|
                0 <= i < s.drop_last().len() ==> #[trigger] s.drop_last()[i] == s[i]);
        }
        lemma_digits_val_nonneg(s.drop_last());
        assert(digit_val(s.last()) >= 0);
    }
}

/// Extending a digit string with further digits never decreases its value.
pub proof fn lemma_digits_val_prefix(s: Seq<char>, i: int)
    requires
        all_digits(s),
        0 <= i <= s.len(),
    ensures
        digits_val(s.take(i)) <= digits_val(s),
    decreases s.len() - i,
{
    if i == s.len() {
        assert(s.take(i) =~= s);
    } else {
        assert(all_digits(s.take(i))) by {
            assert(forall|k: int| 0 <= k < i ==> #[trigger] s.take(i)[k] == s[k]);
        }
        lemma_digits_val_nonneg(s.take(i));
        assert(s.take(i + 1).drop_last() =~= s.take(i));
        assert(s.take(i + 1).last() == s[i]);
        assert(digits_val(s.take(i + 1)) == digits_val(s.take(i)) * 10 + digit_val(s[i]));
        assert(digits_val(s.take(i)) * 10 >= digits_val(s.take(i))) by (nonlinear_arith)
            requires
                digits_val(s.take(i)) >= 0,
        ;
        lemma_digits_val_prefix(s, i + 1);
    }
}

/// One-character string for a digit value.
fn digit_str(d: u64) -> (s: &'static str)
    requires
        d < 10,
    ensures
        s@ == seq![digit_char(d as int)],
{
    let r: &'static str = if d == 0 {
        "0"
    } else if d == 1 {
        "1"
    } else if d == 2 {
        "2"
    } else if d == 3 {
        "3"
    } else if d == 4 {
        "4"
    } else if d == 5 {
        "5"
    } else if d == 6 {
        "6"
    } else if d == 7 {
        "7"
    } else if d == 8 {
        "8"
    } else {
        "9"
    };
    proof {
        reveal_strlit("0");
        reveal_strlit("1");
        reveal_strlit("2");
        reveal_strlit("3");
        reveal_strlit("4");
        reveal_strlit("5");
        reveal_strlit("6");
        reveal_strlit("7");
        reveal_strlit("8");
        reveal_strlit("9");
        assert(r@ =~= seq![digit_char(d as int)]);
    }
    r
}

/// Canonical digit string of a non-negative value.
fn dec_string(m: u64) -> (s: String)
    ensures
        s@ == dec_digits(m as nat),
    decreases m,
{
    if m < 10 {
        let s = String::from_str(digit_str(m));
        proof {
            assert(s@ =~= dec_digits(m as nat));
        }
        s
    } else {
        let mut s = dec_string(m / 10);
        s.append(digit_str(m % 10));
        proof {
            assert(s@ =~= dec_digits(m as nat));
        }
        s
    }
}

/// Render an integer in canonical decimal form.
pub fn int_to_string(n: i32) -> (s: String)
    ensures
        s@ == int_to_dec(n as int),
{
    if n >= 0 {
        let s = dec_string(n as u64);
        proof {
            assert(s@ == int_to_dec(n as int));
        }
        s
    } else {
        let m: u64 = (-(n as i64)) as u64;
        let mut s = String::from_str("-");
        let digits = dec_string(m);
        s.append(digits.as_str());
        proof {
            reveal_strlit("-");
            assert(m as nat == (-(n as int)) as nat);
            assert(s@ =~= int_to_dec(n as int));
        }
        s
    }
}

/// Parse a string as a signed decimal integer.
///
/// Succeeds exactly on valid literals whose value fits the integer range;
/// the returned value is the one the literal denotes.
pub fn parse_int(s: &str) -> (r: Option<i32>)
    ensures
        r is Some <==> valid_int_literal(s@) && i32::MIN <= literal_val(s@) <= i32::MAX,
        r matches Some(v) ==> v as int == literal_val(s@),
{
    let len = s.unicode_len();
    if len == 0 {
        return None;
    }
    let neg = s.get_char(0) == '-';
    let start: usize = if neg {
        1
    } else {
        0
    };
    if start == len {
        return None;
    }
    let mut i: usize = start;
    let mut mag: u64 = 0;
    while i < len
        invariant
            len == s@.len(),
            0 < len,
            neg == (s@[0] == '-'),
            start == if neg { 1int } else { 0int },
            start <= i <= len,
            start < len,
            forall|k: int| start <= k < i ==> is_digit(#[trigger] s@[k]),
            mag as int == digits_val(s@.subrange(start as int, i as int)),
            mag <= 0x8000_0000u64,
        decreases len - i,
    {
        let c = s.get_char(i);
        let cv = c as u32;
        if cv < 48 || cv > 57 {
            proof {
                assert(!is_digit(s@[i as int]));
                if neg {
                    assert(s@.skip(1)[i - 1] == s@[i as int]);
                    assert(!all_digits(s@.skip(1)));
                } else {
                    assert(!all_digits(s@));
                }
            }
            return None;
        }
        let d: u64 = (cv - 48) as u64;
        mag = mag * 10 + d;
        proof {
            assert(s@.subrange(start as int, i + 1).drop_last() =~= s@.subrange(
                start as int,
                i as int,
            ));
            assert(s@.subrange(start as int, i + 1).last() == s@[i as int]);
        }
        if mag > 0x8000_0000 {
            proof {
                let digits = s@.subrange(start as int, len as int);
                assert(s@.subrange(start as int, i + 1) =~= digits.take(i + 1 - start));
                if valid_int_literal(s@) {
                    assert(all_digits(digits)) by {
                        if neg {
                            assert(forall|k: int|
                                0 <= k < digits.len() ==> #[trigger] digits[k] == s@.skip(1)[k]);
                        } else {
                            assert(forall|k: int|
                                0 <= k < digits.len() ==> #[trigger] digits[k] == s@[k]);
                        }
                    }
                    lemma_digits_val_prefix(digits, i + 1 - start);
                    if neg {
                        assert(s@.skip(1) =~= digits);
                        assert(literal_val(s@) == -digits_val(digits));
                        assert(literal_val(s@) < i32::MIN);
                    } else {
                        assert(s@ =~= digits);
                        assert(literal_val(s@) > i32::MAX);
                    }
                }
            }
            return None;
        }
        i = i + 1;
    }
    proof {
        let digits = s@.subrange(start as int, len as int);
        assert(all_digits(digits)) by {
            assert(forall|k: int|
                0 <= k < digits.len() ==> #[trigger] digits[k] == s@[k + start]);
        }
        if neg {
            assert(s@.skip(1) =~= digits);
            assert(valid_int_literal(s@));
            assert(literal_val(s@) == -(mag as int));
        } else {
            assert(s@ =~= digits);
            assert(valid_int_literal(s@));
            assert(literal_val(s@) == mag as int);
        }
    }
    if neg {
        if mag == 0x8000_0000 {
            Some(i32::MIN)
        } else {
            Some(-(mag as i32))
        }
    } else {
        if mag > 0x7FFF_FFFF {
            None
        } else {
            Some(mag as i32)
        }
    }
}

} // verus!
