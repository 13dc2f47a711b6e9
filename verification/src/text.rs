//! Lexical conversions: text to booleans and integers, and the character
//! level string utilities the field matcher needs.
//!
//! The boolean literals are exactly `"yes"` and `"no"` — a deliberate
//! domain convention of the documents this decoder targets, not general
//! boolean parsing.  Integer text follows the standard decimal convention:
//! an optional sign followed by at least one digit.

use vstd::prelude::*;
use vstd::string::*;

use crate::error::Error;

verus! {

/// Whether `c` is a decimal digit.
pub open spec fn is_digit_char(c: char) -> bool {
    '0' <= c && c <= '9'
}

/// The numeric value of a digit character.
pub open spec fn digit_val(c: char) -> nat {
    (c as u32 - '0' as u32) as nat
}

/// Whether every character of `s` is a decimal digit.
pub open spec fn all_digits(s: Seq<char>) -> bool {
    forall|i: int| 0 <= i < s.len() ==> is_digit_char(#[trigger] s[i])
}

/// The value of a digit string read in base ten.
pub open spec fn digits_val(s: Seq<char>) -> nat
    decreases s.len(),
{
    if s.len() == 0 {
        0
    } else {
        digits_val(s.drop_last()) * 10 + digit_val(s.last())
    }
}

/// The digit part of unsigned integer text: everything after an optional
/// leading `'+'`.
pub open spec fn unsigned_body(s: Seq<char>) -> Seq<char> {
    if s.len() > 0 && s[0] == '+' {
        s.drop_first()
    } else {
        s
    }
}

/// Whether `s` is well-formed unsigned decimal text.
pub open spec fn is_unsigned_text(s: Seq<char>) -> bool {
    unsigned_body(s).len() > 0 && all_digits(unsigned_body(s))
}

/// The value of well-formed unsigned decimal text.
pub open spec fn unsigned_val(s: Seq<char>) -> nat {
    digits_val(unsigned_body(s))
}

/// Whether `s` is well-formed negative decimal text: `'-'` then digits.
pub open spec fn is_negative_text(s: Seq<char>) -> bool {
    s.len() > 1 && s[0] == '-' && all_digits(s.drop_first())
}

/// Whether `s` is well-formed signed decimal text.
pub open spec fn is_signed_text(s: Seq<char>) -> bool {
    is_unsigned_text(s) || is_negative_text(s)
}

/// The value of well-formed signed decimal text.
pub open spec fn signed_val(s: Seq<char>) -> int {
    if is_negative_text(s) {
        -(digits_val(s.drop_first()) as int)
    } else {
        unsigned_val(s) as int
    }
}

/// Appending a digit multiplies the value by ten and adds the digit.
proof fn lemma_digits_val_push(s: Seq<char>, c: char)
    ensures
        digits_val(s.push(c)) == digits_val(s) * 10 + digit_val(c),
{
    assert(s.push(c).drop_last() =~= s);
    assert(s.push(c).last() == c);
}

/// Extending a digit string never decreases its value.
proof fn lemma_digits_val_mono(s: Seq<char>, t: Seq<char>)
    ensures
        digits_val(s + t) >= digits_val(s),
    decreases t.len(),
{
    if t.len() == 0 {
        assert(s + t =~= s);
    } else {
        lemma_digits_val_mono(s, t.drop_last());
        assert((s + t).drop_last() =~= s + t.drop_last());
        assert(digits_val(s + t) == digits_val(s + t.drop_last()) * 10 + digit_val((s + t).last()));
    }
}

/// Character-for-character string equality, reflected to the views.
pub fn str_eq(a: &str, b: &str) -> (r: bool)
    ensures
        r == (a@ == b@),
{
    let an = a.unicode_len();
    let bn = b.unicode_len();
    if an != bn {
        proof {
            assert(a@ != b@) by {
                if a@ == b@ {
                    assert(a@.len() == b@.len());
                }
            }
        }
        return false;
    }
    let mut i: usize = 0;
    while i < an
        invariant
            i <= an,
            an == a@.len(),
            an == b@.len(),
            forall|j: int| 0 <= j < i ==> a@[j] == b@[j],
        decreases an - i,
    {
        if a.get_char(i) != b.get_char(i) {
            return false;
        }
        i += 1;
    }
    proof {
        assert(a@ =~= b@);
    }
    true
}

/// Parses the digit run `s[start..]` in base ten, refusing values above
/// `limit` and any non-digit character.
fn parse_digits(s: &str, start: usize, limit: u128) -> (r: Result<u128, Error>)
    requires
        start <= s@.len(),
    ensures
        match r {
            Ok(v) => {
                let body = s@.subrange(start as int, s@.len() as int);
                &&& body.len() > 0
                &&& all_digits(body)
                &&& v == digits_val(body)
                &&& v <= limit
            },
            Err(_) => {
                let body = s@.subrange(start as int, s@.len() as int);
                !(body.len() > 0 && all_digits(body) && digits_val(body) <= limit)
            },
        },
{
    let ghost body = s@.subrange(start as int, s@.len() as int);
    let n = s.unicode_len();
    if start == n {
        return Err(Error::custom(String::from_str("cannot parse integer from empty string")));
    }
    let mut acc: u128 = 0;
    let mut i: usize = start;
    while i < n
        invariant
            start <= i <= n,
            n == s@.len(),
            body == s@.subrange(start as int, s@.len() as int),
            all_digits(s@.subrange(start as int, i as int)),
            acc == digits_val(s@.subrange(start as int, i as int)),
            acc <= limit,
        decreases n - i,
    {
        let c = s.get_char(i);
        let ghost prefix = s@.subrange(start as int, i as int);
        if c < '0' || c > '9' {
            proof {
                assert(body[i - start] == c);
                assert(!all_digits(body));
            }
            return Err(Error::custom(String::from_str("invalid digit found in string")));
        }
        let d: u128 = (c as u32 - 48) as u128;
        proof {
            assert(s@.subrange(start as int, i + 1 as int) =~= prefix.push(c));
            lemma_digits_val_push(prefix, c);
        }
        let overflow: bool = acc > limit / 10 || {
            let shifted = acc * 10;
            d > limit - shifted
        };
        if overflow {
            proof {
                let grown = s@.subrange(start as int, i + 1 as int);
                assert(digits_val(grown) > limit) by {
                    assert(acc * 10 + d > limit) by {
                        if acc > limit / 10 {
                            assert(acc >= limit / 10 + 1);
                            assert((limit / 10 + 1) * 10 > limit) by (nonlinear_arith);
                            assert(acc * 10 >= (limit / 10 + 1) * 10) by (nonlinear_arith)
                                requires
                                    acc >= limit / 10 + 1,
                            ;
                        }
                    }
                }
                if body.len() > 0 && all_digits(body) {
                    assert(body =~= grown + s@.subrange(i + 1 as int, n as int));
                    lemma_digits_val_mono(grown, s@.subrange(i + 1 as int, n as int));
                }
            }
            return Err(Error::custom(String::from_str("number too large to fit in target type")));
        }
        proof {
            assert(acc <= limit / 10);
            assert(acc * 10 <= (limit / 10) * 10) by (nonlinear_arith)
                requires
                    acc <= limit / 10,
            ;
            assert((limit / 10) * 10 <= limit);
        }
        acc = acc * 10 + d;
        i += 1;
    }
    proof {
        assert(s@.subrange(start as int, i as int) =~= body);
    }
    Ok(acc)
}

/// Whether `s` is unsigned decimal text denoting exactly `idx`.
///
/// The field matcher uses this to recognise a flatten field written as the
/// decimal text of the current flatten index.
pub fn denotes_index(s: &str, idx: u128) -> (r: bool)
    ensures
        r == (is_unsigned_text(s@) && unsigned_val(s@) == idx),
{
    let n = s.unicode_len();
    let start: usize = if n > 0 && s.get_char(0) == '+' {
        1
    } else {
        0
    };
    proof {
        if start == 1 {
            assert(s@.subrange(1, s@.len() as int) =~= unsigned_body(s@));
        } else {
            assert(s@.subrange(0, s@.len() as int) =~= unsigned_body(s@));
        }
    }
    match parse_digits(s, start, u128::MAX) {
        Ok(v) => v == idx,
        Err(_) => false,
    }
}

/// Parses unsigned decimal text with the given upper bound.
fn parse_unsigned(s: &str, limit: u64) -> (r: Result<u64, Error>)
    ensures
        match r {
            Ok(v) => is_unsigned_text(s@) && unsigned_val(s@) <= limit && v == unsigned_val(s@),
            Err(_) => !(is_unsigned_text(s@) && unsigned_val(s@) <= limit),
        },
{
    let n = s.unicode_len();
    let start: usize = if n > 0 && s.get_char(0) == '+' {
        1
    } else {
        0
    };
    proof {
        if start == 1 {
            assert(s@.subrange(1, s@.len() as int) =~= unsigned_body(s@));
        } else {
            assert(s@.subrange(0, s@.len() as int) =~= unsigned_body(s@));
        }
    }
    match parse_digits(s, start, limit as u128) {
        Ok(v) => Ok(v as u64),
        Err(e) => Err(e),
    }
}

/// Parses signed decimal text whose value must lie in `[-mag_min, mag_max]`.
fn parse_signed(s: &str, mag_min: u64, mag_max: u64) -> (r: Result<i64, Error>)
    requires
        mag_min <= i64::MAX,
        mag_max <= i64::MAX,
    ensures
        match r {
            Ok(v) => {
                &&& is_signed_text(s@)
                &&& -(mag_min as int) <= signed_val(s@) <= mag_max as int
                &&& v == signed_val(s@)
            },
            Err(_) => !(is_signed_text(s@) && -(mag_min as int) <= signed_val(s@) <= mag_max
                as int),
        },
{
    let n = s.unicode_len();
    if n > 0 && s.get_char(0) == '-' {
        proof {
            assert(s@.subrange(1, s@.len() as int) =~= s@.drop_first());
        }
        match parse_digits(s, 1, mag_min as u128) {
            Ok(v) => {
                proof {
                    assert(is_negative_text(s@));
                    assert(!is_unsigned_text(s@));
                }
                Ok(-(v as i64))
            },
            Err(e) => Err(e),
        }
    } else {
        proof {
            if n > 0 && s@[0] == '+' {
                assert(s@.subrange(1, s@.len() as int) =~= unsigned_body(s@));
            } else {
                assert(s@.subrange(0, s@.len() as int) =~= unsigned_body(s@));
                assert(!is_negative_text(s@));
            }
        }
        let start: usize = if n > 0 && s.get_char(0) == '+' {
            1
        } else {
            0
        };
        match parse_digits(s, start, mag_max as u128) {
            Ok(v) => Ok(v as i64),
            Err(e) => Err(e),
        }
    }
}

/// Parses `u8` decimal text.
pub fn parse_u8(s: &str) -> (r: Result<u8, Error>)
    ensures
        match r {
            Ok(v) => is_unsigned_text(s@) && unsigned_val(s@) == v,
            Err(_) => !(is_unsigned_text(s@) && unsigned_val(s@) <= u8::MAX),
        },
{
    match parse_unsigned(s, 255) {
        Ok(v) => Ok(v as u8),
        Err(e) => Err(e),
    }
}

/// Parses `u16` decimal text.
pub fn parse_u16(s: &str) -> (r: Result<u16, Error>)
    ensures
        match r {
            Ok(v) => is_unsigned_text(s@) && unsigned_val(s@) == v,
            Err(_) => !(is_unsigned_text(s@) && unsigned_val(s@) <= u16::MAX),
        },
{
    match parse_unsigned(s, 65535) {
        Ok(v) => Ok(v as u16),
        Err(e) => Err(e),
    }
}

/// Parses `u32` decimal text.
pub fn parse_u32(s: &str) -> (r: Result<u32, Error>)
    ensures
        match r {
            Ok(v) => is_unsigned_text(s@) && unsigned_val(s@) == v,
            Err(_) => !(is_unsigned_text(s@) && unsigned_val(s@) <= u32::MAX),
        },
{
    match parse_unsigned(s, 4294967295) {
        Ok(v) => Ok(v as u32),
        Err(e) => Err(e),
    }
}

/// Parses `i8` decimal text.
pub fn parse_i8(s: &str) -> (r: Result<i8, Error>)
    ensures
        match r {
            Ok(v) => is_signed_text(s@) && signed_val(s@) == v,
            Err(_) => !(is_signed_text(s@) && i8::MIN <= signed_val(s@) <= i8::MAX),
        },
{
    match parse_signed(s, 128, 127) {
        Ok(v) => Ok(v as i8),
        Err(e) => Err(e),
    }
}

/// Parses `i16` decimal text.
pub fn parse_i16(s: &str) -> (r: Result<i16, Error>)
    ensures
        match r {
            Ok(v) => is_signed_text(s@) && signed_val(s@) == v,
            Err(_) => !(is_signed_text(s@) && i16::MIN <= signed_val(s@) <= i16::MAX),
        },
{
    match parse_signed(s, 32768, 32767) {
        Ok(v) => Ok(v as i16),
        Err(e) => Err(e),
    }
}

/// Parses `i32` decimal text.
pub fn parse_i32(s: &str) -> (r: Result<i32, Error>)
    ensures
        match r {
            Ok(v) => is_signed_text(s@) && signed_val(s@) == v,
            Err(_) => !(is_signed_text(s@) && i32::MIN <= signed_val(s@) <= i32::MAX),
        },
{
    match parse_signed(s, 2147483648, 2147483647) {
        Ok(v) => Ok(v as i32),
        Err(e) => Err(e),
    }
}

/// The message a failed boolean decode carries: it names the offending text.
pub open spec fn yes_no_error_text(s: Seq<char>) -> Seq<char> {
    "provided string was not `yes` or `no`, got "@ + s
}

/// Decodes the boolean literals: exactly `"yes"` and `"no"`, case-sensitive.
/// Any other text fails with a message naming it.
pub fn from_yes_no(s: &str) -> (r: Result<bool, Error>)
    ensures
        s@ == "yes"@ ==> r == Ok::<bool, Error>(true),
        s@ == "no"@ ==> r == Ok::<bool, Error>(false),
        s@ != "yes"@ && s@ != "no"@ ==> (r matches Err(e) && e@ == yes_no_error_text(s@)),
{
    proof {
        reveal_strlit("yes");
        reveal_strlit("no");
        assert("yes"@.len() == 3);
        assert("no"@.len() == 2);
    }
    if str_eq(s, "yes") {
        Ok(true)
    } else if str_eq(s, "no") {
        Ok(false)
    } else {
        Err(
            Error::custom(
                String::from_str("provided string was not `yes` or `no`, got ").concat(s),
            ),
        )
    }
}


/// The character of one decimal digit.
pub open spec fn digit_char(d: nat) -> char {
    if d == 0 {
        '0'
    } else if d == 1 {
        '1'
    } else if d == 2 {
        '2'
    } else if d == 3 {
        '3'
    } else if d == 4 {
        '4'
    } else if d == 5 {
        '5'
    } else if d == 6 {
        '6'
    } else if d == 7 {
        '7'
    } else if d == 8 {
        '8'
    } else {
        '9'
    }
}

/// The decimal rendering of `n`: most significant digit first, unsigned,
/// with no leading zero except for zero itself.
pub open spec fn decimal_text(n: nat) -> Seq<char>
    decreases n,
{
    if n < 10 {
        seq![digit_char(n)]
    } else {
        decimal_text(n / 10).push(digit_char(n % 10))
    }
}

/// Integers round-trip through their decimal text: the rendering of `n`
/// is well-formed unsigned decimal text whose value is exactly `n`, so a
/// parser that meets its contract hands `n` back.
pub proof fn lemma_decimal_round_trip(n: nat)
    ensures
        is_unsigned_text(decimal_text(n)),
        unsigned_val(decimal_text(n)) == n,
        decimal_text(n).len() > 0,
        decimal_text(n)[0] != '+',
        all_digits(decimal_text(n)),
    decreases n,
{
    if n < 10 {
        let s = decimal_text(n);
        assert(s.len() == 1);
        assert(is_digit_char(s[0]));
        assert(s.drop_last() =~= Seq::<char>::empty());
        assert(digits_val(Seq::<char>::empty()) == 0);
        assert(s.last() == s[0]);
        assert(digits_val(s) == digit_val(s[0]));
        assert(digit_val(s[0]) == n);
        assert(unsigned_body(s) == s);
    } else {
        lemma_decimal_round_trip(n / 10);
        let t = decimal_text(n / 10);
        let c = digit_char(n % 10);
        let s = decimal_text(n);
        assert(s == t.push(c));
        lemma_digits_val_push(t, c);
        assert(digit_val(c) == n % 10);
        assert(digits_val(s) == (n / 10) * 10 + n % 10);
        assert((n / 10) * 10 + n % 10 == n) by (nonlinear_arith);
        assert forall|i: int| 0 <= i < s.len() implies is_digit_char(#[trigger] s[i]) by {
            if i < t.len() {
                assert(s[i] == t[i]);
            } else {
                assert(s[i] == c);
            }
        }
        assert(s[0] == t[0]);
        assert(unsigned_body(s) == s);
    }
}

/// Negative integers round-trip as well: a minus sign followed by the
/// rendering of the magnitude is well-formed signed decimal text whose
/// value is the negated magnitude.
pub proof fn lemma_negative_decimal_round_trip(m: nat)
    ensures
        is_negative_text(seq!['-'] + decimal_text(m)),
        signed_val(seq!['-'] + decimal_text(m)) == -(m as int),
{
    lemma_decimal_round_trip(m);
    let s = seq!['-'] + decimal_text(m);
    assert(s.drop_first() =~= decimal_text(m));
    assert(s[0] == '-');
    assert(!is_unsigned_text(s)) by {
        assert(unsigned_body(s) == s);
        assert(!is_digit_char(s[0]));
    }
}

} // verus!
