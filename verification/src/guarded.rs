//! Small functions of the kind that the lint rules are about, written so
//! that nothing can abort: where a call would fail on a missing value or an
//! overflow, a precondition names the inputs on which it cannot.

use crate::text::chars_of;
use vstd::prelude::*;

verus! {

/// Whether `c` is one of the digits `0` to `9`.
pub open spec fn is_digit(c: char) -> bool {
    '0' <= c <= '9'
}

/// The number that a sequence of digits denotes in base ten; 0 for the
/// empty sequence.
pub open spec fn digits_value(s: Seq<char>) -> int
    decreases s.len(),
{
    if s.len() == 0 {
        0
    } else {
        10 * digits_value(s.drop_last()) + (s.last() as int - '0' as int)
    }
}

/// The digits of a numeral: what follows its sign, or all of it where it
/// has none.
pub open spec fn digits_of(s: Seq<char>) -> Seq<char> {
    if s.len() > 0 && (s[0] == '-' || s[0] == '+') {
        s.skip(1)
    } else {
        s
    }
}

/// The number that `s` denotes as a 32-bit signed decimal numeral: an
/// optional `+` or `-`, then one or more digits and nothing else, with a
/// value that fits. `None` for every other text.
pub open spec fn decimal_i32(s: Seq<char>) -> Option<int> {
    let digits = digits_of(s);
    let value = if s.len() > 0 && s[0] == '-' {
        -digits_value(digits)
    } else {
        digits_value(digits)
    };
    if digits.len() > 0 && (forall|i: int| 0 <= i < digits.len() ==> is_digit(#[trigger] digits[i]))
        && i32::MIN <= value <= i32::MAX {
        Some(value)
    } else {
        None
    }
}

/// Digits only add to a number: a longer run of digits denotes no less
/// than any of its beginnings.
proof fn lemma_digits_grow(s: Seq<char>, k: int)
    requires
        0 <= k <= s.len(),
        forall|i: int| 0 <= i < s.len() ==> is_digit(#[trigger] s[i]),
    ensures
        0 <= digits_value(s.take(k)) <= digits_value(s),
    decreases s.len() - k,
{
    if k == s.len() {
        assert(s.take(k) =~= s);
        lemma_digits_nonnegative(s);
    } else {
        lemma_digits_grow(s, k + 1);
        assert(s.take(k + 1).drop_last() =~= s.take(k));
        lemma_digits_nonnegative(s.take(k));
        assert(is_digit(s[k]));
    }
}

/// A run of digits denotes no negative number.
proof fn lemma_digits_nonnegative(s: Seq<char>)
    requires
        forall|i: int| 0 <= i < s.len() ==> is_digit(#[trigger] s[i]),
    ensures
        0 <= digits_value(s),
    decreases s.len(),
{
    if s.len() > 0 {
        lemma_digits_nonnegative(s.drop_last());
        assert(is_digit(s[s.len() - 1]));
    }
}

/// Reads a 32-bit signed decimal numeral; `None` where `s` is none.
pub fn parse_decimal(s: &str) -> (number: Option<i32>)
    ensures
        number is Some <==> decimal_i32(s@) is Some,
        number matches Some(n) ==> decimal_i32(s@) == Some(n as int),
{
    let chars = chars_of(s);
    let negative = chars.len() > 0 && chars[0] == '-';
    let start: usize = if chars.len() > 0 && (chars[0] == '-' || chars[0] == '+') {
        1
    } else {
        0
    };
    let ghost digits = digits_of(s@);
    proof {
        assert(digits =~= chars@.skip(start as int));
    }
    if start == chars.len() {
        return None;
    }
    let mut total: i64 = 0;
    let mut at: usize = start;
    proof {
        assert(digits.take(0) =~= Seq::<char>::empty());
    }
    while at < chars.len()
        invariant
            start <= at <= chars@.len(),
            digits == chars@.skip(start as int),
            digits == digits_of(s@),
            forall|i: int| 0 <= i < at - start ==> is_digit(#[trigger] digits[i]),
            total == digits_value(digits.take(at - start)),
            0 <= total <= 2147483648,
        decreases chars@.len() - at,
    {
        let c = chars[at];
        if !(c >= '0' && c <= '9') {
            assert(!is_digit(digits[at - start]));
            return None;
        }
        let digit: i64 = (c as u32 - '0' as u32) as i64;
        let next: i64 = total * 10 + digit;
        proof {
            assert(digits.take(at - start + 1).drop_last() =~= digits.take(at - start));
            assert(digits.take(at - start + 1).last() == c);
        }
        if next > 2147483648 {
            proof {
                if forall|i: int| 0 <= i < digits.len() ==> is_digit(#[trigger] digits[i]) {
                    lemma_digits_grow(digits, at - start + 1);
                }
            }
            return None;
        }
        total = next;
        at += 1;
    }
    proof {
        assert(digits.take(at - start) =~= digits);
    }
    if negative {
        Some((-total) as i32)
    } else if total > 2147483647 {
        None
    } else {
        Some(total as i32)
    }
}

/// The number that `s` denotes.
pub fn parse_number(s: &str) -> (number: i32)
    requires
        decimal_i32(s@) is Some,
    ensures
        decimal_i32(s@) == Some(number as int),
{
    parse_decimal(s).unwrap()
}

/// The sum of two numbers that can be added without overflow.
pub fn calculate(x: i32, y: i32) -> (sum: i32)
    requires
        i32::MIN <= x + y <= i32::MAX,
    ensures
        sum == x + y,
{
    x + y
}

/// The upper-case form of a text, as `str::to_uppercase` gives it.
pub uninterp spec fn uppercase_of(s: Seq<char>) -> Seq<char>;

/// Calls `str::to_uppercase`, which maps each character by the Unicode
/// tables that the standard library carries, whatever the locale. The
/// contract only gives the result its name.
#[verifier::external_body]
fn to_uppercase(s: &str) -> (upper: String)
    ensures
        upper@ == uppercase_of(s@),
{
    s.to_uppercase()
}

/// The text in `input`, in upper case.
pub fn process_data(input: Option<String>) -> (data: String)
    requires
        input is Some,
    ensures
        data@ == uppercase_of(input->0@),
{
    let data = input.unwrap();
    to_uppercase(data.as_str())
}

/// The first element of a non-empty vector.
pub fn get_first<T>(vec: Vec<T>) -> (first: T)
    requires
        vec@.len() > 0,
    ensures
        first == vec@[0],
{
    let mut vec = vec;
    vec.swap_remove(0)
}

} // verus!
