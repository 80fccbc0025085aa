//! Integers as decimal text, and decimal text as integers.
use vstd::prelude::*;
use vstd::string::*;

use crate::text;

verus! {

/// The decimal digit of `d`.
pub open spec fn digit_char(d: nat) -> char {
    (d + 48) as char
}

/// The decimal digits of `n`, without leading zeros.
pub open spec fn digits(n: nat) -> Seq<char>
    decreases n,
{
    if n < 10 {
        seq![digit_char(n)]
    } else {
        digits(n / 10).push(digit_char(n % 10))
    }
}

/// The decimal text of `n`, with a minus sign before a negative number.
pub open spec fn decimal(n: int) -> Seq<char> {
    if n < 0 {
        seq!['-'] + digits((-n) as nat)
    } else {
        digits(n as nat)
    }
}

/// The value of a run of decimal digits.
pub open spec fn value(s: Seq<char>) -> nat
    decreases s.len(),
{
    if s.len() == 0 {
        0
    } else {
        value(s.drop_last()) * 10 + (s.last() as nat - 48) as nat
    }
}

/// Whether `s` is a run of one or more decimal digits.
pub open spec fn is_digits(s: Seq<char>) -> bool {
    s.len() > 0 && forall|i: int| 0 <= i < s.len() ==> text::is_digit(#[trigger] s[i])
}

/// The decimal digits of a number are digits, and their value is the number.
pub proof fn lemma_digits_value(n: nat)
    ensures
        is_digits(digits(n)),
        value(digits(n)) == n,
    decreases n,
{
    reveal_with_fuel(value, 2);
    if n >= 10 {
        lemma_digits_value(n / 10);
        let s = digits(n);
        assert(s.drop_last() =~= digits(n / 10));
    } else {
        let s = digits(n);
        assert(s.drop_last() =~= Seq::<char>::empty());
        assert(s.last() as nat == n + 48);
    }
}

/// The decimal text of an unsigned number.
pub fn unsigned_text(n: u64) -> (out: String)
    ensures
        out@ == decimal(n as int),
{
    wide_text(n as u128)
}

/// The decimal text of a wide unsigned number.
pub fn wide_text(n: u128) -> (out: String)
    ensures
        out@ == decimal(n as int),
{
    let mut places: Vec<char> = Vec::new();
    let mut rest: u128 = n;
    // `places` holds the low digits, lowest first.
    proof {
        assert(digits(rest as nat) + places@.reverse() =~= digits(n as nat));
    }
    while rest >= 10
        invariant
            digits(rest as nat) + places@.reverse() == digits(n as nat),
        decreases rest,
    {
        let d: u8 = (rest % 10) as u8;
        let ghost earlier = places@;
        places.push((d + 48) as char);
        proof {
            assert(places@.reverse() =~= seq![digit_char((rest % 10) as nat)] + earlier.reverse());
            assert(digits(rest as nat) + earlier.reverse() =~= digits((rest / 10) as nat) + (seq![
                digit_char((rest % 10) as nat),
            ] + earlier.reverse()));
        }
        rest = rest / 10;
    }
    let d: u8 = rest as u8;
    let ghost earlier = places@;
    places.push((d + 48) as char);
    proof {
        assert(places@.reverse() =~= digits(rest as nat) + earlier.reverse());
    }
    let mut chars: Vec<char> = Vec::new();
    let mut i: usize = places.len();
    while i > 0
        invariant
            i <= places.len(),
            chars@.len() == places.len() - i,
            forall|k: int| 0 <= k < chars@.len() ==> chars@[k] == places@[places.len() - 1 - k],
        decreases i,
    {
        i -= 1;
        chars.push(places[i]);
    }
    proof {
        assert(chars@ =~= places@.reverse());
    }
    text::text_from(&chars)
}

/// The decimal text of a signed number.
pub fn signed_text(n: i64) -> (out: String)
    ensures
        out@ == decimal(n as int),
{
    if n >= 0 {
        unsigned_text(n as u64)
    } else {
        let size: u64 = (-((n + 1) as i128) + 1) as u64;
        let low = unsigned_text(size);
        proof {
            reveal_strlit("-");
            assert("-"@ =~= seq!['-']);
        }
        text::cat("-", low.as_str())
    }
}

/// The decimal text of a count.
pub fn count_text(n: usize) -> (out: String)
    ensures
        out@ == decimal(n as int),
{
    unsigned_text(n as u64)
}

/// The number that a text writes, as the integer parsers of std read it: an
/// optional sign, then one or more decimal digits.
pub open spec fn parsed(s: Seq<char>) -> Option<int> {
    if s.len() > 0 && (s[0] == '-' || s[0] == '+') {
        let rest = s.skip(1);
        if !is_digits(rest) {
            None
        } else if s[0] == '-' {
            Some(-(value(rest) as int))
        } else {
            Some(value(rest) as int)
        }
    } else if is_digits(s) {
        Some(value(s) as int)
    } else {
        None
    }
}

/// A number is read back from its decimal text.
pub proof fn lemma_parsed_decimal(n: int)
    ensures
        parsed(decimal(n)) == Some(n),
{
    if n < 0 {
        lemma_digits_value((-n) as nat);
        assert(decimal(n).skip(1) =~= digits((-n) as nat));
    } else {
        lemma_digits_value(n as nat);
        assert(text::is_digit(digits(n as nat)[0]));
    }
}

/// Different numbers have different decimal texts.
pub proof fn lemma_decimal_injective(a: int, b: int)
    requires
        decimal(a) == decimal(b),
    ensures
        a == b,
{
    lemma_parsed_decimal(a);
    lemma_parsed_decimal(b);
}

/// A longer run of digits has no smaller value.
proof fn lemma_value_grows(s: Seq<char>, i: int)
    requires
        0 <= i <= s.len(),
        forall|k: int| 0 <= k < s.len() ==> text::is_digit(#[trigger] s[k]),
    ensures
        value(s.take(i)) <= value(s),
    decreases s.len() - i,
{
    if i == s.len() {
        assert(s.take(i) =~= s);
    } else {
        lemma_value_grows(s, i + 1);
        assert(s.take(i + 1).drop_last() =~= s.take(i));
        assert(s.take(i + 1).last() == s[i]);
    }
}

/// What the digits of a text amount to.
enum Magnitude {
    NotDigits,
    TooLarge,
    Is(u64),
}

/// The value of `chars[from..]`, where it is a run of digits.
fn magnitude(chars: &Vec<char>, from: usize) -> (result: Magnitude)
    requires
        from <= chars.len(),
    ensures
        match result {
            Magnitude::NotDigits => !is_digits(chars@.skip(from as int)),
            Magnitude::TooLarge => is_digits(chars@.skip(from as int)) && value(
                chars@.skip(from as int),
            ) > u64::MAX,
            Magnitude::Is(n) => is_digits(chars@.skip(from as int)) && value(
                chars@.skip(from as int),
            ) == n,
        },
{
    let ghost s = chars@.skip(from as int);
    let mut i: usize = from;
    while i < chars.len()
        invariant
            from <= i <= chars.len(),
            s == chars@.skip(from as int),
            forall|k: int| 0 <= k < i - from ==> text::is_digit(#[trigger] s[k]),
        decreases chars.len() - i,
    {
        let c = chars[i];
        if !('0' <= c && c <= '9') {
            proof {
                assert(s[i - from] == c);
            }
            return Magnitude::NotDigits;
        }
        i += 1;
    }
    if from == chars.len() {
        return Magnitude::NotDigits;
    }
    let mut total: u64 = 0;
    let mut i: usize = from;
    proof {
        assert(s.take(0) =~= Seq::<char>::empty());
    }
    while i < chars.len()
        invariant
            from <= i <= chars.len(),
            s == chars@.skip(from as int),
            is_digits(s),
            total == value(s.take(i - from)),
        decreases chars.len() - i,
    {
        let c = chars[i];
        proof {
            assert(s[i - from] == c);
            assert(s.take(i - from + 1).drop_last() =~= s.take(i - from));
            assert(s.take(i - from + 1).last() == c);
            lemma_value_grows(s, i - from + 1);
        }
        let d: u64 = (c as u8 - 48) as u64;
        match total.checked_mul(10) {
            None => {
                return Magnitude::TooLarge;
            },
            Some(shifted) => match shifted.checked_add(d) {
                None => {
                    return Magnitude::TooLarge;
                },
                Some(sum) => {
                    total = sum;
                },
            },
        }
        i += 1;
    }
    proof {
        assert(s.take(i - from) =~= s);
    }
    Magnitude::Is(total)
}

/// The number that a text writes, where it fits in 64 signed bits.
pub fn parse_signed(s: &str) -> (number: Option<i64>)
    ensures
        match number {
            Some(n) => parsed(s@) == Some(n as int),
            None => parsed(s@) is None || !(i64::MIN <= parsed(s@)->0 <= i64::MAX),
        },
{
    let chars = text::chars_of(s);
    proof {
        assert(s@.skip(0) =~= s@);
    }
    if chars.len() > 0 && (chars[0] == '-' || chars[0] == '+') {
        match magnitude(&chars, 1) {
            Magnitude::NotDigits => None,
            Magnitude::TooLarge => None,
            Magnitude::Is(n) => {
                if chars[0] == '-' {
                    if n <= 9223372036854775807 {
                        Some(-(n as i64))
                    } else if n == 9223372036854775808 {
                        Some(i64::MIN)
                    } else {
                        None
                    }
                } else if n <= 9223372036854775807 {
                    Some(n as i64)
                } else {
                    None
                }
            },
        }
    } else {
        match magnitude(&chars, 0) {
            Magnitude::NotDigits => None,
            Magnitude::TooLarge => None,
            Magnitude::Is(n) => if n <= 9223372036854775807 {
                Some(n as i64)
            } else {
                None
            },
        }
    }
}

/// How reading an unsigned number ends.
pub enum Unsigned {
    /// There is no text.
    Empty,
    /// A character is no digit, or there is no digit.
    Invalid,
    /// The number does not fit.
    TooLarge,
    /// The number.
    Is(u64),
}

/// What `s` reads as, where a plus sign may stand before the digits and the
/// number may be at most `limit`.
pub open spec fn read_unsigned(s: Seq<char>, limit: int) -> Unsigned {
    let rest = if s.len() > 1 && s[0] == '+' {
        s.skip(1)
    } else {
        s
    };
    if s.len() == 0 {
        Unsigned::Empty
    } else if !is_digits(rest) {
        Unsigned::Invalid
    } else if value(rest) > limit {
        Unsigned::TooLarge
    } else {
        Unsigned::Is(value(rest) as u64)
    }
}

/// What `s` reads as, as the unsigned parsers of std read it.
pub fn parse_unsigned(s: &str, limit: u64) -> (result: Unsigned)
    ensures
        result == read_unsigned(s@, limit as int),
{
    let chars = text::chars_of(s);
    if chars.len() == 0 {
        return Unsigned::Empty;
    }
    let from: usize = if chars.len() > 1 && chars[0] == '+' {
        1
    } else {
        0
    };
    proof {
        assert(s@.skip(0) =~= s@);
    }
    match magnitude(&chars, from) {
        Magnitude::NotDigits => Unsigned::Invalid,
        Magnitude::TooLarge => Unsigned::TooLarge,
        Magnitude::Is(n) => if n <= limit {
            Unsigned::Is(n)
        } else {
            Unsigned::TooLarge
        },
    }
}

} // verus!
