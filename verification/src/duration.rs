//! Lengths of time, as people write and read them.
use vstd::prelude::*;
use vstd::string::*;

use crate::error::Error;
use crate::number;
use crate::text;

verus! {

/// The seconds that a unit stands for.
pub open spec fn unit_seconds(unit: char) -> Option<int> {
    if unit == 's' {
        Some(1int)
    } else if unit == 'm' {
        Some(60)
    } else if unit == 'h' {
        Some(3600)
    } else if unit == 'd' {
        Some(86400)
    } else {
        None
    }
}

/// The seconds that a text stands for: a positive whole number and a unit. Else
/// what is wrong with it.
pub open spec fn duration_of(input: Seq<char>) -> Result<int, Seq<char>> {
    let s = text::trimmed(input);
    let count = s.drop_last();
    let unit = s.last();
    if s.len() < 2 {
        Err("invalid duration: '"@ + s + "' — use format like 5m, 2h, 1d"@)
    } else {
        match number::parsed(count) {
            None => Err("invalid duration number: '"@ + count + "'"@),
            Some(n) => if n < i64::MIN || n > i64::MAX {
                Err("invalid duration number: '"@ + count + "'"@)
            } else if n <= 0 {
                Err("duration must be positive"@)
            } else {
                match unit_seconds(unit) {
                    None => Err(
                        "unknown duration unit '"@ + seq![unit] + "' — use s, m, h, or d"@,
                    ),
                    Some(factor) => if n * factor > i64::MAX {
                        Err("duration '"@ + s + "' is too large"@)
                    } else {
                        Ok(n * factor)
                    },
                }
            },
        }
    }
}

/// The seconds that a text such as `5m`, `2h` or `1d` stands for.
pub fn parse_duration(s: &str) -> (result: Result<i64, Error>)
    ensures
        match duration_of(s@) {
            Ok(n) => result matches Ok(seconds) && seconds == n,
            Err(said) => result matches Err(e) && e@ == said,
        },
{
    let s = text::trim(s);
    let chars = text::chars_of(s);
    if chars.len() < 2 {
        return Err(
            Error::new(
                text::cat3("invalid duration: '", s, "' — use format like 5m, 2h, 1d"),
            ),
        );
    }
    let end: usize = chars.len() - 1;
    let unit = chars[end];
    let count = text::text_of(&chars, 0, end);
    proof {
        assert(count@ =~= s@.drop_last());
    }
    let n = match number::parse_signed(count.as_str()) {
        Some(n) => n,
        None => {
            return Err(
                Error::new(text::cat3("invalid duration number: '", count.as_str(), "'")),
            );
        },
    };
    if n <= 0 {
        return Err(Error::new("duration must be positive".to_owned()));
    }
    let factor: i64 = if unit == 's' {
        1
    } else if unit == 'm' {
        60
    } else if unit == 'h' {
        3600
    } else if unit == 'd' {
        86400
    } else {
        let name = text::text_of(&chars, end, chars.len());
        proof {
            assert(name@ =~= seq![unit]);
        }
        return Err(
            Error::new(
                text::cat3("unknown duration unit '", name.as_str(), "' — use s, m, h, or d"),
            ),
        );
    };
    match n.checked_mul(factor) {
        Some(seconds) => Ok(seconds),
        None => {
            assert(n * factor > i64::MAX) by (nonlinear_arith)
                requires
                    n > 0,
                    factor > 0,
                    n * factor < i64::MIN || n * factor > i64::MAX,
            ;
            Err(Error::new(text::cat3("duration '", s, "' is too large")))
        },
    }
}

/// How long ago something was, in the largest unit that fits.
pub open spec fn elapsed(seconds: int) -> Seq<char> {
    if seconds < 0 {
        "in the future"@
    } else if seconds < 60 {
        ago(seconds, "second"@)
    } else if seconds < 3600 {
        ago(seconds / 60, "minute"@)
    } else if seconds < 86400 {
        ago(seconds / 3600, "hour"@)
    } else {
        ago(seconds / 86400, "day"@)
    }
}

/// A number of units ago.
pub open spec fn ago(count: int, unit: Seq<char>) -> Seq<char> {
    number::decimal(count) + " "@ + unit + (if count == 1 {
        ""@
    } else {
        "s"@
    }) + " ago"@
}

/// How long ago something was, in words.
pub fn format_elapsed(seconds: i64) -> (out: String)
    ensures
        out@ == elapsed(seconds as int),
{
    if seconds < 0 {
        return "in the future".to_owned();
    }
    let (value, unit) = if seconds < 60 {
        (seconds, "second")
    } else if seconds < 3600 {
        (seconds / 60, "minute")
    } else if seconds < 86400 {
        (seconds / 3600, "hour")
    } else {
        (seconds / 86400, "day")
    };
    let suffix = if value == 1 {
        ""
    } else {
        "s"
    };
    text::cat5(number::signed_text(value).as_str(), " ", unit, suffix, " ago")
}

} // verus!
