//! Block sizes written as a decimal number followed by a unit, such as `32MB`.

use vstd::prelude::*;
use vstd::string::{StrSliceExecFns, StringExecFns};

verus! {

/// Why a size string was rejected.
#[derive(Clone, Copy, Debug, PartialEq, Eq, Structural)]
pub enum SizeError {
    /// The string does not end in `kb`, `mb` or `gb` (in either case).
    UnknownUnit,
    /// Nothing stands before the unit.
    Empty,
    /// A character before the unit is not a decimal digit.
    InvalidDigit,
    /// The number, or the number of bytes it stands for, exceeds `usize::MAX`.
    TooLarge,
}

impl SizeError {
    /// The error in words, for a size that was written as `written`.
    pub open spec fn message_text(self, written: Seq<char>) -> Seq<char> {
        match self {
            SizeError::UnknownUnit => "Cannot parse size: '"@ + written + "'"@,
            SizeError::Empty => "cannot parse integer from empty string"@,
            SizeError::InvalidDigit => "invalid digit found in string"@,
            SizeError::TooLarge => "number too large to fit in target type"@,
        }
    }

    /// The error in words, for a size that was written as `written`.
    pub fn message(&self, written: &str) -> (text: String)
        ensures
            text@ == self.message_text(written@),
    {
        match self {
            SizeError::UnknownUnit => String::from_str("Cannot parse size: '").concat(
                written,
            ).concat("'"),
            SizeError::Empty => String::from_str("cannot parse integer from empty string"),
            SizeError::InvalidDigit => String::from_str("invalid digit found in string"),
            SizeError::TooLarge => String::from_str("number too large to fit in target type"),
        }
    }
}

/// Whether `c` is one of the digits `0` to `9`.
pub open spec fn is_digit(c: char) -> bool {
    '0' <= c && c <= '9'
}

/// The number that the digit `c` stands for.
pub open spec fn digit_value(c: char) -> nat {
    (c as int - '0' as int) as nat
}

/// The number that a run of decimal digits denotes, most significant digit first.
pub open spec fn decimal(s: Seq<char>) -> nat
    decreases s.len(),
{
    if s.len() == 0 {
        0
    } else {
        decimal(s.drop_last()) * 10 + digit_value(s.last())
    }
}

/// How many characters at the front of `s` are decimal digits.
pub open spec fn digit_run(s: Seq<char>) -> nat
    decreases s.len(),
{
    if s.len() == 0 || !is_digit(s[0]) {
        0
    } else {
        1 + digit_run(s.drop_first())
    }
}

/// The number of bytes in one unit, read from the last two characters of `s`
/// without regard to case.
pub open spec fn unit_bytes(s: Seq<char>) -> Option<nat> {
    if s.len() < 2 || !(s.last() == 'b' || s.last() == 'B') {
        None
    } else {
        let u = s[s.len() - 2];
        if u == 'g' || u == 'G' {
            Some(1024 * 1024 * 1024)
        } else if u == 'm' || u == 'M' {
            Some(1024 * 1024)
        } else if u == 'k' || u == 'K' {
            Some(1024)
        } else {
            None
        }
    }
}

/// What stands before the unit, without one leading `+`.
pub open spec fn number_part(s: Seq<char>) -> Seq<char>
    recommends
        s.len() >= 2,
{
    let body = s.take(s.len() - 2);
    if body.len() > 0 && body[0] == '+' {
        body.drop_first()
    } else {
        body
    }
}

/// The meaning of a size string: the number before the unit times the unit, or
/// the first problem met when reading the string from the left.
pub open spec fn size_of_text(s: Seq<char>) -> Result<nat, SizeError> {
    match unit_bytes(s) {
        None => Err(SizeError::UnknownUnit),
        Some(unit) => {
            let digits = number_part(s);
            let run = digit_run(digits);
            if s.len() == 2 {
                Err(SizeError::Empty)
            } else if decimal(digits.take(run as int)) > usize::MAX {
                Err(SizeError::TooLarge)
            } else if run < digits.len() || digits.len() == 0 {
                Err(SizeError::InvalidDigit)
            } else if decimal(digits) * unit > usize::MAX {
                Err(SizeError::TooLarge)
            } else {
                Ok(decimal(digits) * unit)
            }
        },
    }
}

/// A run of digits denotes no less than any of its beginnings.
proof fn lemma_decimal_grows(s: Seq<char>, n: int)
    requires
        0 <= n <= s.len(),
    ensures
        decimal(s.take(n)) <= decimal(s),
    decreases s.len(),
{
    if n == s.len() {
        assert(s.take(n) =~= s);
    } else {
        lemma_decimal_grows(s.drop_last(), n);
        assert(s.drop_last().take(n) =~= s.take(n));
    }
}

/// Where the first `n` characters are digits, the digits at the front are at
/// least `n`, and just `n` where the next character is none.
proof fn lemma_digit_run_all(s: Seq<char>, n: int)
    requires
        0 <= n <= s.len(),
        forall|i: int| 0 <= i < n ==> is_digit(s[i]),
    ensures
        n <= digit_run(s) <= s.len(),
        n < s.len() && !is_digit(s[n]) ==> digit_run(s) == n,
    decreases s.len(),
{
    if s.len() > 0 && is_digit(s[0]) && n == 0 {
        lemma_digit_run_all(s.drop_first(), 0);
    }
    if n > 0 {
        let t = s.drop_first();
        assert forall|i: int| 0 <= i < n - 1 implies is_digit(t[i]) by {
            assert(t[i] == s[i + 1]);
        }
        lemma_digit_run_all(t, n - 1);
    }
}

/// The characters of `s`, one by one.
pub(crate) fn chars_of(s: &str) -> (v: Vec<char>)
    ensures
        v@ == s@,
{
    let n = s.unicode_len();
    let mut v: Vec<char> = Vec::new();
    let mut i: usize = 0;
    while i < n
        invariant
            n == s@.len(),
            i <= n,
            v@ == s@.take(i as int),
        decreases n - i,
    {
        v.push(s.get_char(i));
        i += 1;
        assert(v@ =~= s@.take(i as int));
    }
    assert(s@.take(n as int) =~= s@);
    v
}

/// The number of bytes in the unit that the characters end with.
fn unit_of(chars: &Vec<char>) -> (r: Option<usize>)
    ensures
        match r {
            Some(u) => unit_bytes(chars@) == Some(u as nat),
            None => unit_bytes(chars@) is None,
        },
{
    let n = chars.len();
    if n < 2 {
        return None;
    }
    let b = chars[n - 1];
    if !(b == 'b' || b == 'B') {
        return None;
    }
    let u = chars[n - 2];
    if u == 'g' || u == 'G' {
        Some(1024 * 1024 * 1024)
    } else if u == 'm' || u == 'M' {
        Some(1024 * 1024)
    } else if u == 'k' || u == 'K' {
        Some(1024)
    } else {
        None
    }
}

/// Reads a size such as `32MB`: a decimal number, which one `+` may precede,
/// followed by `kb`, `mb` or `gb` in either case, in units of 1024, 1024² and
/// 1024³ bytes.
pub fn parse_size(x: &str) -> (r: Result<usize, SizeError>)
    ensures
        match r {
            Ok(n) => size_of_text(x@) == Ok::<nat, SizeError>(n as nat),
            Err(e) => size_of_text(x@) == Err::<nat, SizeError>(e),
        },
{
    let chars = chars_of(x);
    let unit = match unit_of(&chars) {
        None => { return Err(SizeError::UnknownUnit); },
        Some(u) => u,
    };
    let end = chars.len() - 2;
    if end == 0 {
        return Err(SizeError::Empty);
    }
    let start: usize = if chars[0] == '+' { 1 } else { 0 };
    let ghost digits = number_part(chars@);
    assert(digits =~= chars@.subrange(start as int, end as int));
    let mut value: usize = 0;
    let mut i: usize = start;
    while i < end
        invariant
            start <= i <= end,
            end == chars@.len() - 2,
            chars@ == x@,
            unit_bytes(x@) is Some,
            digits == number_part(x@),
            digits == chars@.subrange(start as int, end as int),
            forall|j: int| 0 <= j < i - start ==> is_digit(digits[j]),
            value == decimal(digits.take(i - start)),
        decreases end - i,
    {
        let c = chars[i];
        proof {
            lemma_digit_run_all(digits, i - start);
            assert(digits[i - start] == c);
            assert(digits.take(i - start + 1).drop_last() =~= digits.take(i - start));
        }
        if !('0' <= c && c <= '9') {
            assert(digit_run(digits) == i - start);
            return Err(SizeError::InvalidDigit);
        }
        let d: usize = (c as u32 - '0' as u32) as usize;
        let next = match value.checked_mul(10) {
            None => None,
            Some(v) => v.checked_add(d),
        };
        proof {
            if next is None {
                lemma_digit_run_all(digits, i - start + 1);
                assert(decimal(digits.take(i - start + 1)) == value * 10 + d);
                lemma_decimal_grows(digits.take(digit_run(digits) as int), i - start + 1);
                assert(digits.take(digit_run(digits) as int).take(i - start + 1) =~= digits.take(
                    i - start + 1,
                ));
            }
        }
        match next {
            None => { return Err(SizeError::TooLarge); },
            Some(v) => { value = v; },
        }
        i += 1;
    }
    proof {
        lemma_digit_run_all(digits, digits.len() as int);
        assert(digits.take(digits.len() as int) =~= digits);
    }
    assert(digit_run(digits) == digits.len());
    if start == end {
        return Err(SizeError::InvalidDigit);
    }
    match value.checked_mul(unit) {
        None => Err(SizeError::TooLarge),
        Some(n) => Ok(n),
    }
}

} // verus!
