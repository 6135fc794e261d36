//! Spans of time and the decimal text of timestamps.

use vstd::prelude::*;
use crate::text;

verus! {

/// A span of time, or a reading of a clock as the time since its origin.
#[derive(Clone, Copy, Debug, PartialEq, Eq, Structural)]
pub struct Span {
    /// The length of the span in nanoseconds.
    pub nanos: u128,
}

impl View for Span {
    type V = int;

    /// The length of the span in nanoseconds.
    open spec fn view(&self) -> int {
        self.nanos as int
    }
}

impl Span {
    /// A span of whole seconds.
    pub fn from_secs(secs: u64) -> (r: Span)
        ensures
            r@ == secs * 1_000_000_000,
    {
        Span { nanos: secs as u128 * 1_000_000_000 }
    }

    /// A span of whole milliseconds.
    pub fn from_millis(millis: u64) -> (r: Span)
        ensures
            r@ == millis * 1_000_000,
    {
        Span { nanos: millis as u128 * 1_000_000 }
    }

    /// The sum of two spans.
    pub fn plus(self, other: Span) -> (r: Span)
        requires
            self@ + other@ <= u128::MAX,
        ensures
            r@ == self@ + other@,
    {
        Span { nanos: self.nanos + other.nanos }
    }

    /// The time from an earlier reading to this one, or nothing if that one is
    /// the later.
    pub fn since(self, earlier: Span) -> (r: Span)
        ensures
            r@ == elapsed(self@, earlier@),
    {
        if self.nanos >= earlier.nanos {
            Span { nanos: self.nanos - earlier.nanos }
        } else {
            Span { nanos: 0 }
        }
    }

    /// The whole seconds of the span, at most what 64 bits hold.
    pub fn as_secs(self) -> (r: u64)
        ensures
            r == capped(self@ / 1_000_000_000),
    {
        let secs: u128 = self.nanos / 1_000_000_000;
        if secs <= u64::MAX as u128 {
            secs as u64
        } else {
            u64::MAX
        }
    }

    /// The whole milliseconds of the span, at most what 64 bits hold.
    pub fn as_millis(self) -> (r: u64)
        ensures
            r == capped(self@ / 1_000_000),
    {
        let millis: u128 = self.nanos / 1_000_000;
        if millis <= u64::MAX as u128 {
            millis as u64
        } else {
            u64::MAX
        }
    }
}

/// The time from an earlier reading of a clock to a later one; nothing where
/// the readings stand the other way round.
pub open spec fn elapsed(now: int, earlier: int) -> int {
    if now >= earlier {
        now - earlier
    } else {
        0
    }
}

/// The number, at most what 64 bits hold.
pub open spec fn capped(n: int) -> int {
    if n <= u64::MAX {
        n
    } else {
        u64::MAX as int
    }
}

/// The character of a decimal digit.
pub open spec fn digit_char(d: int) -> char {
    (48 + d) as u8 as char
}

/// The decimal text of a number.
pub open spec fn decimal(n: int) -> Seq<char>
    decreases n,
{
    if n < 10 {
        seq![digit_char(n)]
    } else {
        decimal(n / 10).push(digit_char(n % 10))
    }
}

/// The last `width` decimal digits of a number.
pub open spec fn low_digits(n: int, width: nat) -> Seq<char>
    decreases width,
{
    if width == 0 {
        Seq::empty()
    } else {
        low_digits(n / 10, (width - 1) as nat).push(digit_char(n % 10))
    }
}

/// The number that decimal digits stand for.
pub open spec fn digits_value(s: Seq<char>) -> int
    decreases s.len(),
{
    if s.len() == 0 {
        0
    } else {
        digits_value(s.drop_last()) * 10 + (s.last() as int - '0' as int)
    }
}

/// The number that an unsigned decimal text stands for: an optional plus sign
/// and then one or more digits, with a value that fits in 64 bits.
pub open spec fn unsigned_value(s: Seq<char>) -> Option<int> {
    let d = if s.len() > 0 && s[0] == '+' {
        s.skip(1)
    } else {
        s
    };
    if d.len() > 0 && text::all_digits(d) && digits_value(d) <= u64::MAX {
        Some(digits_value(d))
    } else {
        None
    }
}

/// The text of Slack's timestamps: seconds, a dot and six digits of
/// microseconds.
pub open spec fn timestamp_text(secs: int, nanos: int) -> Seq<char> {
    decimal(secs) + seq!['.'] + low_digits(nanos / 1000, 6)
}

/// The character of a decimal digit.
fn digit_of(d: u8) -> (r: char)
    requires
        d < 10,
    ensures
        r == digit_char(d as int),
{
    (48 + d) as char
}

/// The decimal text of a number.
fn decimal_of(n: u64) -> (r: Vec<char>)
    ensures
        r@ == decimal(n as int),
    decreases n,
{
    if n < 10 {
        let mut out: Vec<char> = Vec::new();
        out.push(digit_of(n as u8));
        out
    } else {
        let mut out = decimal_of(n / 10);
        out.push(digit_of((n % 10) as u8));
        out
    }
}

/// The last `width` decimal digits of a number.
fn low_digits_of(n: u32, width: u8) -> (r: Vec<char>)
    ensures
        r@ == low_digits(n as int, width as nat),
    decreases width,
{
    if width == 0 {
        Vec::new()
    } else {
        let mut out = low_digits_of(n / 10, width - 1);
        out.push(digit_of((n % 10) as u8));
        out
    }
}

/// Writes a reading of the clock as a Slack timestamp.
pub fn format_timestamp(secs: u64, nanos: u32) -> (r: String)
    ensures
        r@ == timestamp_text(secs as int, nanos as int),
{
    let mut out: Vec<char> = decimal_of(secs);
    out.push('.');
    let fraction = low_digits_of(nanos / 1000, 6);
    text::extend(&mut out, fraction.as_slice());
    proof {
        assert(out@ == timestamp_text(secs as int, nanos as int));
    }
    text::string_of(out.as_slice())
}

/// More digits make no smaller number.
pub proof fn lemma_digits_grow(s: Seq<char>, k: int)
    requires
        text::all_digits(s),
        0 <= k <= s.len(),
    ensures
        0 <= digits_value(s.take(k)) <= digits_value(s),
    decreases s.len(),
{
    if k < s.len() {
        let t = s.drop_last();
        assert(text::all_digits(t));
        assert(text::digit(s.last()));
        lemma_digits_grow(t, k);
        assert(t.take(k) == s.take(k));
        assert(t.take(t.len() as int) == t);
        lemma_digits_grow(t, 0);
    } else {
        assert(s.take(k) == s);
        if s.len() > 0 {
            let t = s.drop_last();
            assert(text::all_digits(t));
            assert(text::digit(s.last()));
            lemma_digits_grow(t, t.len() as int);
            assert(t.take(t.len() as int) == t);
        }
    }
}

/// Reads an unsigned decimal number: an optional plus sign followed by only
/// digits, with a value that fits in 64 bits.
pub fn parse_unsigned(s: &[char]) -> (r: Option<u64>)
    ensures
        match r {
            Some(v) => unsigned_value(s@) == Some(v as int),
            None => unsigned_value(s@) is None,
        },
{
    let d = if s.len() > 0 && s[0] == '+' {
        vstd::slice::slice_subrange(s, 1, s.len())
    } else {
        s
    };
    if d.len() == 0 || !text::are_digits(d) {
        return None;
    }
    let mut value: u64 = 0;
    let mut i: usize = 0;
    while i < d.len()
        invariant
            i <= d.len(),
            d@.len() > 0,
            d@ == if s@.len() > 0 && s@[0] == '+' {
                s@.skip(1)
            } else {
                s@
            },
            text::all_digits(d@),
            value == digits_value(d@.take(i as int)),
        decreases d.len() - i,
    {
        proof {
            assert(d@.take(i + 1).drop_last() == d@.take(i as int));
            assert(text::digit(d@[i as int]));
            lemma_digits_grow(d@, i + 1);
        }
        let digit: u64 = d[i] as u64 - 48;
        match value.checked_mul(10) {
            Some(tens) => match tens.checked_add(digit) {
                Some(next) => {
                    value = next;
                },
                None => {
                    return None;
                },
            },
            None => {
                return None;
            },
        }
        i += 1;
    }
    proof {
        assert(d@.take(i as int) == d@);
    }
    Some(value)
}

} // verus!
