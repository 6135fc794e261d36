//! Rate limits, times and numbers.

use vstd::prelude::*;
use crate::api::Failure;
use crate::clock;
use crate::inbound;
use crate::json;
use crate::json::Tree;
use crate::promises::hearing;
use crate::promises::replies;
use crate::promises::words;
use crate::retry;
use crate::retry::NextStep;
use crate::text;

verus! {

/// The value of a text of digits grows by one digit at its end, times ten.
pub proof fn law_digits_are_decimal(s: Seq<char>, d: char)
    ensures
        clock::digits_value(Seq::empty()) == 0,
        clock::digits_value(s.push(d)) == clock::digits_value(s) * 10 + (d as int - 48),
        text::digit(d) == ('0' <= d && d <= '9'),
{
    assert(s.push(d).drop_last() == s);
}

/// The text is a number: digits only, at least one, of a value that 64 bits
/// hold.
pub open spec fn is_number(s: Seq<char>, n: int) -> bool {
    &&& s.len() > 0
    &&& forall|k: int| 0 <= k < s.len() ==> '0' <= #[trigger] s[k] <= '9'
    &&& n == clock::digits_value(s)
    &&& n <= u64::MAX
}

/// The seconds of a `Retry-After` header are the number before the dot, if there
/// is one; a sign `+` does not matter. Without a number there are none.
pub proof fn law_retry_after_is_the_whole_seconds(s: Seq<char>, n: int, rest: Seq<char>)
    ensures
        is_number(s, n) ==> retry::retry_after(s) == Some(n),
        is_number(s, n) ==> retry::retry_after(s + seq!['.'] + rest) == Some(n),
        is_number(s, n) ==> retry::retry_after(seq!['+'] + s) == Some(n),
        (exists|k: int|
            0 <= k < s.len() && s[k] != '.' && !('0' <= s[k] <= '9') && !(k == 0 && s[k] == '+')
                && forall|j: int| 0 <= j < k ==> #[trigger] s[j] != '.') ==> retry::retry_after(
            s,
        ) is None,
        retry::retry_after(Seq::empty()) is None,
{
    let dotted = s + seq!['.'] + rest;
    if is_number(s, n) {
        assert(text::all_digits(s));
        assert(s[0] != '+');
        assert(dotted[0] == s[0]);
        let k = s.len() as int;
        text::lemma_find_char(dotted, '.', 0);
        assert(dotted[k] == '.');
        let f = text::find_char(dotted, '.', 0);
        if f is None {
            assert(dotted[k] != '.');
        } else if f->0 < k {
            assert(dotted[f->0] == s[f->0]);
        }
        assert(f == Some(k));
        assert(dotted.take(k) == s);
        assert(!text::all_digits(dotted)) by {
            assert(!text::digit(dotted[k]));
        }
        let signed = seq!['+'] + s;
        assert(signed.skip(1) == s);
    }
    if exists|k: int|
        0 <= k < s.len() && s[k] != '.' && !('0' <= s[k] <= '9') && !(k == 0 && s[k] == '+')
            && forall|j: int| 0 <= j < k ==> #[trigger] s[j] != '.' {
        let k = choose|k: int|
            0 <= k < s.len() && s[k] != '.' && !('0' <= s[k] <= '9') && !(k == 0 && s[k] == '+')
                && forall|j: int| 0 <= j < k ==> #[trigger] s[j] != '.';
        lemma_no_number(s, k);
        text::lemma_find_char(s, '.', 0);
        let t = retry::before_dot(s);
        assert(t.len() > k) by {
            if let Some(f) = text::find_char(s, '.', 0) {
                if f <= k {
                    assert(s[f] == '.');
                }
            }
        }
        assert(t[k] == s[k]);
        lemma_no_number(t, k);
    }
    let none = Seq::<char>::empty();
    text::lemma_find_char(none, '.', 0);
    assert(retry::before_dot(none) == none);
}

/// A text with a character that is no digit is no number.
proof fn lemma_no_number(s: Seq<char>, k: int)
    requires
        0 <= k < s.len(),
        !('0' <= s[k] <= '9'),
        !(k == 0 && s[k] == '+'),
    ensures
        clock::unsigned_value(s) is None,
{
    if s[0] == '+' {
        let d = s.skip(1);
        assert(d[k - 1] == s[k]);
        assert(!text::digit(d[k - 1]));
    } else {
        assert(!text::digit(s[k]));
    }
}

/// The header is read where its bytes are visible ASCII characters, spaces and
/// tabs; white space around the value does not count.
pub proof fn law_the_header_is_read(
    headers: Map<Seq<char>, Seq<Seq<u8>>>,
    a: Seq<char>,
    t: Seq<char>,
    b: Seq<char>,
)
    requires
        words::blank(a),
        words::bare(t),
        words::blank(b),
    ensures
        !headers.contains_key("retry-after"@) ==> retry::headers_retry_after(headers) is None,
        headers.contains_key("retry-after"@) && (exists|k: int|
            0 <= k < headers["retry-after"@][0].len() && (headers["retry-after"@][0][k] < 32
                && headers["retry-after"@][0][k] != 9 || headers["retry-after"@][0][k] >= 127))
            ==> retry::headers_retry_after(headers) is None,
        headers.contains_key("retry-after"@) && (forall|k: int|
            0 <= k < headers["retry-after"@][0].len() ==> (32 <= #[trigger] headers["retry-after"@][0][k]
                < 127 || headers["retry-after"@][0][k] == 9)) && words::padded(a, t, b).len()
            == headers["retry-after"@][0].len() && (forall|k: int|
            0 <= k < words::padded(a, t, b).len() ==> #[trigger] words::padded(a, t, b)[k]
                == headers["retry-after"@][0][k] as char) ==> retry::headers_retry_after(headers)
            == retry::retry_after(t),
{
    words::law_trim_gives_what_is_padded(a, t, b);
    if headers.contains_key("retry-after"@) {
        let bytes = headers["retry-after"@][0];
        let read = retry::ascii_text(bytes);
        if words::padded(a, t, b).len() == bytes.len() && (forall|k: int|
            0 <= k < words::padded(a, t, b).len() ==> #[trigger] words::padded(a, t, b)[k]
                == bytes[k] as char) {
            assert(read == words::padded(a, t, b));
        }
    }
}

/// The wait grows from one attempt to the next to twice as much, up to two
/// minutes, and the jitter comes on top.
pub proof fn law_the_wait_doubles(base: int, attempt: nat, jitter_ms: int)
    requires
        0 <= base,
    ensures
        retry::backoff_secs(base, 0) == if base < 120 {
            base
        } else {
            120
        },
        retry::backoff_secs(base, attempt + 1) == if 2 * retry::backoff_secs(base, attempt) < 120 {
            2 * retry::backoff_secs(base, attempt)
        } else {
            120
        },
        retry::retry_delay(base, attempt, jitter_ms) == retry::backoff_secs(base, attempt)
            * 1_000_000_000 + jitter_ms * 1_000_000,
{
    let p = vstd::arithmetic::power2::pow2(attempt) as int;
    vstd::arithmetic::power2::lemma_pow2_unfold(attempt + 1);
    vstd::arithmetic::power2::lemma_pow2_pos(attempt);
    vstd::arithmetic::power2::lemma2_to64();
    assert(base * (2 * p) == 2 * (base * p)) by (nonlinear_arith);
    assert(base * 1 == base);
}

/// The jitter lies between nothing and the most, and takes every such value with
/// the nanoseconds of the clock.
pub proof fn law_jitter(nanos: int, most: int)
    requires
        0 <= nanos,
        0 <= most,
    ensures
        0 <= retry::jitter(nanos, most) <= most,
        nanos <= most ==> retry::jitter(nanos, most) == nanos,
        retry::jitter(nanos + most + 1, most) == retry::jitter(nanos, most),
{
    assert(0 <= nanos % (most + 1) < most + 1) by (nonlinear_arith)
        requires
            0 <= nanos,
            0 <= most,
    ;
    if nanos <= most {
        vstd::arithmetic::div_mod::lemma_small_mod(nanos as nat, (most + 1) as nat);
    }
    vstd::arithmetic::div_mod::lemma_mod_add_multiples_vanish(nanos, most + 1);
    assert(nanos + most + 1 == (most + 1) + nanos);
}

/// The reply says that the rate limit holds: by its status, or by refusing the
/// call with that reason.
pub open spec fn limited(status: u16, payload: Tree) -> bool {
    status == 429 || (json::member(payload, "ok"@) == Some(Tree::Bool(false))
        && hearing::member_is(payload, "error"@, "ratelimited"@))
}

/// While the rate limit holds, a request is repeated three times: after the wait
/// that the reply asks for, or a second, doubled each time. Any other reply is
/// final, a success with its payload.
pub proof fn law_history_is_asked_for_again(
    attempt: u32,
    status: u16,
    retry_after_secs: Option<u64>,
    payload: Tree,
    jitter_ms: u64,
)
    ensures
        ({
            let step = retry::history_step(attempt, status, retry_after_secs, payload, jitter_ms);
            let secs = match retry_after_secs {
                Some(n) => n as int,
                None => 1,
            };
            &&& limited(status, payload) && attempt < 3 ==> step == NextStep::Retry {
                wait: retry::retry_delay(secs, attempt as nat, jitter_ms as int),
                retry_after_secs: secs,
            }
            &&& limited(status, payload) && attempt >= 3 ==> step is Exhausted
            &&& !limited(status, payload) && replies::went_well(status, payload) ==> step
                == NextStep::Done(payload)
            &&& !limited(status, payload) && !(200 <= status <= 299) ==> step == NextStep::Failed(
                Failure::Status(status),
            )
            &&& !limited(status, payload) && 200 <= status <= 299 && !replies::went_well(
                status,
                payload,
            ) ==> step matches NextStep::Failed(Failure::Refused(_))
        }),
{
    replies::law_replies_are_judged(status, payload);
}

/// The next try is the present and the wait together.
pub proof fn law_the_next_try(secs: int, nanos: int, wait: int)
    requires
        wait <= i64::MAX * 1_000_000,
    ensures
        retry::retry_time(secs, nanos, wait) == secs * 1_000_000_000 + nanos + wait,
{
}

/// The text is the number in digits, without zeros before it.
pub open spec fn spells(s: Seq<char>, n: int) -> bool {
    &&& s.len() > 0
    &&& forall|k: int| 0 <= k < s.len() ==> '0' <= #[trigger] s[k] <= '9'
    &&& clock::digits_value(s) == n
    &&& s.len() > 1 ==> s[0] != '0'
}

/// A number is spelled in decimal digits.
proof fn lemma_decimal(n: int)
    requires
        0 <= n,
    ensures
        spells(clock::decimal(n), n),
    decreases n,
{
    let s = clock::decimal(n);
    if n < 10 {
        assert(s.drop_last() == Seq::<char>::empty());
        reveal_with_fuel(clock::digits_value, 2);
        lemma_digit(n);
    } else {
        let t = clock::decimal(n / 10);
        lemma_decimal(n / 10);
        lemma_digit(n % 10);
        assert(s.drop_last() == t);
        assert forall|k: int| 0 <= k < s.len() implies '0' <= #[trigger] s[k] <= '9' by {
            if k < t.len() {
                assert(s[k] == t[k]);
            }
        }
        assert(s[0] == t[0]);
        if t.len() == 1 && t[0] == '0' {
            reveal_with_fuel(clock::digits_value, 2);
            assert(t.drop_last() == Seq::<char>::empty());
        }
    }
}

/// A digit as a character.
proof fn lemma_digit(d: int)
    requires
        0 <= d < 10,
    ensures
        clock::digit_char(d) as int - '0' as int == d,
        '0' <= clock::digit_char(d) <= '9',
{
}

/// The low digits of a number are its remainder, with zeros before it.
proof fn lemma_low_digits(n: int, width: nat)
    requires
        0 <= n,
    ensures
        clock::low_digits(n, width).len() == width,
        forall|k: int|
            0 <= k < width ==> '0' <= #[trigger] clock::low_digits(n, width)[k] <= '9',
        n < crate::laws::tens(width) ==> clock::digits_value(clock::low_digits(n, width)) == n,
    decreases width,
{
    let s = clock::low_digits(n, width);
    if width > 0 {
        let t = clock::low_digits(n / 10, (width - 1) as nat);
        lemma_low_digits(n / 10, (width - 1) as nat);
        lemma_digit(n % 10);
        assert(s.drop_last() == t);
        assert forall|k: int| 0 <= k < width implies '0' <= #[trigger] s[k] <= '9' by {
            if k < t.len() {
                assert(s[k] == t[k]);
            }
        }
    }
}

/// A timestamp is the seconds, a dot, and the microseconds in six digits.
pub proof fn law_timestamps_are_seconds_and_microseconds(secs: int, nanos: int)
    requires
        0 <= secs,
        0 <= nanos < 1_000_000_000,
    ensures
        exists|a: Seq<char>, b: Seq<char>|
            {
                &&& clock::timestamp_text(secs, nanos) == #[trigger] words::padded(
                    a,
                    seq!['.'],
                    b,
                )
                &&& spells(a, secs)
                &&& b.len() == 6
                &&& forall|k: int| 0 <= k < 6 ==> '0' <= #[trigger] b[k] <= '9'
                &&& clock::digits_value(b) == nanos / 1000
            },
{
    let a = clock::decimal(secs);
    let b = clock::low_digits(nanos / 1000, 6);
    lemma_decimal(secs);
    lemma_low_digits(nanos / 1000, 6);
    reveal_with_fuel(crate::laws::tens, 7);
    assert(crate::laws::tens(6) == 1_000_000);
    assert(clock::timestamp_text(secs, nanos) == words::padded(a, seq!['.'], b));
}

/// The identifier of a message is made of its channel and its timestamp.
pub proof fn law_message_identifiers(channel_id: Seq<char>, ts: Seq<char>)
    ensures
        inbound::id_of(channel_id, ts) == seq!['s', 'l', 'a', 'c', 'k', '_'] + channel_id
            + seq!['_'] + ts,
{
    reveal_strlit("slack_");
    reveal_strlit("_");
    assert("slack_"@ == seq!['s', 'l', 'a', 'c', 'k', '_']);
    assert("_"@ == seq!['_']);
    assert(inbound::id_of(channel_id, ts) == seq!['s', 'l', 'a', 'c', 'k', '_'] + channel_id
        + seq!['_'] + ts);
}

} // verus!
