//! Rate limits: when to ask for a channel's history again.

use vstd::prelude::*;
use crate::api;
use crate::api::{ApiError, Failure};
use crate::channel::SlackChannel;
use crate::clock;
use crate::clock::Span;
use crate::json;
use crate::json::{Json, Tree};
use crate::outside;
use crate::text;

verus! {

/// How often a request for history is repeated because of a rate limit.
pub const SLACK_HISTORY_MAX_RETRIES: u32 = 3;

/// The seconds to wait where the reply does not say.
pub const SLACK_HISTORY_DEFAULT_RETRY_AFTER_SECS: u64 = 1;

/// The most seconds to wait, before jitter.
pub const SLACK_HISTORY_MAX_BACKOFF_SECS: u64 = 120;

/// The most milliseconds of jitter.
pub const SLACK_HISTORY_MAX_JITTER_MS: u64 = 500;

/// The part of a text before its first dot, or the whole text.
pub open spec fn before_dot(s: Seq<char>) -> Seq<char> {
    match text::find_char(s, '.', 0) {
        Some(i) => s.take(i),
        None => s,
    }
}

/// The whole seconds that a value of the header `Retry-After` stands for.
pub open spec fn retry_after(s: Seq<char>) -> Option<int> {
    match clock::unsigned_value(s) {
        Some(secs) => Some(secs),
        None => clock::unsigned_value(before_dot(s)),
    }
}

/// The bytes are visible ASCII characters, spaces or tabs.
pub open spec fn visible(bytes: Seq<u8>) -> bool {
    forall|i: int| 0 <= i < bytes.len() ==> 32 <= #[trigger] bytes[i] < 127 || bytes[i] == 9
}

/// The text of ASCII bytes.
pub open spec fn ascii_text(bytes: Seq<u8>) -> Seq<char> {
    bytes.map_values(|b: u8| b as char)
}

/// The whole seconds that headers ask to wait: those of the first value of
/// `Retry-After`, if it is plain text.
pub open spec fn headers_retry_after(headers: Map<Seq<char>, Seq<Seq<u8>>>) -> Option<int> {
    if headers.contains_key("retry-after"@) && visible(headers["retry-after"@][0]) {
        retry_after(text::trim(ascii_text(headers["retry-after"@][0])))
    } else {
        None
    }
}

/// The jitter that a number of nanoseconds makes.
pub open spec fn jitter(nanos: int, max_jitter_ms: int) -> int {
    nanos % (max_jitter_ms + 1)
}

/// The seconds to wait before a retry, before jitter: twice as long with each
/// attempt, up to a limit.
pub open spec fn backoff_secs(base: int, attempt: nat) -> int {
    let grown = base * vstd::arithmetic::power2::pow2(attempt);
    if grown < SLACK_HISTORY_MAX_BACKOFF_SECS {
        grown
    } else {
        SLACK_HISTORY_MAX_BACKOFF_SECS as int
    }
}

/// The time to wait before a retry, in nanoseconds.
pub open spec fn retry_delay(base: int, attempt: nat, jitter_ms: int) -> int {
    backoff_secs(base, attempt) * 1_000_000_000 + jitter_ms * 1_000_000
}

/// The text of ASCII bytes, if they are visible.
fn visible_text(bytes: &Vec<u8>) -> (r: Option<Vec<char>>)
    ensures
        match r {
            Some(t) => visible(bytes@) && t@ == ascii_text(bytes@),
            None => !visible(bytes@),
        },
{
    let mut out: Vec<char> = Vec::new();
    let mut i: usize = 0;
    while i < bytes.len()
        invariant
            i <= bytes.len(),
            forall|j: int| 0 <= j < i ==> 32 <= #[trigger] bytes@[j] < 127 || bytes@[j] == 9,
            out@ == ascii_text(bytes@.take(i as int)),
        decreases bytes.len() - i,
    {
        let b: u8 = bytes[i];
        if !(32 <= b && b < 127 || b == 9) {
            proof {
                assert(!(32 <= bytes@[i as int] < 127 || bytes@[i as int] == 9));
            }
            return None;
        }
        out.push(b as char);
        proof {
            assert(out@ == ascii_text(bytes@.take(i + 1)));
        }
        i += 1;
    }
    proof {
        assert(bytes@.take(i as int) == bytes@);
    }
    Some(out)
}

/// The whole seconds that the text of a `Retry-After` value stands for.
fn retry_after_of(s: &[char]) -> (r: Option<u64>)
    ensures
        match r {
            Some(secs) => retry_after(s@) == Some(secs as int),
            None => retry_after(s@) is None,
        },
{
    if let Some(secs) = clock::parse_unsigned(s) {
        return Some(secs);
    }
    proof {
        text::lemma_find_char(s@, '.', 0);
    }
    match text::find_char_in(s, '.', 0) {
        Some(i) => clock::parse_unsigned(vstd::slice::slice_subrange(s, 0, i)),
        None => None,
    }
}

/// The jitter that a number of nanoseconds makes.
pub fn jitter_of(nanos: u32, max_jitter_ms: u64) -> (r: u64)
    requires
        max_jitter_ms < u64::MAX,
    ensures
        r == jitter(nanos as int, max_jitter_ms as int),
        r <= max_jitter_ms,
{
    nanos as u64 % (max_jitter_ms + 1)
}

impl SlackChannel {
    /// The whole seconds that headers ask to wait.
    pub fn parse_retry_after_secs(
        headers: &reqwest::header::HeaderMap<reqwest::header::HeaderValue>,
    ) -> (r: Option<u64>)
        ensures
            match r {
                Some(secs) => headers_retry_after(outside::header_values(*headers)) == Some(
                    secs as int,
                ),
                None => headers_retry_after(outside::header_values(*headers)) is None,
            },
    {
        proof {
            reveal_strlit("retry-after");
        }
        match outside::first_header(headers, "retry-after") {
            Some(bytes) => match visible_text(&bytes) {
                Some(t) => retry_after_of(text::trim_of(t.as_slice())),
                None => None,
            },
            None => None,
        }
    }

    /// The whole seconds that a value of the header `Retry-After` stands for.
    /// A fraction is dropped.
    pub fn parse_retry_after_value(value: &str) -> (r: Option<u64>)
        ensures
            match r {
                Some(secs) => retry_after(value@) == Some(secs as int),
                None => retry_after(value@) is None,
            },
    {
        let chars = text::chars_of(value);
        retry_after_of(chars.as_slice())
    }

    /// A number of milliseconds up to the given one that the system clock
    /// decides.
    pub fn jitter_ms_from_clock(max_jitter_ms: u64) -> (r: u64)
        requires
            max_jitter_ms < u64::MAX,
        ensures
            r <= max_jitter_ms,
            exists|t: std::time::SystemTime|
                r == match #[trigger] outside::unix_time(t) {
                    Some(reading) => jitter(reading.1 as int, max_jitter_ms as int),
                    None => 0,
                },
    {
        let nanos: u32 = match outside::since_epoch(std::time::SystemTime::now()) {
            Some(reading) => reading.1,
            None => 0,
        };
        jitter_of(nanos, max_jitter_ms)
    }

    /// The time to wait before a retry.
    pub fn compute_retry_delay(base_retry_after_secs: u64, attempt: u32, jitter_ms: u64) -> (r:
        Span)
        ensures
            r@ == retry_delay(base_retry_after_secs as int, attempt as nat, jitter_ms as int),
    {
        let secs: u64 = if attempt < 64 {
            proof {
                lemma_shifted_one(attempt);
            }
            match base_retry_after_secs.checked_mul(1u64 << attempt) {
                Some(grown) => if grown < SLACK_HISTORY_MAX_BACKOFF_SECS {
                    grown
                } else {
                    SLACK_HISTORY_MAX_BACKOFF_SECS
                },
                None => SLACK_HISTORY_MAX_BACKOFF_SECS,
            }
        } else {
            proof {
                lemma_large_power(base_retry_after_secs as int, attempt as nat);
            }
            if base_retry_after_secs == 0 {
                0
            } else {
                SLACK_HISTORY_MAX_BACKOFF_SECS
            }
        };
        Span::from_secs(secs).plus(Span::from_millis(jitter_ms))
    }
}

/// The longest wait that is added to a retry's timestamp, in nanoseconds: what
/// 63 bits of milliseconds hold.
pub open spec fn longest_wait() -> int {
    i64::MAX * 1_000_000
}

/// The time of a retry in nanoseconds since the Unix epoch. A wait that is too
/// long counts as none.
pub open spec fn retry_time(secs: int, nanos: int, wait: int) -> int {
    let now = secs * 1_000_000_000 + nanos;
    if wait <= longest_wait() {
        now + wait
    } else {
        now
    }
}

/// There is a date for the time, in nanoseconds since the Unix epoch.
pub open spec fn dated(time: int) -> bool {
    time / 1_000_000_000 <= outside::LAST_DATED_SECOND
}

/// The text of RFC 3339 for a time in nanoseconds since the Unix epoch.
pub open spec fn time_text(time: int) -> Seq<char> {
    outside::rfc3339((time / 1_000_000_000) as i64, (time % 1_000_000_000) as u32)
}

/// The time of a retry in nanoseconds since the Unix epoch.
fn retry_time_of(secs: u64, nanos: u32, wait: Span) -> (r: i128)
    requires
        nanos < 1_000_000_000,
    ensures
        r == retry_time(secs as int, nanos as int, wait@),
{
    let now: i128 = secs as i128 * 1_000_000_000 + nanos as i128;
    if wait.nanos <= 9_223_372_036_854_775_807_000_000 {
        now + wait.nanos as i128
    } else {
        now
    }
}

impl SlackChannel {
    /// The text of the time at which a request is repeated, for a reading of
    /// the clock.
    pub fn retry_timestamp_at(secs: u64, nanos: u32, wait: Span) -> (r: String)
        requires
            nanos < 1_000_000_000,
            dated(retry_time(secs as int, nanos as int, wait@)),
        ensures
            r@ == time_text(retry_time(secs as int, nanos as int, wait@)),
    {
        let time: i128 = retry_time_of(secs, nanos, wait);
        let whole: i64 = (time / 1_000_000_000) as i64;
        let rest: u32 = (time % 1_000_000_000) as u32;
        outside::write_rfc3339(whole, rest)
    }

    /// The text of the time at which a request is repeated, if there is a date
    /// for it. A clock that stands before the Unix epoch gives none.
    pub fn next_retry_timestamp(wait: Span) -> (r: Option<String>)
        ensures
            exists|t: std::time::SystemTime|
                match #[trigger] outside::unix_time(t) {
                    Some(reading) => {
                        let time = retry_time(reading.0 as int, reading.1 as int, wait@);
                        match r {
                            Some(s) => dated(time) && s@ == time_text(time),
                            None => !dated(time),
                        }
                    },
                    None => r is None,
                },
    {
        match outside::since_epoch(std::time::SystemTime::now()) {
            Some(reading) => {
                let time: i128 = retry_time_of(reading.0, reading.1, wait);
                if time / 1_000_000_000 <= outside::LAST_DATED_SECOND as i128 {
                    Some(Self::retry_timestamp_at(reading.0, reading.1, wait))
                } else {
                    None
                }
            },
            None => None,
        }
    }
}

/// A request for the history of a channel that is being repeated.
#[derive(Clone, Copy, Debug)]
pub struct HistoryFetch {
    /// How often the request was repeated so far.
    pub attempt: u32,
    /// The time that was spent waiting.
    pub total_wait: Span,
}

/// What to do next about a request for history.
pub enum HistoryStep {
    /// Wait and ask again. The reply asked for the given number of seconds.
    Retry { wait: Span, retry_after_secs: u64 },
    /// The rate limit stayed too long; there will be no history.
    Exhausted,
    /// The request failed; there will be no history.
    Failed(ApiError),
    /// The payload with the history.
    Done(Json),
}

/// What to do next about a request for history, as contracts speak of it.
pub enum NextStep {
    Retry { wait: int, retry_after_secs: int },
    Exhausted,
    Failed(Failure),
    Done(Tree),
}

impl View for HistoryStep {
    type V = NextStep;

    open spec fn view(&self) -> NextStep {
        match self {
            HistoryStep::Retry { wait, retry_after_secs } => NextStep::Retry {
                wait: wait@,
                retry_after_secs: *retry_after_secs as int,
            },
            HistoryStep::Exhausted => NextStep::Exhausted,
            HistoryStep::Failed(e) => NextStep::Failed(e@),
            HistoryStep::Done(payload) => NextStep::Done(payload@),
        }
    }
}

/// The reply says that a rate limit was reached, by its HTTP status or by the
/// reason of a refusal.
pub open spec fn rate_limited(status: u16, payload: Tree) -> bool {
    status == 429 || (api::refused(payload) && json::text_member(payload, "error"@) == Some(
        "ratelimited"@,
    ))
}

/// The seconds to wait that a reply asks for, or the default.
pub open spec fn wanted_wait(retry_after_secs: Option<u64>) -> int {
    match retry_after_secs {
        Some(secs) => secs as int,
        None => SLACK_HISTORY_DEFAULT_RETRY_AFTER_SECS as int,
    }
}

/// What to do after a reply to a request for history.
pub open spec fn history_step(
    attempt: u32,
    status: u16,
    retry_after_secs: Option<u64>,
    payload: Tree,
    jitter_ms: u64,
) -> NextStep {
    if rate_limited(status, payload) {
        if attempt >= SLACK_HISTORY_MAX_RETRIES {
            NextStep::Exhausted
        } else {
            NextStep::Retry {
                wait: retry_delay(wanted_wait(retry_after_secs), attempt as nat, jitter_ms as int),
                retry_after_secs: wanted_wait(retry_after_secs),
            }
        }
    } else {
        match api::reply_failure(status, payload) {
            Some(failure) => NextStep::Failed(failure),
            None => NextStep::Done(payload),
        }
    }
}

/// The request once a step was decided: a retry is counted, and its wait added.
pub open spec fn after_step(before: HistoryFetch, after: HistoryFetch, step: NextStep) -> bool {
    match step {
        NextStep::Retry { wait, .. } => after.attempt == before.attempt + 1 && after.total_wait@
            == before.total_wait@ + wait,
        _ => after == before,
    }
}

/// The longest wait before one retry, in nanoseconds.
pub open spec fn longest_delay() -> int {
    SLACK_HISTORY_MAX_BACKOFF_SECS * 1_000_000_000 + SLACK_HISTORY_MAX_JITTER_MS * 1_000_000
}

impl HistoryFetch {
    /// The request was not repeated too often, nor waited for too long.
    pub open spec fn wf(self) -> bool {
        self.attempt <= SLACK_HISTORY_MAX_RETRIES && self.total_wait@ <= self.attempt
            * longest_delay()
    }

    /// A request that was not sent yet.
    pub fn new() -> (r: HistoryFetch)
        ensures
            r.wf(),
            r.attempt == 0,
            r.total_wait@ == 0,
    {
        HistoryFetch { attempt: 0, total_wait: Span::from_secs(0) }
    }

    /// Takes in what a reply says: its HTTP status, the seconds that its
    /// headers ask to wait, and its payload.
    pub fn decide(
        &mut self,
        status: u16,
        retry_after_secs: Option<u64>,
        payload: Json,
        jitter_ms: u64,
    ) -> (r: HistoryStep)
        requires
            old(self).wf(),
            jitter_ms <= SLACK_HISTORY_MAX_JITTER_MS,
        ensures
            r@ == history_step(old(self).attempt, status, retry_after_secs, payload@, jitter_ms),
            after_step(*old(self), *final(self), r@),
            final(self).wf(),
    {
        let limited = status == 429 || (api::is_refused(&payload) && match payload.get_str(
            "error",
        ) {
            Some(reason) => text::same(reason, "ratelimited"),
            None => false,
        });
        if !limited {
            return match api::check_payload(status, &payload) {
                Ok(_) => HistoryStep::Done(payload),
                Err(e) => HistoryStep::Failed(e),
            };
        }
        if self.attempt >= SLACK_HISTORY_MAX_RETRIES {
            return HistoryStep::Exhausted;
        }
        let wanted: u64 = match retry_after_secs {
            Some(secs) => secs,
            None => SLACK_HISTORY_DEFAULT_RETRY_AFTER_SECS,
        };
        let wait = SlackChannel::compute_retry_delay(wanted, self.attempt, jitter_ms);
        proof {
            law_retry_delay_is_bounded(wanted as int, self.attempt as nat, jitter_ms as int);
            assert((self.attempt + 1) * longest_delay() == self.attempt * longest_delay()
                + longest_delay()) by (nonlinear_arith);
        }
        self.attempt = self.attempt + 1;
        self.total_wait = self.total_wait.plus(wait);
        HistoryStep::Retry { wait, retry_after_secs: wanted }
    }

    /// Takes in a reply. The system clock decides on the jitter.
    pub fn on_reply(
        &mut self,
        status: u16,
        headers: &reqwest::header::HeaderMap<reqwest::header::HeaderValue>,
        body: &str,
    ) -> (r: HistoryStep)
        requires
            old(self).wf(),
        ensures
            exists|retry_after_secs: Option<u64>, jitter_ms: u64|
                {
                    &&& jitter_ms <= SLACK_HISTORY_MAX_JITTER_MS
                    &&& headers_retry_after(outside::header_values(*headers)) == match
                        retry_after_secs {
                        Some(secs) => Some(secs as int),
                        None => None,
                    }
                    &&& r@ == #[trigger] history_step(
                        old(self).attempt,
                        status,
                        retry_after_secs,
                        json::body_value(body@),
                        jitter_ms,
                    )
                },
            after_step(*old(self), *final(self), r@),
            final(self).wf(),
    {
        let retry_after_secs = SlackChannel::parse_retry_after_secs(headers);
        let jitter_ms: u64 = SlackChannel::jitter_ms_from_clock(SLACK_HISTORY_MAX_JITTER_MS);
        self.decide(status, retry_after_secs, json::parse_body(body), jitter_ms)
    }
}

/// A retry waits for no longer than the limit and the jitter together, and for
/// at least the jitter.
pub proof fn law_retry_delay_is_bounded(base: int, attempt: nat, jitter_ms: int)
    requires
        base >= 0,
        jitter_ms >= 0,
    ensures
        jitter_ms * 1_000_000 <= retry_delay(base, attempt, jitter_ms)
            <= SLACK_HISTORY_MAX_BACKOFF_SECS * 1_000_000_000 + jitter_ms * 1_000_000,
{
    vstd::arithmetic::power2::lemma_pow2_pos(attempt);
    let p = vstd::arithmetic::power2::pow2(attempt) as int;
    assert(base * p >= 0) by (nonlinear_arith)
        requires
            base >= 0,
            p > 0,
    ;
}

/// Without jitter a retry waits twice as long as the one before it, unless that
/// is more than the limit.
pub proof fn law_retry_delay_doubles(base: int, attempt: nat)
    requires
        base >= 0,
    ensures
        backoff_secs(base, attempt + 1) == if 2 * backoff_secs(base, attempt)
            < SLACK_HISTORY_MAX_BACKOFF_SECS {
            2 * backoff_secs(base, attempt)
        } else {
            SLACK_HISTORY_MAX_BACKOFF_SECS as int
        },
{
    vstd::arithmetic::power2::lemma_pow2_unfold(attempt + 1);
    let p = vstd::arithmetic::power2::pow2(attempt) as int;
    assert(base * (2 * p) == 2 * (base * p)) by (nonlinear_arith);
}

/// A later retry waits for no shorter time.
pub proof fn law_retry_delay_grows(base: int, attempt: nat, later: nat, jitter_ms: int)
    requires
        base >= 0,
        attempt <= later,
    ensures
        retry_delay(base, attempt, jitter_ms) <= retry_delay(base, later, jitter_ms),
    decreases later,
{
    if attempt < later {
        let before = (later - 1) as nat;
        law_retry_delay_grows(base, attempt, before, jitter_ms);
        law_retry_delay_doubles(base, before);
        law_retry_delay_is_bounded(base, before, 0);
    }
}

/// Whatever the replies are, a request is repeated three times at most, and the
/// waits before the repetitions stay within three times the longest one.
pub proof fn law_history_retries_end(fetch: HistoryFetch)
    requires
        fetch.wf(),
    ensures
        fetch.attempt <= 3,
        fetch.total_wait@ <= 3 * longest_delay(),
        forall|status: u16, wanted: Option<u64>, payload: Tree, jitter_ms: u64|
            fetch.attempt == 3 ==> !(#[trigger] history_step(
                fetch.attempt,
                status,
                wanted,
                payload,
                jitter_ms,
            ) is Retry),
{
}

/// One shifted left is a power of two.
proof fn lemma_shifted_one(n: u32)
    requires
        n < 64,
    ensures
        1u64 << n == vstd::arithmetic::power2::pow2(n as nat),
{
    vstd::bits::lemma_u64_pow2_no_overflow(n as nat);
    vstd::bits::lemma_u64_shl_is_mul(1, n as u64);
    assert(1u64 << n == 1u64 << (n as u64)) by (bit_vector);
}

/// A positive number times a large power of two is large.
proof fn lemma_large_power(base: int, n: nat)
    requires
        base >= 0,
        n >= 64,
    ensures
        base == 0 ==> base * vstd::arithmetic::power2::pow2(n) == 0,
        base > 0 ==> base * vstd::arithmetic::power2::pow2(n) >= SLACK_HISTORY_MAX_BACKOFF_SECS,
{
    vstd::arithmetic::power2::lemma2_to64();
    vstd::arithmetic::power2::lemma_pow2_strictly_increases(7, n);
    let p = vstd::arithmetic::power2::pow2(n) as int;
    assert(base > 0 ==> base * p >= p) by (nonlinear_arith)
        requires
            p > 0,
    ;
}

} // verus!
