//! Account feedback affects future dispatch only; it never repeats a model call.
use crate::clock;
use crate::clock::checked_after;
use crate::clock::max_of;
use crate::clock::since;
use crate::clock::MILLISECOND;
use crate::clock::SECOND;
use crate::table::Table;
use crate::text;
use crate::text::chars_of;
use crate::text::digit;
use crate::text::parse_number;
use crate::text::trim;
use vstd::prelude::*;

verus! {

broadcast use vstd::seq_lib::group_seq_properties;

/// How many successes in a row let the limit grow.
pub const STREAK: u32 = 20;

/// How long an account has to be healthy before the limit grows.
pub const HEALTHY: u128 = 60_000_000_000;

/// Why an account takes no requests.
#[derive(Clone, Copy, Debug, PartialEq, Eq, Structural)]
pub enum BlockedReason {
    QuotaExhausted,
    AuthInvalid,
}

impl BlockedReason {
    pub open spec fn name(self) -> Seq<char> {
        match self {
            BlockedReason::QuotaExhausted => "quota_exhausted"@,
            BlockedReason::AuthInvalid => "auth_invalid"@,
        }
    }

    pub fn text(self) -> (r: &'static str)
        ensures
            r@ == self.name(),
    {
        match self {
            BlockedReason::QuotaExhausted => "quota_exhausted",
            BlockedReason::AuthInvalid => "auth_invalid",
        }
    }
}

/// What an account's answers say about its next requests.
#[derive(Clone, Copy, Debug, PartialEq, Eq, Structural)]
pub struct Throttle {
    /// No request starts before this instant.
    pub until: Option<u128>,
    pub blocked: bool,
    pub blocked_reason: Option<BlockedReason>,
    /// How many requests may run at once; nothing is known where it is 0.
    pub limit: usize,
    /// How often in a row the account answered that there were too many requests.
    pub limited: u32,
    /// How often in a row the account's server failed.
    pub failures: u32,
    pub healthy_since: Option<u128>,
    pub successes: u32,
}

/// The seconds since 1970 of the date that `httpdate::parse_http_date` reads, if it reads one.
pub uninterp spec fn http_date(s: Seq<char>) -> Option<u64>;

/// `httpdate::parse_http_date`, in whole seconds since 1970: it reads no earlier date and no
/// fractions. What it reads depends on the text alone.
#[verifier::external_body]
fn parse_date(s: &str) -> (r: Option<u64>)
    ensures
        r == http_date(s@),
{
    let at = httpdate::parse_http_date(s).ok();
    at.map(|at| at.duration_since(std::time::UNIX_EPOCH).unwrap_or_default().as_secs())
}

/// The delay that a `retry-after` value asks for, where `date` is the date in it: a number of
/// seconds, at most what 64 bits hold, or the time up to the date.
pub open spec fn delay_of(value: Seq<char>, date: Option<u64>, now: u128) -> Option<u128> {
    if value.len() > 0 && text::all_digits(value) {
        let seconds = match text::number_of(value) {
            Some(n) => n,
            None => u64::MAX,
        };
        Some((seconds * SECOND) as u128)
    } else {
        match date {
            Some(at) => Some(clock::elapsed((at * SECOND) as u128, now) as u128),
            None => None,
        }
    }
}

/// The delay that a `retry-after` value asks for.
pub open spec fn retry_delay(value: Seq<char>, now: u128) -> Option<u128> {
    delay_of(text::trimmed(value), http_date(text::trimmed(value)), now)
}

/// The delay that a `retry-after` value asks for, where `date` is the date in it.
pub fn delay_from(value: &str, date: Option<u64>, now: u128) -> (r: Option<u128>)
    ensures
        r == delay_of(value@, date, now),
{
    let chars = chars_of(value);
    let mut digits = true;
    let mut i: usize = 0;
    while i < chars.len()
        invariant
            i <= chars.len(),
            chars@ == value@,
            digits == forall|k: int| 0 <= k < i ==> text::is_digit(#[trigger] value@[k]),
        decreases chars.len() - i,
    {
        if !digit(chars[i]) {
            assert(!text::is_digit(value@[i as int]));
            digits = false;
        }
        i += 1;
    }
    if chars.len() > 0 && digits {
        let seconds: u64 = match parse_number(value) {
            Some(n) => n,
            None => u64::MAX,
        };
        Some(seconds as u128 * SECOND)
    } else {
        match date {
            Some(at) => Some(since(at as u128 * SECOND, now)),
            None => None,
        }
    }
}

/// The delay that a `retry-after` value asks for; `now` counts nanoseconds since 1970.
pub fn retry_after(value: &str, now: u128) -> (r: Option<u128>)
    ensures
        r == retry_delay(value@, now),
{
    let value = trim(value);
    let date = parse_date(&value);
    delay_from(&value, date, now)
}

/// The delay after a number of answers in a row that there were too many requests.
pub open spec fn backoff_of(limited: u32) -> u64 {
    if limited <= 1 {
        5
    } else if limited == 2 {
        10
    } else if limited == 3 {
        20
    } else if limited == 4 {
        40
    } else if limited == 5 {
        80
    } else {
        120
    }
}

fn backoff(limited: u32) -> (r: u64)
    ensures
        r == backoff_of(limited),
{
    if limited <= 1 {
        5
    } else if limited == 2 {
        10
    } else if limited == 3 {
        20
    } else if limited == 4 {
        40
    } else if limited == 5 {
        80
    } else {
        120
    }
}

pub open spec fn one_more(n: u32) -> u32 {
    if n < u32::MAX {
        (n + 1) as u32
    } else {
        n
    }
}

/// A little extra delay, under a quarter of a second or just over, taken from the wall clock.
pub open spec fn jitter_of(wall: u128) -> u128 {
    ((wall % SECOND) / MILLISECOND % 251 * MILLISECOND) as u128
}

/// The throttle after an answer that gives no reason to slow down or speed up.
pub open spec fn after_status(t: Throttle, status: u16) -> Throttle {
    Throttle {
        blocked: t.blocked || status == 401 || status == 402,
        blocked_reason: if status == 402 {
            Some(BlockedReason::QuotaExhausted)
        } else if status == 401 {
            Some(BlockedReason::AuthInvalid)
        } else {
            t.blocked_reason
        },
        failures: if status < 500 {
            0
        } else {
            t.failures
        },
        ..t
    }
}

/// The throttle with a cooldown that ends no earlier than `end`; an end that the clock cannot
/// express blocks the account.
pub open spec fn cooled(t: Throttle, end: Option<u128>) -> Throttle {
    match end {
        Some(end) => Throttle {
            until: Some(
                match t.until {
                    Some(old) => clock::larger(old, end),
                    None => end,
                },
            ),
            ..t
        },
        None => Throttle { blocked: true, ..t },
    }
}

/// When a cooldown ends.
pub open spec fn cooldown_end(now: u128, delay: u128, wall: u128) -> Option<u128> {
    match clock::after(now, delay) {
        Some(at) => clock::after(at, jitter_of(wall)),
        None => None,
    }
}

/// The throttle after a request failed because of load or on the server's side.
pub open spec fn after_failure(
    t: Throttle,
    status: u16,
    hint: Option<u128>,
    now: u128,
    wall: u128,
) -> Throttle {
    let counted = Throttle {
        successes: 0,
        healthy_since: None,
        failures: if status >= 500 {
            one_more(t.failures)
        } else {
            0
        },
        limited: if status == 429 {
            one_more(t.limited)
        } else {
            t.limited
        },
        ..t
    };
    if status == 429 || counted.failures >= 3 {
        let delay = match hint {
            Some(delay) => delay,
            None => (backoff_of(counted.limited) * SECOND) as u128,
        };
        cooled(Throttle { limit: 1, ..counted }, cooldown_end(now, delay, wall))
    } else {
        counted
    }
}

/// The throttle after a success.
pub open spec fn after_success(t: Throttle, now: u128, maximum: usize) -> Throttle {
    let since = match t.healthy_since {
        Some(at) => at,
        None => now,
    };
    if t.successes + 1 >= STREAK && clock::elapsed(now, since) >= HEALTHY {
        Throttle {
            failures: 0,
            limit: if t.limit < maximum {
                (t.limit + 1) as usize
            } else {
                maximum
            },
            limited: 0,
            successes: 0,
            healthy_since: Some(now),
            ..t
        }
    } else {
        Throttle {
            failures: 0,
            successes: (t.successes + 1) as u32,
            healthy_since: Some(since),
            ..t
        }
    }
}

/// Whether a cooldown is still on.
pub open spec fn cooling(t: Throttle, now: u128) -> bool {
    t.until matches Some(until) && now < until
}

/// The throttle after an answer.
pub open spec fn observed(
    t: Throttle,
    status: u16,
    hint: Option<u128>,
    now: u128,
    wall: u128,
    maximum: usize,
) -> Throttle {
    let t = after_status(t, status);
    if status == 429 || status >= 500 {
        after_failure(t, status, hint, now, wall)
    } else if 200 <= status < 300 && !cooling(t, now) {
        after_success(t, now, maximum)
    } else {
        t
    }
}

/// The delay that an answer's headers ask for.
pub open spec fn hint_of(headers: Map<Seq<char>, String>, wall: u128) -> Option<u128> {
    if headers.contains_key("retry-after"@) {
        retry_delay(headers["retry-after"@]@, wall)
    } else {
        None
    }
}

/// What is known of an account before it answered.
pub open spec fn fresh(limit: usize) -> Throttle {
    Throttle {
        until: None,
        blocked: false,
        blocked_reason: None,
        limit,
        limited: 0,
        failures: 0,
        healthy_since: None,
        successes: 0,
    }
}

impl Throttle {
    /// A throttle that nothing is known of but its limit.
    pub fn with_limit(limit: usize) -> (r: Throttle)
        ensures
            r == fresh(limit),
    {
        Throttle {
            until: None,
            blocked: false,
            blocked_reason: None,
            limit,
            limited: 0,
            failures: 0,
            healthy_since: None,
            successes: 0,
        }
    }

    /// Takes note of an answer's status; `now` is the instant and `wall` the nanoseconds since
    /// 1970.
    pub fn observe(
        &mut self,
        status: u16,
        headers: &Table<String, String>,
        now: u128,
        wall: u128,
        maximum: usize,
    )
        requires
            headers.wf(),
            old(self).successes < u32::MAX,
        ensures
            *final(self) == observed(
                *old(self),
                status,
                hint_of(headers@, wall),
                now,
                wall,
                maximum,
            ),
    {
        let key = "retry-after".to_owned();
        let hint = match headers.get(&key) {
            Some(value) => retry_after(value, wall),
            None => None,
        };
        self.observe_hint(status, hint, now, wall, maximum);
    }

    /// Takes note of an answer's status and of the delay that it asks for.
    pub fn observe_hint(
        &mut self,
        status: u16,
        hint: Option<u128>,
        now: u128,
        wall: u128,
        maximum: usize,
    )
        requires
            old(self).successes < u32::MAX,
        ensures
            *final(self) == observed(*old(self), status, hint, now, wall, maximum),
    {
        if status == 401 || status == 402 {
            self.blocked = true;
            self.blocked_reason = Some(
                if status == 402 {
                    BlockedReason::QuotaExhausted
                } else {
                    BlockedReason::AuthInvalid
                },
            );
        }
        if status < 500 {
            self.failures = 0;
        }
        let cooling = match self.until {
            Some(until) => now < until,
            None => false,
        };
        if status == 429 || status >= 500 {
            self.successes = 0;
            self.healthy_since = None;
            self.failures = if status >= 500 {
                self.failures.saturating_add(1)
            } else {
                0
            };
            if status == 429 {
                self.limited = self.limited.saturating_add(1);
            }
            if status == 429 || self.failures >= 3 {
                self.limit = 1;
                let delay: u128 = match hint {
                    Some(delay) => delay,
                    None => backoff(self.limited) as u128 * SECOND,
                };
                // A little extra, so that accounts do not come back all at once; what the
                // server asks for is never cut short.
                let jitter: u128 = (wall % SECOND) / MILLISECOND % 251 * MILLISECOND;
                let end = match checked_after(now, delay) {
                    Some(at) => checked_after(at, jitter),
                    None => None,
                };
                match end {
                    Some(end) => {
                        self.until = Some(
                            match self.until {
                                Some(old) => max_of(old, end),
                                None => end,
                            },
                        );
                    },
                    None => {
                        self.blocked = true;
                    },
                }
            }
        } else if 200 <= status && status < 300 && !cooling {
            self.failures = 0;
            self.successes += 1;
            let healthy: u128 = match self.healthy_since {
                Some(at) => at,
                None => now,
            };
            self.healthy_since = Some(healthy);
            if self.successes >= STREAK && since(now, healthy) >= HEALTHY {
                self.limit = if self.limit < maximum {
                    self.limit + 1
                } else {
                    maximum
                };
                self.limited = 0;
                self.successes = 0;
                self.healthy_since = Some(now);
            }
        }
    }
}

/// No answer shortens a cooldown or lifts a block.
pub proof fn law_cooldown_never_shortened(
    t: Throttle,
    status: u16,
    hint: Option<u128>,
    now: u128,
    wall: u128,
    maximum: usize,
)
    ensures
        ({
            let next = observed(t, status, hint, now, wall, maximum);
            &&& t.until matches Some(old) ==> (next.until matches Some(until) && until >= old)
            &&& t.blocked ==> next.blocked
        }),
{
}

/// An answer of too many requests is never followed by a start before the delay that it asked
/// for has passed, unless the account is blocked altogether.
pub proof fn law_hint_is_respected(
    t: Throttle,
    delay: u128,
    now: u128,
    wall: u128,
    maximum: usize,
)
    ensures
        ({
            let next = observed(t, 429, Some(delay), now, wall, maximum);
            next.blocked || (next.until matches Some(until) && until >= now + delay)
        }),
{
}

/// A success during a cooldown changes nothing but the count of failures.
pub proof fn law_success_cannot_erase_cooldown(
    t: Throttle,
    status: u16,
    hint: Option<u128>,
    now: u128,
    wall: u128,
    maximum: usize,
)
    requires
        200 <= status < 300,
        cooling(t, now),
    ensures
        observed(t, status, hint, now, wall, maximum) == (Throttle { failures: 0, ..t }),
{
}

/// A limit between one and the maximum stays there, and grows by one at most.
pub proof fn law_limit_stays_in_range(
    t: Throttle,
    status: u16,
    hint: Option<u128>,
    now: u128,
    wall: u128,
    maximum: usize,
)
    requires
        1 <= t.limit <= maximum,
    ensures
        1 <= observed(t, status, hint, now, wall, maximum).limit <= maximum,
        observed(t, status, hint, now, wall, maximum).limit <= t.limit + 1,
{
}

/// An answer with status 401 or 402 blocks the account whatever was known before: with the
/// reason `auth_invalid` after 401 and `quota_exhausted` after 402.
pub proof fn law_refusals_block(
    t: Throttle,
    status: u16,
    hint: Option<u128>,
    now: u128,
    wall: u128,
    maximum: usize,
)
    requires
        status == 401 || status == 402,
    ensures
        ({
            let next = observed(t, status, hint, now, wall, maximum);
            &&& next.blocked
            &&& next.blocked_reason is Some
            &&& status == 401 ==> next.blocked_reason->0.name() == "auth_invalid"@
            &&& status == 402 ==> next.blocked_reason->0.name() == "quota_exhausted"@
            &&& next.until == t.until && next.limit == t.limit
        }),
{
}

/// No other answer changes the reason, and another one blocks only where the clock cannot
/// express the end of the delay.
pub proof fn law_other_answers_do_not_block(
    t: Throttle,
    status: u16,
    hint: Option<u128>,
    now: u128,
    wall: u128,
    maximum: usize,
)
    requires
        status != 401,
        status != 402,
    ensures
        ({
            let next = observed(t, status, hint, now, wall, maximum);
            &&& next.blocked_reason == t.blocked_reason
            &&& next.blocked && !t.blocked ==> {
                &&& status == 429 || status >= 500
                &&& hint matches Some(delay) ==> now + delay + 250_000_000
                    > 9_223_372_036_854_775_807_999_999_999
                &&& hint is None ==> now + 120_250_000_000 > 9_223_372_036_854_775_807_999_999_999
            }
        }),
{
    lemma_jitter(wall);
}

proof fn lemma_jitter(wall: u128)
    ensures
        0 <= jitter_of(wall) <= 250_000_000,
{
    let n: int = ((wall % SECOND) / MILLISECOND % 251) as int;
    assert(0 <= n <= 250);
    assert(0 <= n * 1_000_000 <= 250_000_000) by (nonlinear_arith)
        requires
            0 <= n <= 250,
    ;
}

/// The delay without a hint is five seconds the first time, doubles with each further answer of
/// too many requests, and stays at two minutes at most.
pub proof fn law_delays_double(n: u32)
    requires
        1 <= n < u32::MAX,
    ensures
        backoff_of(1) == 5,
        2 * backoff_of(n) <= 120 ==> backoff_of((n + 1) as u32) == 2 * backoff_of(n),
        2 * backoff_of(n) > 120 ==> backoff_of((n + 1) as u32) == 120,
{
}

/// An answer of too many requests leaves one request at a time and no start before the delay is
/// over: the delay that was asked for or, where none was, one that grows with each such answer in
/// a row. It lasts at most a quarter of a second longer than that.
pub proof fn law_too_many_requests(
    t: Throttle,
    hint: Option<u128>,
    now: u128,
    wall: u128,
    maximum: usize,
)
    requires
        t.limited < u32::MAX,
    ensures
        ({
            let next = observed(t, 429, hint, now, wall, maximum);
            let delay: int = match hint {
                Some(delay) => delay as int,
                None => backoff_of((t.limited + 1) as u32) * 1_000_000_000,
            };
            &&& next.limit == 1
            &&& next.limited == t.limited + 1
            &&& next.failures == 0 && next.successes == 0 && next.healthy_since is None
            &&& next.blocked || (next.until matches Some(until) && now + delay <= until)
            &&& (t.until is None || t.until->0 <= now + delay) && next.until is Some
                && next.until != t.until ==> next.until->0 <= now + delay + 250_000_000
        }),
{
    lemma_jitter(wall);
}

/// The server's failures count in a row. Two change nothing; from the third on there is one
/// request at a time and no start before the delay is over.
pub proof fn law_third_failure_slows_down(
    t: Throttle,
    status: u16,
    hint: Option<u128>,
    now: u128,
    wall: u128,
    maximum: usize,
)
    requires
        status >= 500,
        t.failures < u32::MAX,
    ensures
        ({
            let next = observed(t, status, hint, now, wall, maximum);
            let delay: int = match hint {
                Some(delay) => delay as int,
                None => backoff_of(t.limited) * 1_000_000_000,
            };
            &&& next.failures == t.failures + 1
            &&& next.limited == t.limited
            &&& next.successes == 0 && next.healthy_since is None
            &&& next.failures < 3 ==> next.limit == t.limit && next.until == t.until
                && next.blocked == t.blocked
            &&& next.failures >= 3 ==> next.limit == 1 && (next.blocked || (
            next.until matches Some(until) && now + delay <= until))
            &&& (t.until is None || t.until->0 <= now + delay) && next.until is Some
                && next.until != t.until ==> next.until->0 <= now + delay + 250_000_000
        }),
{
    lemma_jitter(wall);
}

/// A success outside a cooldown ends a row of failures. The limit grows, by one and up to the
/// maximum, exactly when it is the twentieth in a row or a later one and the account has been
/// healthy for a minute; the row then starts anew.
pub proof fn law_limit_grows_after_a_healthy_minute(
    t: Throttle,
    status: u16,
    hint: Option<u128>,
    now: u128,
    wall: u128,
    maximum: usize,
)
    requires
        200 <= status < 300,
        t.until is None || t.until->0 <= now,
        t.successes < u32::MAX,
    ensures
        ({
            let next = observed(t, status, hint, now, wall, maximum);
            let due = t.successes + 1 >= 20 && t.healthy_since is Some && now
                >= t.healthy_since->0 + 60_000_000_000;
            &&& next.failures == 0
            &&& next.until == t.until && next.blocked == t.blocked
            &&& due ==> {
                &&& next.limit <= maximum
                &&& next.limit == t.limit + 1 || (t.limit >= maximum && next.limit == maximum)
                &&& next.limited == 0 && next.successes == 0 && next.healthy_since == Some(now)
            }
            &&& !due ==> {
                &&& next.limit == t.limit && next.limited == t.limited
                &&& next.successes == t.successes + 1
                &&& t.healthy_since is Some ==> next.healthy_since == t.healthy_since
                &&& t.healthy_since is None ==> next.healthy_since == Some(now)
            }
        }),
{
}

/// An answer that is no success, no refusal of the account, no sign of load and no failure of the
/// server only ends a row of such failures.
pub proof fn law_other_answers_change_nothing(
    t: Throttle,
    status: u16,
    hint: Option<u128>,
    now: u128,
    wall: u128,
    maximum: usize,
)
    requires
        status < 200 || (300 <= status < 500 && status != 401 && status != 402 && status != 429),
    ensures
        observed(t, status, hint, now, wall, maximum) == (Throttle { failures: 0, ..t }),
{
}

/// A delay in digits is that many seconds; a date that lies ahead is reached when the delay has
/// passed; one in the past asks for no delay; and what is neither asks for nothing.
pub proof fn law_delay_reaches_the_date(value: Seq<char>, date: Option<u64>, now: u128)
    ensures
        ({
            let delay = delay_of(value, date, now);
            let digits = value.len() > 0 && forall|k: int|
                0 <= k < value.len() ==> '0' <= #[trigger] value[k] <= '9';
            &&& digits && text::number_of(value) is Some ==> delay == Some(
                (text::number_of(value)->0 * 1_000_000_000) as u128,
            )
            &&& digits && text::number_of(value) is None ==> delay == Some(
                18_446_744_073_709_551_615_000_000_000u128,
            )
            &&& !digits && date is None ==> delay is None
            &&& !digits && date is Some && date->0 * 1_000_000_000 >= now ==> delay is Some && now
                + delay->0 == date->0 * 1_000_000_000
            &&& !digits && date is Some && date->0 * 1_000_000_000 < now ==> delay == Some(0u128)
        }),
{
    assert(text::all_digits(value) <==> forall|k: int|
        0 <= k < value.len() ==> '0' <= #[trigger] value[k] <= '9') by {
        if text::all_digits(value) {
            assert forall|k: int| 0 <= k < value.len() implies '0' <= #[trigger] value[k]
                <= '9' by {
                assert(text::is_digit(value[k]));
            }
        }
    }
}

/// A delay comes from the header `retry-after` and from no other.
pub proof fn law_only_retry_after_delays(
    headers: Map<Seq<char>, String>,
    others: Map<Seq<char>, String>,
    wall: u128,
)
    requires
        headers.contains_key("retry-after"@) == others.contains_key("retry-after"@),
        headers.contains_key("retry-after"@) ==> headers["retry-after"@]
            == others["retry-after"@],
    ensures
        hint_of(headers, wall) == hint_of(others, wall),
        !headers.contains_key("retry-after"@) ==> hint_of(headers, wall) is None,
{
}

/// An account of which nothing is known takes requests, as many as its limit says.
pub proof fn law_nothing_known_holds_nothing_back(limit: usize, now: u128)
    ensures
        fresh(limit).limit == limit,
        !fresh(limit).blocked && fresh(limit).blocked_reason is None,
        !cooling(fresh(limit), now),
        fresh(limit).until is None && fresh(limit).healthy_since is None,
        fresh(limit).limited == 0 && fresh(limit).failures == 0 && fresh(limit).successes == 0,
{
}

/// White space around the value of a `retry-after` header says nothing.
pub proof fn law_white_space_delays_nothing(value: Seq<char>, now: u128)
    ensures
        retry_delay(value, now) == delay_of(
            text::trimmed(value),
            http_date(text::trimmed(value)),
            now,
        ),
        retry_delay(text::trimmed(value), now) == retry_delay(value, now),
{
    let cuts = text::law_trimming(value);
}

/// The little extra is a whole number of milliseconds: what those of the wall clock's second
/// leave when divided by 251.
pub proof fn law_extra_delay(wall: u128)
    ensures
        jitter_of(wall) == ((wall / 1_000_000) % 1000) % 251 * 1_000_000,
{
    assert((wall % 1_000_000_000) / 1_000_000 == (wall / 1_000_000) % 1000) by (nonlinear_arith);
    lemma_jitter(wall);
}

} // verus!
