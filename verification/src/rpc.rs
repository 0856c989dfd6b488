//! What an RPC reply means for a block fetch, and when and how long to wait
//! before trying again.

use crate::json::JsonValue;
use vstd::prelude::*;

verus! {

/// How many times a transient failure is retried.
pub const MAX_RETRIES: u32 = 5;

/// The longest wait before the first retry.
pub const BASE_DELAY_MS: u64 = 200;

/// The longest wait before any retry.
pub const MAX_DELAY_MS: u64 = 5_000;

// ---------------------------------------------------------------------------
// Texts
// ---------------------------------------------------------------------------

/// What `str::to_lowercase` gives for a text.
pub uninterp spec fn lowercase(text: Seq<char>) -> Seq<char>;

/// Calls `str::to_lowercase`. Its contract claims only that the result is
/// the named lowercasing of the text; the Unicode mapping itself is not
/// stated.
#[verifier::external_body]
fn to_lowercase(text: &str) -> (res: String)
    ensures
        res@ == lowercase(text@),
{
    text.to_lowercase()
}

/// `needle` occurs in `hay` at position `i`.
pub open spec fn occurs_at(hay: Seq<char>, needle: Seq<char>, i: int) -> bool {
    0 <= i && i + needle.len() <= hay.len() && hay.subrange(i, i + needle.len()) == needle
}

/// `needle` occurs somewhere in `hay`.
pub open spec fn contains_text(hay: Seq<char>, needle: Seq<char>) -> bool {
    exists|i: int| #[trigger] occurs_at(hay, needle, i)
}

/// Whether `needle` occurs in `hay`, as `str::contains` with a string
/// pattern answers.
pub fn text_contains(hay: &str, needle: &str) -> (res: bool)
    ensures
        res == contains_text(hay@, needle@),
{
    let n = hay.unicode_len();
    let m = needle.unicode_len();
    if m > n {
        return false;
    }
    let mut i: usize = 0;
    while i <= n - m
        invariant
            n == hay@.len(),
            m == needle@.len(),
            m <= n,
            i <= n - m + 1,
            forall|j: int| 0 <= j < i ==> !#[trigger] occurs_at(hay@, needle@, j),
        decreases n - m + 1 - i,
    {
        let mut k: usize = 0;
        while k < m && hay.get_char(i + k) == needle.get_char(k)
            invariant
                n == hay@.len(),
                m == needle@.len(),
                i + m <= n,
                k <= m,
                forall|t: int| 0 <= t < k ==> hay@[i + t] == needle@[t],
            decreases m - k,
        {
            k += 1;
        }
        if k == m {
            assert(hay@.subrange(i as int, i + m) =~= needle@);
            assert(occurs_at(hay@, needle@, i as int));
            return true;
        }
        assert(!occurs_at(hay@, needle@, i as int)) by {
            if occurs_at(hay@, needle@, i as int) {
                assert(hay@.subrange(i as int, i + m)[k as int] == needle@[k as int]);
            }
        }
        i += 1;
    }
    assert forall|j: int| !#[trigger] occurs_at(hay@, needle@, j) by {
        if 0 <= j && j < i {
        }
    }
    false
}

// ---------------------------------------------------------------------------
// Outcomes
// ---------------------------------------------------------------------------

/// The error member of a JSON-RPC reply.
pub struct RpcError {
    pub code: i64,
    pub message: String,
}

/// A JSON-RPC reply: its result or its error, either of which may be absent.
pub struct RpcResponse {
    pub result: Option<JsonValue>,
    pub error: Option<RpcError>,
}

/// The outcome of one RPC call.
pub enum CallOutcome {
    Skipped,
    Block(JsonValue),
    Transient(String),
    Permanent(String),
}

/// The final outcome of fetching one block.
pub enum BlockFetchOutcome {
    Skipped,
    Fetched(JsonValue),
    Failed(String),
}

/// An error whose lowercased message mentions "skipped" means the slot was
/// skipped; any other error is transient; no error and no result also
/// means skipped.
pub open spec fn classified(parsed: RpcResponse) -> CallOutcome {
    match parsed.error {
        Some(err) => if contains_text(lowercase(err.message@), "skipped"@) {
            CallOutcome::Skipped
        } else {
            CallOutcome::Transient(err.message)
        },
        None => match parsed.result {
            Some(v) => CallOutcome::Block(v),
            None => CallOutcome::Skipped,
        },
    }
}

/// Classifies a decoded RPC reply.
pub fn classify_response(parsed: RpcResponse) -> (res: CallOutcome)
    ensures
        res == classified(parsed),
{
    let ghost whole = parsed;
    let RpcResponse { result, error } = parsed;
    if let Some(err) = error {
        let lower = to_lowercase(err.message.as_str());
        if text_contains(lower.as_str(), "skipped") {
            return CallOutcome::Skipped;
        }
        return CallOutcome::Transient(err.message);
    }
    match result {
        Some(v) => CallOutcome::Block(v),
        None => CallOutcome::Skipped,
    }
}

/// What an HTTP status means before the body is read.
pub enum StatusVerdict {
    /// A server error or 429 Too Many Requests: worth retrying.
    Transient,
    /// Any other status outside 2xx: not worth retrying.
    Permanent,
    /// A 2xx status: read the body.
    Proceed,
}

/// Server errors (5xx) and 429 are transient, other non-2xx statuses are
/// permanent, and 2xx lets the reply be read.
pub open spec fn status_verdict(code: u16) -> StatusVerdict {
    if (500 <= code <= 599) || code == 429 {
        StatusVerdict::Transient
    } else if !(200 <= code <= 299) {
        StatusVerdict::Permanent
    } else {
        StatusVerdict::Proceed
    }
}

/// Classifies an HTTP status as `status_verdict` does.
pub fn classify_status(code: u16) -> (res: StatusVerdict)
    ensures
        res == status_verdict(code),
        (500 <= code <= 599 || code == 429) ==> res is Transient,
        (200 <= code <= 299) ==> res is Proceed,
        !(500 <= code <= 599 || code == 429 || 200 <= code <= 299) ==> res is Permanent,
{
    if (500 <= code && code <= 599) || code == 429 {
        StatusVerdict::Transient
    } else if !(200 <= code && code <= 299) {
        StatusVerdict::Permanent
    } else {
        StatusVerdict::Proceed
    }
}

// ---------------------------------------------------------------------------
// Retrying
// ---------------------------------------------------------------------------

/// The decimal digits of a number.
pub open spec fn decimal_text(n: nat) -> Seq<char>
    decreases n,
{
    if n < 10 {
        seq![(n + 48) as char]
    } else {
        decimal_text(n / 10).push(((n % 10) + 48) as char)
    }
}

/// A number written in decimal.
pub fn decimal_string(n: u32) -> (res: String)
    ensures
        res@ == decimal_text(n as nat),
    decreases n,
{
    let digits = "0123456789";
    proof {
        reveal_strlit("0123456789");
    }
    let d = (n % 10) as usize;
    let last = digits.substring_char(d, d + 1);
    let mut res = if n < 10 {
        String::new()
    } else {
        decimal_string(n / 10)
    };
    res.append(last);
    proof {
        assert(last@ =~= seq![((n as nat % 10) + 48) as char]);
        if n < 10 {
            assert(res@ =~= seq![(n as nat + 48) as char]);
        } else {
            assert(res@ =~= decimal_text((n / 10) as nat).push(((n as nat % 10) + 48) as char));
        }
    }
    res
}

/// What to do once a call has an outcome.
pub enum RetryStep {
    /// The fetch is over, with this outcome.
    Done(BlockFetchOutcome),
    /// Wait, then make call number `next_attempt`.
    Retry { next_attempt: u32 },
}

/// The message of a fetch that ran out of retries.
pub open spec fn gave_up_message(attempt: u32, msg: Seq<char>) -> Seq<char> {
    "gave up after "@ + decimal_text(attempt as nat) + " retries: "@ + msg
}

/// After call number `attempt` (counting from 0): a skipped slot, a block
/// or a permanent error end the fetch; a transient error is retried until
/// `MAX_RETRIES` retries have been made.
pub open spec fn retry_step(attempt: u32, outcome: CallOutcome) -> RetryStep {
    match outcome {
        CallOutcome::Skipped => RetryStep::Done(BlockFetchOutcome::Skipped),
        CallOutcome::Block(v) => RetryStep::Done(BlockFetchOutcome::Fetched(v)),
        CallOutcome::Permanent(msg) => RetryStep::Done(BlockFetchOutcome::Failed(msg)),
        CallOutcome::Transient(msg) => if attempt >= MAX_RETRIES {
            RetryStep::Done(BlockFetchOutcome::Failed(msg))
        } else {
            RetryStep::Retry { next_attempt: (attempt + 1) as u32 }
        },
    }
}

/// The next step of a block fetch after a call's outcome.
pub fn next_step(attempt: u32, outcome: CallOutcome) -> (res: RetryStep)
    ensures
        match retry_step(attempt, outcome) {
            RetryStep::Done(BlockFetchOutcome::Failed(_)) => match outcome {
                CallOutcome::Transient(msg) => res matches RetryStep::Done(BlockFetchOutcome::Failed(m))
                    && m@ == gave_up_message(attempt, msg@),
                _ => res == retry_step(attempt, outcome),
            },
            _ => res == retry_step(attempt, outcome),
        },
{
    match outcome {
        CallOutcome::Skipped => RetryStep::Done(BlockFetchOutcome::Skipped),
        CallOutcome::Block(v) => RetryStep::Done(BlockFetchOutcome::Fetched(v)),
        CallOutcome::Permanent(msg) => RetryStep::Done(BlockFetchOutcome::Failed(msg)),
        CallOutcome::Transient(msg) => {
            if attempt >= MAX_RETRIES {
                let mut text = String::from_str("gave up after ");
                let count = decimal_string(attempt);
                text.append(count.as_str());
                text.append(" retries: ");
                text.append(msg.as_str());
                RetryStep::Done(BlockFetchOutcome::Failed(text))
            } else {
                RetryStep::Retry { next_attempt: attempt + 1 }
            }
        },
    }
}

/// The longest wait before retry number `attempt`: the base delay doubled
/// per attempt (at most ten times), capped at `MAX_DELAY_MS`.
pub open spec fn backoff_cap(attempt: u32) -> u64 {
    let doublings: nat = if attempt < 10 {
        attempt as nat
    } else {
        10
    };
    let exp = BASE_DELAY_MS * vstd::arithmetic::power2::pow2(doublings);
    if exp < MAX_DELAY_MS {
        exp as u64
    } else {
        MAX_DELAY_MS
    }
}

/// Computes `backoff_cap`.
pub fn backoff_cap_ms(attempt: u32) -> (res: u64)
    ensures
        res == backoff_cap(attempt),
{
    let doublings: u32 = if attempt < 10 {
        attempt
    } else {
        10
    };
    let mut exp: u64 = BASE_DELAY_MS;
    let mut k: u32 = 0;
    proof {
        vstd::arithmetic::power2::lemma2_to64();
    }
    while k < doublings
        invariant
            k <= doublings <= 10,
            exp == BASE_DELAY_MS * vstd::arithmetic::power2::pow2(k as nat),
        decreases doublings - k,
    {
        proof {
            vstd::arithmetic::power2::lemma_pow2_unfold((k + 1) as nat);
            vstd::arithmetic::power2::lemma2_to64();
            if k + 1 < 10 {
                vstd::arithmetic::power2::lemma_pow2_strictly_increases((k + 1) as nat, 10);
            }
        }
        exp = exp * 2;
        k += 1;
    }
    if exp < MAX_DELAY_MS {
        exp
    } else {
        MAX_DELAY_MS
    }
}

/// The wait before a retry, drawn from `random`: uniform over
/// `0..=backoff_cap(attempt)` milliseconds when `random` is.
pub fn jitter_ms(random: u64, attempt: u32) -> (res: u64)
    ensures
        res == random % ((backoff_cap(attempt) + 1) as u64),
        res <= backoff_cap(attempt),
{
    let capped = backoff_cap_ms(attempt);
    random % (capped + 1)
}

/// Calls `rand::random::<u64>()`. Nothing is claimed of the number.
#[verifier::external_body]
fn random_u64() -> u64 {
    rand::random::<u64>()
}

/// The wait, in milliseconds, before retry number `attempt`: a random
/// amount up to the capped exponential delay.
pub fn backoff_with_jitter(attempt: u32) -> (res: u64)
    ensures
        res <= backoff_cap(attempt),
{
    jitter_ms(random_u64(), attempt)
}

// ---------------------------------------------------------------------------
// Laws
// ---------------------------------------------------------------------------

/// A fetch retries only after a transient error, with the next attempt
/// number, and never after attempt `MAX_RETRIES`: a block fetch makes at
/// most `MAX_RETRIES + 1` calls.
pub proof fn law_retries_are_bounded(attempt: u32, outcome: CallOutcome)
    ensures
        retry_step(attempt, outcome) matches RetryStep::Retry { next_attempt } ==> outcome is Transient
            && attempt < MAX_RETRIES && next_attempt == attempt + 1,
        attempt >= MAX_RETRIES ==> retry_step(attempt, outcome) is Done,
{
}

/// The longest wait starts at the base delay, never shrinks from one
/// attempt to the next, and never passes `MAX_DELAY_MS`.
pub proof fn law_backoff_cap_grows_to_the_limit(a: u32, b: u32)
    requires
        a <= b,
    ensures
        backoff_cap(0) == BASE_DELAY_MS,
        backoff_cap(a) <= backoff_cap(b),
        backoff_cap(b) <= MAX_DELAY_MS,
{
    vstd::arithmetic::power2::lemma2_to64();
    let da: nat = if a < 10 {
        a as nat
    } else {
        10
    };
    let db: nat = if b < 10 {
        b as nat
    } else {
        10
    };
    if da < db {
        vstd::arithmetic::power2::lemma_pow2_strictly_increases(da, db);
    }
    assert(BASE_DELAY_MS * vstd::arithmetic::power2::pow2(da) <= BASE_DELAY_MS
        * vstd::arithmetic::power2::pow2(db)) by (nonlinear_arith)
        requires
            vstd::arithmetic::power2::pow2(da) <= vstd::arithmetic::power2::pow2(db),
    ;
}

/// Every server error (5xx) and 429 Too Many Requests is retried, every
/// success status (2xx) lets the reply be read, and every other status ends
/// the fetch.
pub proof fn law_server_errors_are_transient(code: u16)
    ensures
        status_verdict(code) is Transient <==> (500 <= code <= 599 || code == 429),
        status_verdict(code) is Proceed <==> 200 <= code <= 299,
        status_verdict(code) is Permanent <==> !(500 <= code <= 599 || code == 429 || 200 <= code
            <= 299),
{
}

} // verus!
