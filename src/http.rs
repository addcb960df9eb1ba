//! The decisions of a JSON client that retries failed GET requests with linear backoff.
//!
//! The caller performs each request and hands the result of every attempt to
//! `RetryingFetcher::next_step`, which says whether to stop with a value, stop with an
//! error, or wait and try again.
use vstd::prelude::*;
use serde_json::Value;
use crate::error::AppError;
use crate::json::{parsed_json, parse_json};
use crate::keys::{chars_of, text_of};

verus! {

/// Whether a URL is already absolute: it begins with `http`.
pub open spec fn is_absolute(url: Seq<char>) -> bool {
    url.len() >= 4 && url.subrange(0, 4) == seq!['h', 't', 't', 'p']
}

/// `s` without the `/` characters at its end.
pub open spec fn trim_end_slashes(s: Seq<char>) -> Seq<char>
    decreases s.len(),
{
    if s.len() > 0 && s.last() == '/' {
        trim_end_slashes(s.drop_last())
    } else {
        s
    }
}

/// `s` without the `/` characters at its start.
pub open spec fn trim_start_slashes(s: Seq<char>) -> Seq<char>
    decreases s.len(),
{
    if s.len() > 0 && s[0] == '/' {
        trim_start_slashes(s.drop_first())
    } else {
        s
    }
}

/// The URL that a request for `url` goes to, relative ones joined to `base`.
pub open spec fn resolve_url(base: Seq<char>, url: Seq<char>) -> Seq<char> {
    if is_absolute(url) {
        url
    } else {
        trim_end_slashes(base) + seq!['/'] + trim_start_slashes(url)
    }
}

/// What one attempt of a request came to.
pub enum Attempt {
    /// A success status with a JSON body.
    Received(Value),
    /// A success status with a body that is not JSON; the parser's message.
    Unparsable(String),
    /// Another status: its code and reason as text, and the response body.
    Status { status: String, body: String },
    /// No response: what the transport reported.
    Transport { message: String },
}

/// What to do after an attempt.
pub enum Step {
    /// Stop: the request returned this value.
    Finish(Value),
    /// Stop: the request failed.
    Fail(AppError),
    /// Wait this many milliseconds, then try again.
    RetryAfter(u64),
}

/// The attempts a fetcher makes at most: the configured number, and at least one.
pub open spec fn attempt_limit(retry_attempts: u32) -> nat {
    if retry_attempts == 0 {
        1
    } else {
        retry_attempts as nat
    }
}

/// The reason given when a request ends in a status other than success.
pub open spec fn status_reason(status: Seq<char>, body: Seq<char>) -> Seq<char> {
    "HTTP "@ + status + ": "@ + body
}

/// Whether `s` is the step that follows attempt number `attempt` when it came to `a`,
/// for a fetcher configured with `retry_attempts`.
pub open spec fn is_next_step(retry_attempts: u32, attempt: nat, a: Attempt, s: Step) -> bool {
    let last = attempt >= attempt_limit(retry_attempts);
    match a {
        Attempt::Received(v) => s == Step::Finish(v),
        Attempt::Unparsable(m) => s == Step::Fail(AppError::Json { message: m }),
        Attempt::Status { status, body } => if last {
            s matches Step::Fail(AppError::OperationFailed { reason }) && reason@ == status_reason(
                status@,
                body@,
            )
        } else {
            s == Step::RetryAfter((1000 * attempt) as u64)
        },
        Attempt::Transport { message } => if last {
            s == Step::Fail(AppError::Http { message })
        } else {
            s == Step::RetryAfter((1000 * attempt) as u64)
        },
    }
}

/// The outcome of a single request that is not retried.
pub open spec fn is_single_outcome(a: Attempt, r: Result<Value, AppError>) -> bool {
    match a {
        Attempt::Received(v) => r == Ok::<Value, AppError>(v),
        Attempt::Unparsable(m) => r == Err::<Value, AppError>(AppError::Json { message: m }),
        Attempt::Status { status, body } => r matches Err(AppError::OperationFailed { reason })
            && reason@ == status_reason(status@, body@),
        Attempt::Transport { message } => r == Err::<Value, AppError>(AppError::Http { message }),
    }
}

/// What an attempt that got a response came to: the body read as JSON after a success
/// status (200 to 299), else the status and body.
pub fn response_attempt(code: u16, status: String, body: String) -> (r: Attempt)
    ensures
        200 <= code <= 299 ==> (match parsed_json(body@) {
            Some(v) => r == Attempt::Received(v),
            None => r is Unparsable,
        }),
        !(200 <= code <= 299) ==> r == (Attempt::Status { status, body }),
{
    if 200 <= code && code <= 299 {
        match parse_json(body.as_str()) {
            Ok(v) => Attempt::Received(v),
            Err(m) => Attempt::Unparsable(m),
        }
    } else {
        Attempt::Status { status, body }
    }
}

fn failure_reason(status: &str, body: &str) -> (r: String)
    ensures
        r@ == status_reason(status@, body@),
{
    let mut r = String::from_str("HTTP ");
    r.append(status);
    r.append(": ");
    r.append(body);
    r
}

/// The retry policy and address of a JSON endpoint.
pub struct RetryingFetcher {
    pub base_url: String,
    pub timeout_seconds: u64,
    pub retry_attempts: u32,
}

impl RetryingFetcher {
    pub fn new(base_url: String, timeout_seconds: u64, retry_attempts: u32) -> (r: RetryingFetcher)
        ensures
            r.base_url == base_url,
            r.timeout_seconds == timeout_seconds,
            r.retry_attempts == retry_attempts,
    {
        RetryingFetcher { base_url, timeout_seconds, retry_attempts }
    }

    /// The number of attempts made at most.
    pub fn max_attempts(&self) -> (r: u32)
        ensures
            r == attempt_limit(self.retry_attempts),
    {
        if self.retry_attempts == 0 {
            1
        } else {
            self.retry_attempts
        }
    }

    /// The URL a request for `url` goes to.
    pub fn full_url(&self, url: &str) -> (r: String)
        ensures
            r@ == resolve_url(self.base_url@, url@),
    {
        let n = url.unicode_len();
        if n >= 4 && url.get_char(0) == 'h' && url.get_char(1) == 't' && url.get_char(2) == 't'
            && url.get_char(3) == 'p' {
            assert(url@.subrange(0, 4) =~= seq!['h', 't', 't', 'p']);
            return String::from_str(url);
        }
        if n >= 4 {
            assert(url@.subrange(0, 4)[0] == url@[0]);
            assert(url@.subrange(0, 4)[1] == url@[1]);
            assert(url@.subrange(0, 4)[2] == url@[2]);
            assert(url@.subrange(0, 4)[3] == url@[3]);
        }
        let base = chars_of(self.base_url.as_str());
        let mut end = base.len();
        assert(base@.subrange(0, end as int) =~= base@);
        while end > 0 && base[end - 1] == '/'
            invariant
                end <= base@.len(),
                trim_end_slashes(base@) == trim_end_slashes(base@.subrange(0, end as int)),
            decreases end,
        {
            assert(base@.subrange(0, end as int).drop_last() =~= base@.subrange(0, end - 1));
            end = end - 1;
        }
        let u = chars_of(url);
        let mut start: usize = 0;
        assert(u@.subrange(0, n as int) =~= u@);
        while start < n && u[start] == '/'
            invariant
                n == u@.len(),
                start <= n,
                trim_start_slashes(u@) == trim_start_slashes(u@.subrange(start as int, n as int)),
            decreases n - start,
        {
            assert(u@.subrange(start as int, n as int).drop_first() =~= u@.subrange(start + 1, n as int));
            start = start + 1;
        }
        let mut joined: Vec<char> = Vec::new();
        let mut i: usize = 0;
        while i < end
            invariant
                end <= base@.len(),
                i <= end,
                joined@ =~= base@.subrange(0, i as int),
            decreases end - i,
        {
            joined.push(base[i]);
            i = i + 1;
        }
        joined.push('/');
        let mut j: usize = start;
        while j < n
            invariant
                n == u@.len(),
                start <= j <= n,
                joined@ =~= base@.subrange(0, end as int) + seq!['/'] + u@.subrange(start as int, j as int),
            decreases n - j,
        {
            joined.push(u[j]);
            j = j + 1;
        }
        proof {
            let t = base@.subrange(0, end as int);
            assert(!(t.len() > 0 && t.last() == '/'));
            let w = u@.subrange(start as int, n as int);
            assert(!(w.len() > 0 && w[0] == '/'));
        }
        text_of(&joined)
    }

    /// What to do after attempt number `attempt` (counted from 1) came to `a`.
    pub fn next_step(&self, attempt: u32, a: Attempt) -> (r: Step)
        requires
            1 <= attempt <= attempt_limit(self.retry_attempts),
        ensures
            is_next_step(self.retry_attempts, attempt as nat, a, r),
    {
        let last = attempt >= self.max_attempts();
        match a {
            Attempt::Received(v) => Step::Finish(v),
            Attempt::Unparsable(m) => Step::Fail(AppError::Json { message: m }),
            Attempt::Status { status, body } => {
                if last {
                    Step::Fail(
                        AppError::OperationFailed {
                            reason: failure_reason(status.as_str(), body.as_str()),
                        },
                    )
                } else {
                    Step::RetryAfter(1000 * attempt as u64)
                }
            },
            Attempt::Transport { message } => {
                if last {
                    Step::Fail(AppError::Http { message })
                } else {
                    Step::RetryAfter(1000 * attempt as u64)
                }
            },
        }
    }

    /// The result of a request made once, without retry, that came to `a`.
    pub fn single_outcome(&self, a: Attempt) -> (r: Result<Value, AppError>)
        ensures
            is_single_outcome(a, r),
    {
        match a {
            Attempt::Received(v) => Ok(v),
            Attempt::Unparsable(m) => Err(AppError::Json { message: m }),
            Attempt::Status { status, body } => Err(
                AppError::OperationFailed { reason: failure_reason(status.as_str(), body.as_str()) },
            ),
            Attempt::Transport { message } => Err(AppError::Http { message }),
        }
    }
}

/// Whether an attempt failed in a way that is retried: a status other than success, or
/// no response.
pub open spec fn is_retryable(a: Attempt) -> bool {
    a is Status || a is Transport
}

/// Against an endpoint that fails attempts 1 to n-1 and answers attempt n with JSON,
/// n within the limit, the steps are waits of 1000 ms, 2000 ms, ... and then that JSON.
pub proof fn lemma_retry_until_success(retry_attempts: u32, attempts: Seq<Attempt>, steps: Seq<Step>)
    requires
        1 <= attempts.len() <= attempt_limit(retry_attempts),
        steps.len() == attempts.len(),
        forall|i: int| 0 <= i < attempts.len() - 1 ==> is_retryable(#[trigger] attempts[i]),
        attempts.last() is Received,
        forall|i: int|
            0 <= i < attempts.len() ==> is_next_step(
                retry_attempts,
                (i + 1) as nat,
                #[trigger] attempts[i],
                steps[i],
            ),
    ensures
        forall|i: int| 0 <= i < steps.len() - 1 ==> #[trigger] steps[i] == Step::RetryAfter((1000 * (i + 1)) as u64),
        steps.last() == Step::Finish(attempts.last()->Received_0),
{
    assert forall|i: int| 0 <= i < steps.len() - 1 implies #[trigger] steps[i] == Step::RetryAfter((1000 * (i + 1)) as u64) by {
        assert(is_next_step(retry_attempts, (i + 1) as nat, attempts[i], steps[i]));
        assert(is_retryable(attempts[i]));
    }
    assert(is_next_step(retry_attempts, attempts.len(), attempts[attempts.len() - 1], steps[steps.len() - 1]));
}

/// Against an endpoint that answers every attempt with a status other than success,
/// the steps are waits of 1000 ms, 2000 ms, ... up to the attempt limit, and the last
/// attempt ends the request with OperationFailed.
pub proof fn lemma_retry_exhausted(retry_attempts: u32, attempts: Seq<Attempt>, steps: Seq<Step>)
    requires
        attempts.len() == attempt_limit(retry_attempts),
        steps.len() == attempts.len(),
        forall|i: int| 0 <= i < attempts.len() ==> #[trigger] attempts[i] is Status,
        forall|i: int|
            0 <= i < attempts.len() ==> is_next_step(
                retry_attempts,
                (i + 1) as nat,
                #[trigger] attempts[i],
                steps[i],
            ),
    ensures
        forall|i: int| 0 <= i < steps.len() - 1 ==> #[trigger] steps[i] == Step::RetryAfter((1000 * (i + 1)) as u64),
        steps.last() matches Step::Fail(AppError::OperationFailed { .. }),
{
    assert forall|i: int| 0 <= i < steps.len() - 1 implies #[trigger] steps[i] == Step::RetryAfter((1000 * (i + 1)) as u64) by {
        assert(is_next_step(retry_attempts, (i + 1) as nat, attempts[i], steps[i]));
        assert(attempts[i] is Status);
    }
    assert(attempts[attempts.len() - 1] is Status);
    assert(is_next_step(retry_attempts, attempts.len(), attempts[attempts.len() - 1], steps[steps.len() - 1]));
}

} // verus!
