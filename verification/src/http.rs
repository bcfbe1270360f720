//! How requests are spaced, judged and tried again.
use vstd::prelude::*;

use crate::error::KyokuError;
use crate::text::{join_texts, joined_texts, views};

verus! {

/// Milliseconds to wait before a request is tried again.
pub const RETRY_PAUSE_MS: u64 = 750;

/// How a request failed.
#[derive(Debug)]
pub enum AttemptError {
    /// In a way that may pass: the network, or the server's own trouble.
    Retryable(String),
    /// For good.
    Permanent(String),
}

/// The spacing of requests.
#[derive(Debug, Clone, Copy, PartialEq, Eq, Structural)]
pub struct Throttle {
    pub rate_limit_ms: u64,
}

impl Throttle {
    /// Requests at least `rate_limit_ms` milliseconds apart.
    pub fn new(rate_limit_ms: u64) -> (r: Self)
        ensures
            r.rate_limit_ms == rate_limit_ms,
    {
        Throttle { rate_limit_ms }
    }

    /// The pause owed before the next request, when the last one was
    /// `elapsed_ms` milliseconds ago. The first request owes none.
    pub fn wait(&self, elapsed_ms: Option<u64>) -> (r: u64)
        ensures
            elapsed_ms is None ==> r == 0,
            elapsed_ms is Some && elapsed_ms->0 >= self.rate_limit_ms ==> r == 0,
            elapsed_ms is Some && elapsed_ms->0 < self.rate_limit_ms ==> r + elapsed_ms->0
                == self.rate_limit_ms,
    {
        match elapsed_ms {
            Some(ms) => if ms < self.rate_limit_ms {
                self.rate_limit_ms - ms
            } else {
                0
            },
            None => 0,
        }
    }
}

/// Whether a status means success.
pub open spec fn is_success(status: u16) -> bool {
    200 <= status <= 299
}

/// Whether a status puts the fault with the server.
pub open spec fn is_server_error(status: u16) -> bool {
    500 <= status <= 599
}

/// The failure that a status means. The server's own trouble may pass.
pub fn failed_status(status: u16, msg: String) -> (r: Option<AttemptError>)
    ensures
        is_success(status) ==> r is None,
        is_server_error(status) ==> r == Some(AttemptError::Retryable(msg)),
        !is_success(status) && !is_server_error(status) ==> r == Some(AttemptError::Permanent(msg)),
{
    if 200 <= status && status <= 299 {
        None
    } else if 500 <= status && status <= 599 {
        Some(AttemptError::Retryable(msg))
    } else {
        Some(AttemptError::Permanent(msg))
    }
}

/// The messages of an error and its causes as one text: the reason is often
/// one or two causes down.
pub fn error_chain(msgs: &Vec<String>) -> (r: String)
    ensures
        r@ == joined_texts(views(msgs@), ": "@),
{
    join_texts(msgs, ": ")
}

/// What follows an attempt at a request.
#[derive(Debug)]
pub enum Next<T> {
    Done(T),
    /// One more attempt, after a pause.
    Again,
    Failed(KyokuError),
}

/// What follows an attempt: a first failure that may pass is tried again,
/// and any other failure is final. `label` names the request in the error.
pub open spec fn follows<T>(label: Seq<char>, retried: bool, result: Result<T, AttemptError>, next:
    Next<T>) -> bool {
    match result {
        Ok(v) => next == Next::Done(v),
        Err(AttemptError::Retryable(msg)) => if retried {
            next is Failed && next->Failed_0 is External && next->Failed_0->External_0@ == label
                + " failed after retry: "@ + msg@
        } else {
            next is Again
        },
        Err(AttemptError::Permanent(msg)) => next is Failed && next->Failed_0 is External
            && next->Failed_0->External_0@ == label + (if retried {
            " failed after retry: "@
        } else {
            " failed: "@
        }) + msg@,
    }
}

/// Decides what follows an attempt at a request.
pub fn after_attempt<T>(label: &str, retried: bool, result: Result<T, AttemptError>) -> (r: Next<T>)
    ensures
        follows(label@, retried, result, r),
{
    match result {
        Ok(v) => Next::Done(v),
        Err(e) => {
            let mut text = label.to_owned();
            match e {
                AttemptError::Retryable(msg) => {
                    if !retried {
                        return Next::Again;
                    }
                    text.append(" failed after retry: ");
                    text.append(msg.as_str());
                },
                AttemptError::Permanent(msg) => {
                    text.append(
                        if retried {
                            " failed after retry: "
                        } else {
                            " failed: "
                        },
                    );
                    text.append(msg.as_str());
                },
            }
            Next::Failed(KyokuError::External(text))
        },
    }
}

/// A request is tried at most twice.
pub proof fn law_one_retry<T>(label: Seq<char>, result: Result<T, AttemptError>, next: Next<T>)
    requires
        follows(label, true, result, next),
    ensures
        !(next is Again),
{
}


/// Answers of the two hundreds are successes, those of the five hundreds are
/// failures of the server.
pub proof fn law_hundreds_tell_the_kind_of_an_answer(status: u16)
    ensures
        is_success(status) <==> status / 100 == 2,
        is_server_error(status) <==> status / 100 == 5,
{
}

} // verus!
