//! Decisions of the load test: how many requests each task sends, and what
//! each answer counts as.
use vstd::prelude::*;

verus! {

/// The number of requests each of `concurrent_tasks` tasks sends when
/// `request_count` requests are shared out: the quotient, rounded down.
pub fn requests_per_task(request_count: usize, concurrent_tasks: usize) -> (n: usize)
    requires
        concurrent_tasks > 0,
    ensures
        n == request_count / concurrent_tasks,
{
    request_count / concurrent_tasks
}

/// The tasks together never send more requests than asked for, and fall
/// short by fewer than one request per task.
pub proof fn lemma_requests_shared(request_count: usize, concurrent_tasks: usize)
    requires
        concurrent_tasks > 0,
    ensures
        (request_count / concurrent_tasks) * concurrent_tasks <= request_count,
        request_count < (request_count / concurrent_tasks + 1) * concurrent_tasks,
{
    let q = request_count / concurrent_tasks;
    assert(q * concurrent_tasks <= request_count < (q + 1) * concurrent_tasks) by (nonlinear_arith)
        requires
            concurrent_tasks > 0,
            q == request_count / concurrent_tasks,
            request_count >= 0,
    ;
}

/// A status code in the success class `200..=299`, as
/// `StatusCode::is_success` tells it.
pub open spec fn success_status(code: u16) -> bool {
    200 <= code && code < 300
}

/// Tells whether `code` is a success status.
pub fn is_success_status(code: u16) -> (r: bool)
    ensures
        r == success_status(code),
        r <==> 200 <= code && code <= 299,
{
    200 <= code && code < 300
}

/// Only the 2xx class succeeds: a status counts as success exactly when it
/// lies between 200 and 299, and any other status is reported as a failure
/// with that status.
pub proof fn lemma_only_2xx_succeeds(code: u16)
    ensures
        success_status(code) <==> 200 <= code && code <= 299,
        code < 200 || code > 299 ==> !success_status(code),
{
}

/// What one request of the load test came to.
#[derive(Debug, Clone, Copy, PartialEq, Eq, Structural)]
pub enum RequestReport {
    /// The server answered with a success status.
    Successful,
    /// The server answered with this other status.
    FailedWithStatus(u16),
    /// No answer came (the request itself failed).
    Failed,
}

/// Classifies the outcome of one request: the status the server answered
/// with, or `None` where the request failed before any answer.
pub fn report_for(status: Option<u16>) -> (r: RequestReport)
    ensures
        r == (match status {
            Some(code) => if success_status(code) {
                RequestReport::Successful
            } else {
                RequestReport::FailedWithStatus(code)
            },
            None => RequestReport::Failed,
        }),
        forall|code: u16|
            status == Some(code) && 200 <= code && code <= 299 ==> r == RequestReport::Successful,
        forall|code: u16|
            status == Some(code) && (code < 200 || code > 299) ==> r
                == RequestReport::FailedWithStatus(code),
{
    match status {
        Some(code) => if is_success_status(code) {
            RequestReport::Successful
        } else {
            RequestReport::FailedWithStatus(code)
        },
        None => RequestReport::Failed,
    }
}

} // verus!
