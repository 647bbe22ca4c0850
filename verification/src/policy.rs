//! Rewrite policy: the per-request state machine that turns a
//! resolution outcome into exactly one terminal decision.

use vstd::prelude::*;
use crate::codec::RequestEnvelope;

verus! {

/// Why a request was rejected or a step failed. One name per failure in
/// the stage's taxonomy.
#[derive(Clone, Copy, PartialEq, Eq, Structural, Debug)]
pub enum ErrorKind {
    IncompleteBody,
    InvalidEncoding,
    InvalidStructure,
    TransportFailure,
    NotFound,
    MalformedResponse,
    ResolutionFailed,
    CancelledOrTimedOut,
}

/// Why the transport leg of a lookup failed.
#[derive(Clone, Copy, PartialEq, Eq, Structural, Debug)]
pub enum TransportCause {
    HttpStatus(u16),
    ConnectionFailed,
    RequestTimedOut,
    Other,
}

/// What one resolver lookup produced.
#[derive(Debug)]
pub enum ResolutionResult {
    Resolved(String),
    NotFound,
    TransportFailure(TransportCause),
    MalformedResponse,
}

/// What the bridge hands back for one request: the lookup's own result,
/// or the request-level deadline expired first.
#[derive(Debug)]
pub enum ResolutionOutcome {
    Completed(ResolutionResult),
    TimedOut,
}

/// The single terminal decision for one request.
pub enum RewriteDecision {
    Rewrite(RequestEnvelope),
    Passthrough,
    Reject(ErrorKind),
}

/// The status class of the error response a rejection turns into at the
/// request boundary: a client error for a body this stage could not
/// read, a bad-gateway class for resolver-side failures, and a gateway
/// timeout when the deadline expired. No failure is process-fatal.
pub fn suggested_status(k: ErrorKind) -> (r: u16)
    ensures
        (k == ErrorKind::IncompleteBody || k == ErrorKind::InvalidEncoding || k
            == ErrorKind::InvalidStructure) ==> r == 400,
        (k == ErrorKind::TransportFailure || k == ErrorKind::NotFound || k
            == ErrorKind::MalformedResponse || k == ErrorKind::ResolutionFailed) ==> r == 502,
        k == ErrorKind::CancelledOrTimedOut ==> r == 504,
{
    match k {
        ErrorKind::IncompleteBody => 400,
        ErrorKind::InvalidEncoding => 400,
        ErrorKind::InvalidStructure => 400,
        ErrorKind::TransportFailure => 502,
        ErrorKind::NotFound => 502,
        ErrorKind::MalformedResponse => 502,
        ErrorKind::ResolutionFailed => 502,
        ErrorKind::CancelledOrTimedOut => 504,
    }
}

/// Decides the terminal outcome once a resolution attempt has finished.
///
/// Resolved text rewrites the envelope to that query with variables
/// cleared; a failed lookup passes through under fail-open and is
/// otherwise rejected; a request-level timeout is always rejected.
pub fn decide(outcome: ResolutionOutcome, fail_open: bool) -> (r: RewriteDecision)
    ensures
        outcome is TimedOut ==> r == RewriteDecision::Reject(ErrorKind::CancelledOrTimedOut),
        (outcome matches ResolutionOutcome::Completed(ResolutionResult::Resolved(t)) ==> r matches
            RewriteDecision::Rewrite(e) && e@.query == Some(t@) && e@.variables is None),
        outcome matches ResolutionOutcome::Completed(res) && !(res is Resolved) ==> if fail_open {
            r is Passthrough
        } else {
            r == RewriteDecision::Reject(ErrorKind::ResolutionFailed)
        },
{
    match outcome {
        ResolutionOutcome::TimedOut => RewriteDecision::Reject(ErrorKind::CancelledOrTimedOut),
        ResolutionOutcome::Completed(res) => match res {
            ResolutionResult::Resolved(t) => RewriteDecision::Rewrite(
                RequestEnvelope { query: Some(t), variables: None },
            ),
            _ => {
                if fail_open {
                    RewriteDecision::Passthrough
                } else {
                    RewriteDecision::Reject(ErrorKind::ResolutionFailed)
                }
            },
        },
    }
}

} // verus!
