//! The pipeline stage. Per request the stage runs in two verified
//! steps around the one suspension point it needs: `prepare` inspects
//! the materialized body and either forwards it, rejects it, or asks
//! for one resolution; `conclude` turns the resolution's outcome into
//! the single body that is forwarded, or a rejection. The caller owns
//! the loop between the two: it performs the lookup, enforces the
//! deadline, and hands the outcome back, so no two resolutions are ever
//! started for one request.

use vstd::prelude::*;
use vstd::utf8::{decode_utf8, valid_utf8};
use crate::codec::{
    DecodeError, EnvelopeView, RequestEnvelope, decode_envelope, encode_envelope,
    lemma_decode_encode, spec_decode, spec_encode, wf_envelope,
};
use crate::extract::{extract_document_id, spec_extract};
use crate::policy::{ErrorKind, ResolutionOutcome, ResolutionResult, RewriteDecision, decide};
use crate::resolver::{Conf, lookup_url, spec_lookup_url};

verus! {

/// The persisted-query pipeline stage: its configuration, and the two
/// verified steps of its per-request work.
pub struct PersistedQueryPlugin {
    pub configuration: Conf,
}

/// What `prepare` asks of the caller: forward this body as it stands,
/// perform exactly one lookup, or reject the request.
pub enum PrepareOutcome {
    Forward(Vec<u8>),
    Resolve { document_id: String, url: String },
    Reject(ErrorKind),
}

/// What `conclude` settles on: the single body to forward, or a
/// rejection.
pub enum ConcludeOutcome {
    Forward(Vec<u8>),
    Reject(ErrorKind),
}

impl PersistedQueryPlugin {
    /// Builds the stage around its configuration.
    pub fn new(configuration: Conf) -> (r: Self)
        ensures
            r.configuration@ == configuration@,
    {
        PersistedQueryPlugin { configuration }
    }

    /// Inspects one materialized request body. A disabled stage, an
    /// envelope without a document reference, each forward the body
    /// unchanged; a body that is not UTF-8 or not an envelope is
    /// rejected; an envelope with a reference asks for exactly one
    /// lookup at the deterministic URL for that reference.
    pub fn prepare(&self, body: Vec<u8>) -> (r: PrepareOutcome)
        ensures
            !self.configuration@.enabled ==> (r matches PrepareOutcome::Forward(b) && b@ == body@),
            self.configuration@.enabled && !valid_utf8(body@) ==> r == PrepareOutcome::Reject(
                ErrorKind::InvalidEncoding,
            ),
            self.configuration@.enabled && valid_utf8(body@) && spec_decode(decode_utf8(body@))
                is None ==> r == PrepareOutcome::Reject(ErrorKind::InvalidStructure),
            self.configuration@.enabled && valid_utf8(body@) ==> (spec_decode(decode_utf8(body@))
                matches Some(ev) ==> match spec_extract(ev) {
                None => r matches PrepareOutcome::Forward(b) && b@ == body@,
                Some(id) => r matches PrepareOutcome::Resolve { document_id, url }
                    && document_id@ == id && url@ == spec_lookup_url(self.configuration@, id),
            }),
    {
        if !self.configuration.enabled {
            return PrepareOutcome::Forward(body);
        }
        match decode_envelope(&body) {
            Err(DecodeError::InvalidEncoding) => PrepareOutcome::Reject(ErrorKind::InvalidEncoding),
            Err(DecodeError::InvalidStructure) => PrepareOutcome::Reject(
                ErrorKind::InvalidStructure,
            ),
            Ok(env) => match extract_document_id(&env) {
                None => PrepareOutcome::Forward(body),
                Some(id) => {
                    let url = lookup_url(&self.configuration, &id);
                    PrepareOutcome::Resolve { document_id: id, url }
                },
            },
        }
    }

    /// Turns the outcome of the one lookup into the terminal result for
    /// the request. Resolved text is re-encoded as an envelope holding
    /// exactly that query and no variables; a failed lookup forwards the
    /// original body under fail-open and is rejected otherwise; a
    /// request-level timeout is always rejected.
    pub fn conclude(&self, original_body: Vec<u8>, outcome: ResolutionOutcome) -> (r:
        ConcludeOutcome)
        ensures
            outcome is TimedOut ==> r == ConcludeOutcome::Reject(ErrorKind::CancelledOrTimedOut),
            (outcome matches ResolutionOutcome::Completed(ResolutionResult::Resolved(t)) ==> r
                matches ConcludeOutcome::Forward(b) && valid_utf8(b@) && decode_utf8(b@)
                == spec_encode(EnvelopeView { query: Some(t@), variables: None })),
            outcome matches ResolutionOutcome::Completed(res) && !(res is Resolved) ==> if self.configuration@.fail_open {
                r matches ConcludeOutcome::Forward(b) && b@ == original_body@
            } else {
                r == ConcludeOutcome::Reject(ErrorKind::ResolutionFailed)
            },
    {
        match decide(outcome, self.configuration.fail_open) {
            RewriteDecision::Rewrite(e) => {
                proof {
                    assert(e@ == EnvelopeView { query: e@.query, variables: None });
                }
                ConcludeOutcome::Forward(encode_envelope(&e))
            },
            RewriteDecision::Passthrough => ConcludeOutcome::Forward(original_body),
            RewriteDecision::Reject(k) => ConcludeOutcome::Reject(k),
        }
    }
}

/// The envelope a rewrite produces — query text and nothing else —
/// decodes back to itself: the next stage reads exactly the resolved
/// text.
pub proof fn lemma_rewritten_envelope_round_trip(t: Seq<char>)
    ensures
        spec_decode(spec_encode(EnvelopeView { query: Some(t), variables: None })) == Some(
            EnvelopeView { query: Some(t), variables: None },
        ),
{
    lemma_decode_encode(EnvelopeView { query: Some(t), variables: None });
}

} // verus!
