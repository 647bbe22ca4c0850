//! Document resolver support: stage configuration, the lookup path, and
//! the classification of a resolver reply into a typed result.

use vstd::prelude::*;
use vstd::utf8::{decode_utf8, valid_utf8};
use crate::codec::{chars_to_string, push_verbatim, utf8_to_string};
use crate::policy::{ResolutionResult, TransportCause};

verus! {

/// Stage configuration, as the host hands it over: whether the stage
/// runs, where the resolver lives, the two path components naming the
/// client, the lookup deadline, and the behaviour on lookup failure.
#[derive(Clone, Debug)]
pub struct Conf {
    pub enabled: bool,
    pub resolver_base_url: String,
    pub client_name: String,
    pub client_version: String,
    pub timeout_ms: u64,
    pub fail_open: bool,
}

/// Mathematical model of a configuration.
pub struct ConfView {
    pub enabled: bool,
    pub resolver_base_url: Seq<char>,
    pub client_name: Seq<char>,
    pub client_version: Seq<char>,
    pub timeout_ms: u64,
    pub fail_open: bool,
}

impl View for Conf {
    type V = ConfView;

    open spec fn view(&self) -> ConfView {
        ConfView {
            enabled: self.enabled,
            resolver_base_url: self.resolver_base_url@,
            client_name: self.client_name@,
            client_version: self.client_version@,
            timeout_ms: self.timeout_ms,
            fail_open: self.fail_open,
        }
    }
}

impl Default for Conf {
    /// The stage is off until the host configures it; the lookup
    /// deadline defaults to a few seconds, never to an unbounded wait.
    fn default() -> (r: Self)
        ensures
            !r@.enabled,
            !r@.fail_open,
            r@.resolver_base_url.len() == 0,
            r@.client_name.len() == 0,
            r@.client_version.len() == 0,
            r@.timeout_ms == 3000,
    {
        Conf {
            enabled: false,
            resolver_base_url: String::new(),
            client_name: String::new(),
            client_version: String::new(),
            timeout_ms: 3000,
            fail_open: false,
        }
    }
}

/// The deterministic lookup path: base, client name, client version and
/// identifier, separated by slashes.
pub open spec fn spec_lookup_url(c: ConfView, id: Seq<char>) -> Seq<char> {
    c.resolver_base_url + seq!['/'] + c.client_name + seq!['/'] + c.client_version + seq!['/'] + id
}

/// Builds the lookup URL for one identifier.
pub fn lookup_url(c: &Conf, id: &String) -> (r: String)
    ensures
        r@ == spec_lookup_url(c@, id@),
{
    let mut out: Vec<char> = Vec::new();
    push_verbatim(&mut out, &c.resolver_base_url);
    out.push('/');
    push_verbatim(&mut out, &c.client_name);
    out.push('/');
    push_verbatim(&mut out, &c.client_version);
    out.push('/');
    push_verbatim(&mut out, id);
    proof {
        assert(out@ =~= spec_lookup_url(c@, id@));
    }
    chars_to_string(&out)
}

/// Classifies one resolver reply. A success status with a non-empty
/// UTF-8 text body resolves to exactly that text; a success status with
/// an empty or non-UTF-8 body is a malformed response; a client-error
/// status means the document is unknown; any other status is a
/// transport-level failure carrying that status.
pub fn classify_response(status: u16, body: &Vec<u8>) -> (r: ResolutionResult)
    ensures
        200 <= status < 300 && valid_utf8(body@) && decode_utf8(body@).len() > 0 ==> (r matches
            ResolutionResult::Resolved(t) && t@ == decode_utf8(body@)),
        200 <= status < 300 && !(valid_utf8(body@) && decode_utf8(body@).len() > 0) ==> r
            == ResolutionResult::MalformedResponse,
        400 <= status < 500 ==> r == ResolutionResult::NotFound,
        !(200 <= status < 300) && !(400 <= status < 500) ==> r == ResolutionResult::TransportFailure(
            TransportCause::HttpStatus(status),
        ),
{
    if 200 <= status && status < 300 {
        match utf8_to_string(body) {
            None => ResolutionResult::MalformedResponse,
            Some(s) => {
                if s.as_str().is_empty() {
                    ResolutionResult::MalformedResponse
                } else {
                    ResolutionResult::Resolved(s)
                }
            },
        }
    } else if 400 <= status && status < 500 {
        ResolutionResult::NotFound
    } else {
        ResolutionResult::TransportFailure(TransportCause::HttpStatus(status))
    }
}

} // verus!
