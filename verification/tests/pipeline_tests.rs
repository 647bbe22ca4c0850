use persisted_query::pipeline::{ConcludeOutcome, PersistedQueryPlugin, PrepareOutcome};
use persisted_query::policy::{
    suggested_status, ErrorKind, ResolutionOutcome, ResolutionResult, TransportCause,
};
use persisted_query::resolver::{classify_response, lookup_url, Conf};

fn conf(enabled: bool, fail_open: bool) -> Conf {
    Conf {
        enabled,
        resolver_base_url: "http://localhost:3000".to_string(),
        client_name: "client-name".to_string(),
        client_version: "client-version".to_string(),
        timeout_ms: 2000,
        fail_open,
    }
}

fn forwarded(outcome: ConcludeOutcome) -> Vec<u8> {
    match outcome {
        ConcludeOutcome::Forward(b) => b,
        ConcludeOutcome::Reject(k) => panic!("rejected: {:?}", k),
    }
}

#[test]
fn document_id_found_asks_for_one_lookup() {
    let plugin = PersistedQueryPlugin::new(conf(true, false));
    let body = "{\"variables\": {\"documentId\": \"abc123\"}}".as_bytes().to_vec();
    match plugin.prepare(body) {
        PrepareOutcome::Resolve { document_id, url } => {
            assert_eq!(document_id, "abc123");
            assert_eq!(url, "http://localhost:3000/client-name/client-version/abc123");
        }
        _ => panic!("expected a resolution request"),
    }
}

#[test]
fn resolved_text_rewrites_the_body() {
    let plugin = PersistedQueryPlugin::new(conf(true, false));
    let original = "{\"variables\": {\"documentId\": \"abc123\"}}".as_bytes().to_vec();
    let outcome = ResolutionOutcome::Completed(ResolutionResult::Resolved(
        "query { hello }".to_string(),
    ));
    let out = forwarded(plugin.conclude(original, outcome));
    assert_eq!(String::from_utf8(out).unwrap(), "{\"query\":\"query { hello }\"}");
}

#[test]
fn no_document_id_passes_the_body_through() {
    let plugin = PersistedQueryPlugin::new(conf(true, false));
    let body = "{\"query\": \"query { hello }\"}".as_bytes().to_vec();
    match plugin.prepare(body.clone()) {
        PrepareOutcome::Forward(b) => assert_eq!(b, body),
        _ => panic!("expected passthrough"),
    }
}

#[test]
fn disabled_stage_passes_anything_through() {
    let plugin = PersistedQueryPlugin::new(conf(false, false));
    let body = vec![0xff, 0x00, 0x01];
    match plugin.prepare(body.clone()) {
        PrepareOutcome::Forward(b) => assert_eq!(b, body),
        _ => panic!("expected passthrough"),
    }
}

#[test]
fn empty_or_non_string_document_id_passes_through() {
    let plugin = PersistedQueryPlugin::new(conf(true, false));
    for body in [
        "{\"variables\": {\"documentId\": \"\"}}",
        "{\"variables\": {\"documentId\": 42}}",
        "{\"variables\": {\"other\": \"abc\"}}",
        "{\"variables\": {\"outer\": {\"documentId\": \"abc\"}}}",
        "{\"variables\": null}",
        "{}",
    ] {
        match plugin.prepare(body.as_bytes().to_vec()) {
            PrepareOutcome::Forward(b) => assert_eq!(b, body.as_bytes()),
            _ => panic!("expected passthrough for {body}"),
        }
    }
}

#[test]
fn later_document_id_entry_shadows_earlier() {
    let plugin = PersistedQueryPlugin::new(conf(true, false));
    let body = "{\"variables\": {\"documentId\": \"first\", \"documentId\": \"second\"}}"
        .as_bytes()
        .to_vec();
    match plugin.prepare(body) {
        PrepareOutcome::Resolve { document_id, .. } => assert_eq!(document_id, "second"),
        _ => panic!("expected a resolution request"),
    }
}

#[test]
fn malformed_body_is_rejected_not_fatal() {
    let plugin = PersistedQueryPlugin::new(conf(true, false));
    match plugin.prepare(vec![0xff, 0xfe]) {
        PrepareOutcome::Reject(k) => assert_eq!(k, ErrorKind::InvalidEncoding),
        _ => panic!("expected a rejection"),
    }
    match plugin.prepare("not json".as_bytes().to_vec()) {
        PrepareOutcome::Reject(k) => assert_eq!(k, ErrorKind::InvalidStructure),
        _ => panic!("expected a rejection"),
    }
}

#[test]
fn not_found_rejects_when_fail_closed() {
    let plugin = PersistedQueryPlugin::new(conf(true, false));
    let original = "{\"variables\": {\"documentId\": \"missing\"}}".as_bytes().to_vec();
    let outcome = ResolutionOutcome::Completed(ResolutionResult::NotFound);
    match plugin.conclude(original, outcome) {
        ConcludeOutcome::Reject(k) => assert_eq!(k, ErrorKind::ResolutionFailed),
        _ => panic!("expected a rejection"),
    }
}

#[test]
fn not_found_passes_through_when_fail_open() {
    let plugin = PersistedQueryPlugin::new(conf(true, true));
    let original = "{\"variables\": {\"documentId\": \"missing\"}}".as_bytes().to_vec();
    let outcome = ResolutionOutcome::Completed(ResolutionResult::NotFound);
    let out = forwarded(plugin.conclude(original.clone(), outcome));
    assert_eq!(out, original);
}

#[test]
fn transport_failure_follows_the_fail_open_switch() {
    let original = "{\"variables\": {\"documentId\": \"x\"}}".as_bytes().to_vec();
    let closed = PersistedQueryPlugin::new(conf(true, false));
    let outcome = ResolutionOutcome::Completed(ResolutionResult::TransportFailure(
        TransportCause::ConnectionFailed,
    ));
    assert!(matches!(
        closed.conclude(original.clone(), outcome),
        ConcludeOutcome::Reject(ErrorKind::ResolutionFailed)
    ));
    let open = PersistedQueryPlugin::new(conf(true, true));
    let outcome = ResolutionOutcome::Completed(ResolutionResult::MalformedResponse);
    assert_eq!(forwarded(open.conclude(original.clone(), outcome)), original);
}

#[test]
fn timeout_always_rejects_with_timeout_error() {
    for fail_open in [false, true] {
        let plugin = PersistedQueryPlugin::new(conf(true, fail_open));
        let original = "{\"variables\": {\"documentId\": \"slow\"}}".as_bytes().to_vec();
        match plugin.conclude(original, ResolutionOutcome::TimedOut) {
            ConcludeOutcome::Reject(k) => assert_eq!(k, ErrorKind::CancelledOrTimedOut),
            _ => panic!("expected a rejection"),
        }
    }
}

#[test]
fn rejections_map_to_their_status_class() {
    assert_eq!(suggested_status(ErrorKind::IncompleteBody), 400);
    assert_eq!(suggested_status(ErrorKind::InvalidEncoding), 400);
    assert_eq!(suggested_status(ErrorKind::InvalidStructure), 400);
    assert_eq!(suggested_status(ErrorKind::TransportFailure), 502);
    assert_eq!(suggested_status(ErrorKind::NotFound), 502);
    assert_eq!(suggested_status(ErrorKind::MalformedResponse), 502);
    assert_eq!(suggested_status(ErrorKind::ResolutionFailed), 502);
    assert_eq!(suggested_status(ErrorKind::CancelledOrTimedOut), 504);
}

#[test]
fn lookup_url_is_deterministic() {
    let c = conf(true, false);
    assert_eq!(
        lookup_url(&c, &"abc123".to_string()),
        "http://localhost:3000/client-name/client-version/abc123"
    );
}

#[test]
fn classify_success_with_text_resolves() {
    let r = classify_response(200, &"query { hello }".as_bytes().to_vec());
    match r {
        ResolutionResult::Resolved(t) => assert_eq!(t, "query { hello }"),
        _ => panic!("expected resolved text"),
    }
}

#[test]
fn classify_accepts_any_text_including_controls() {
    let body = "line one\nline two\u{0} tab\t".as_bytes().to_vec();
    match classify_response(200, &body) {
        ResolutionResult::Resolved(t) => assert_eq!(t, "line one\nline two\u{0} tab\t"),
        _ => panic!("expected resolved text"),
    }
}

#[test]
fn resolved_text_with_controls_rewrites_and_decodes_back() {
    let plugin = PersistedQueryPlugin::new(conf(true, false));
    let original = "{\"variables\": {\"documentId\": \"abc123\"}}".as_bytes().to_vec();
    let text = "query {\n  hello\u{1f}\n}".to_string();
    let outcome = ResolutionOutcome::Completed(ResolutionResult::Resolved(text.clone()));
    let out = forwarded(plugin.conclude(original, outcome));
    let back = persisted_query::codec::decode_envelope(&out).unwrap();
    assert_eq!(back.query.as_deref(), Some(text.as_str()));
    assert!(back.variables.is_none());
}

#[test]
fn default_configuration_is_off_with_a_bounded_deadline() {
    let c = Conf::default();
    assert!(!c.enabled);
    assert!(!c.fail_open);
    assert_eq!(c.timeout_ms, 3000);
}

#[test]
fn classify_success_with_bad_body_is_malformed() {
    assert!(matches!(classify_response(200, &vec![]), ResolutionResult::MalformedResponse));
    assert!(matches!(
        classify_response(204, &vec![0xff, 0xfe]),
        ResolutionResult::MalformedResponse
    ));
}

#[test]
fn classify_status_classes() {
    assert!(matches!(classify_response(404, &vec![]), ResolutionResult::NotFound));
    assert!(matches!(classify_response(400, &vec![]), ResolutionResult::NotFound));
    assert!(matches!(
        classify_response(500, &"oops".as_bytes().to_vec()),
        ResolutionResult::TransportFailure(TransportCause::HttpStatus(500))
    ));
    assert!(matches!(
        classify_response(302, &vec![]),
        ResolutionResult::TransportFailure(TransportCause::HttpStatus(302))
    ));
}

#[test]
fn concurrent_requests_each_get_their_own_text() {
    let rt = tokio::runtime::Builder::new_multi_thread()
        .worker_threads(4)
        .enable_all()
        .build()
        .unwrap();
    let mut handles = Vec::new();
    for n in 0..16u32 {
        handles.push(rt.spawn(async move {
            let plugin = PersistedQueryPlugin::new(conf(true, false));
            let id = format!("doc-{n}");
            let body = format!("{{\"variables\": {{\"documentId\": \"{id}\"}}}}").into_bytes();
            let prepared = plugin.prepare(body.clone());
            let document_id = match prepared {
                PrepareOutcome::Resolve { document_id, .. } => document_id,
                _ => panic!("expected a resolution request"),
            };
            tokio::task::yield_now().await;
            // a resolver stub keyed by identifier
            let text = format!("query {{ item(id: \"{document_id}\") }}");
            let outcome =
                ResolutionOutcome::Completed(ResolutionResult::Resolved(text.clone()));
            let out = match plugin.conclude(body, outcome) {
                ConcludeOutcome::Forward(b) => b,
                ConcludeOutcome::Reject(k) => panic!("rejected: {:?}", k),
            };
            (n, String::from_utf8(out).unwrap())
        }));
    }
    for h in handles {
        let (n, out) = rt.block_on(h).unwrap();
        let expected = format!(
            "{{\"query\":\"query {{ item(id: \\\"doc-{n}\\\") }}\"}}"
        );
        assert_eq!(out, expected);
    }
}
