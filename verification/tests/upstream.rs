use llmtrim::gateway::{upstream_url, GatewayError, UpstreamRequest};
use llmtrim::socket::HeaderField;
use llmtrim::text_map::TextMap;
use llmtrim::upstream::{
    check_destination, client_policy, read_answer, BODY_TIMEOUT_SECS, HANDSHAKE_TIMEOUT_SECS,
    MAX_REDIRECTS, RELAYED_RESPONSE_HEADERS, RESPONSE_TIMEOUT_SECS,
};

fn request_to(url: &str) -> UpstreamRequest {
    UpstreamRequest { url: url.to_string(), headers: TextMap::new(), body: Vec::new() }
}

fn field(name: &str, value: &[u8]) -> HeaderField {
    HeaderField { name: name.to_string(), value: value.to_vec() }
}

#[test]
fn the_upstream_url_is_the_one_https_destination() {
    assert_eq!(
        upstream_url(),
        "https://chatgpt.com/backend-api/codex/responses"
    );
}

#[test]
fn the_production_upstream_refuses_every_url_but_the_constant() {
    for hostile in [
        "https://api.openai.com/v1/responses",
        "http://127.0.0.1:43117/backend-api/codex/responses",
        "https://chatgpt.example.com/backend-api/codex/responses",
    ] {
        assert_eq!(
            check_destination(&request_to(hostile)).err(),
            Some(GatewayError::UpstreamFailed),
            "{hostile}"
        );
    }
    assert_eq!(check_destination(&request_to(&upstream_url())), Ok(()));
}

#[test]
fn the_upstream_client_never_adopts_an_ambient_proxy() {
    assert!(!client_policy().ambient_proxy);
}

#[test]
fn the_upstream_client_does_not_follow_redirects() {
    assert_eq!(MAX_REDIRECTS, 0);
    let policy = client_policy();
    assert_eq!(policy.max_redirects, 0);
    // A 3xx comes back as a response to relay, not as a hop the client takes on its own.
    assert!(!policy.max_redirects_will_error);
    assert!(!policy.http_status_as_error);
}

#[test]
fn the_upstream_client_keeps_ordinary_tls_verification() {
    assert!(client_policy().https_only);
}

#[test]
fn every_upstream_timeout_is_bounded() {
    let policy = client_policy();
    assert_eq!(policy.connect_secs, HANDSHAKE_TIMEOUT_SECS);
    assert_eq!(policy.recv_response_secs, RESPONSE_TIMEOUT_SECS);
    assert_eq!(policy.recv_body_secs, BODY_TIMEOUT_SECS);
    for bound in [HANDSHAKE_TIMEOUT_SECS, RESPONSE_TIMEOUT_SECS, BODY_TIMEOUT_SECS] {
        assert!(bound > 0, "{bound:?}");
        assert!(bound <= 3600, "{bound:?}");
    }
}

#[test]
fn the_waits_are_the_documented_ones() {
    assert_eq!(HANDSHAKE_TIMEOUT_SECS, 30);
    assert_eq!(RESPONSE_TIMEOUT_SECS, 120);
    assert_eq!(BODY_TIMEOUT_SECS, 30 * 60);
}

#[test]
fn only_the_content_type_comes_back_to_codex() {
    assert_eq!(RELAYED_RESPONSE_HEADERS, ["content-type"]);
    for never in [
        "set-cookie",
        "content-length",
        "transfer-encoding",
        "content-encoding",
    ] {
        assert!(!RELAYED_RESPONSE_HEADERS.contains(&never), "{never}");
    }
    let head = read_answer(
        302,
        &vec![
            field("Location", b"https://evil.example"),
            field("Content-Type", b"text/event-stream"),
            field("set-cookie", b"x"),
            field("content-type", b"text/plain"),
        ],
    );
    assert_eq!(head.status, 302);
    assert_eq!(head.headers.len(), 1);
    assert_eq!(
        head.headers.get("content-type").map(String::as_str),
        Some("text/event-stream")
    );
    assert_eq!(read_answer(200, &Vec::new()).headers, TextMap::new());
}
