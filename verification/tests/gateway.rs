use llmtrim::gateway::{
    auth_gate, compress_body, forward_headers, handle, prepare, seal_body, settle, upstream_url,
    validate_route, GatewayError, GatewayMetrics, GatewayRequest, GatewayUpstream, ProviderKind,
    UpstreamRequest, UpstreamResponse, DROPPED_HEADERS, FORWARDED_HEADERS, GATEWAY_PRESET,
    GATEWAY_ROUTE, UPSTREAM_ORIGIN,
};
use llmtrim::text_map::TextMap;

/// Fictitious sentinels. Any real credential would be a bug in the test, not a secret.
const FAKE_BEARER: &str = "Bearer SUPER_SECRET_DO_NOT_LEAK";
const FAKE_ACCOUNT: &str = "FAKE_ACCOUNT_DO_NOT_LEAK";

fn headers(pairs: &[(&str, &str)]) -> TextMap {
    let mut map = TextMap::new();
    for (name, value) in pairs {
        map.insert(name.to_string(), value.to_string());
    }
    map
}

fn value<'a>(map: &'a TextMap, name: &str) -> Option<&'a str> {
    map.get(name).map(String::as_str)
}

/// A lossless transform of the kind the gateway is run with: JSON pasted into a prompt loses its
/// insignificant white space, and nothing else changes.
fn transform(text: &str, provider: ProviderKind, preset: &str) -> Option<String> {
    if provider != ProviderKind::OpenAi || preset != "safe" {
        return None;
    }
    let mut body: serde_json::Value = serde_json::from_str(text).ok()?;
    if let Some(messages) = body.get_mut("messages").and_then(|m| m.as_array_mut()) {
        for message in messages {
            let content = message.get("content").and_then(|c| c.as_str()).map(str::to_string);
            if let Some(content) = content {
                let at = content.find(|c: char| c == '[' || c == '{').unwrap_or(content.len());
                let (prose, pasted) = content.split_at(at);
                if let Ok(value) = serde_json::from_str::<serde_json::Value>(pasted) {
                    message["content"] = serde_json::Value::String(format!("{prose}{value}"));
                }
            }
        }
    }
    Some(body.to_string())
}

/// Stands in for the destination. Records exactly what the gateway tried to send.
#[derive(Default)]
struct FakeUpstream {
    seen: Vec<UpstreamRequest>,
    reply: Option<UpstreamResponse>,
    fail: bool,
}

impl FakeUpstream {
    fn streaming() -> Self {
        Self {
            reply: Some(UpstreamResponse {
                status: 200,
                headers: headers(&[("content-type", "text/event-stream")]),
                chunks: vec![
                    b"event: response.created\ndata: {\"a\":1}\n\n".to_vec(),
                    b"event: response.output_text.delta\ndata: {\"d\":\"x\"}\n\n".to_vec(),
                    b"event: response.completed\ndata: {\"done\":true}\n\n".to_vec(),
                ],
            }),
            ..Self::default()
        }
    }

    fn failing() -> Self {
        Self { fail: true, ..Self::default() }
    }
}

impl GatewayUpstream for FakeUpstream {
    fn send(&mut self, request: UpstreamRequest) -> Result<UpstreamResponse, GatewayError> {
        self.seen.push(request);
        if self.fail {
            return Err(GatewayError::UpstreamFailed);
        }
        Ok(self.reply.clone().unwrap_or(UpstreamResponse {
            status: 200,
            headers: TextMap::new(),
            chunks: vec![b"{}".to_vec()],
        }))
    }
}

/// A body that carries repetitive, pretty-printed tool output.
fn codex_body() -> Vec<u8> {
    let records: Vec<String> = (0..80)
        .map(|i| {
            format!(
                r#"{{"requestId":"REQ-{i:06}","service":"billing","level":"INFO","latencyMs":{},"route":"/api/v1/billing/items","region":"sa-east-1","message":"request completed"}}"#,
                12 + i
            )
        })
        .collect();
    let parsed: Vec<serde_json::Value> = records
        .iter()
        .map(|r| serde_json::from_str(r).expect("record"))
        .collect();
    let tool_output = serde_json::to_string_pretty(&parsed).expect("pretty tool output");
    let content = format!(
        "PRIVATE_PROMPT_DO_NOT_LEAK Read the log tool output and reply with the requestId of REQ-000057.\n\n{tool_output}"
    );
    let mut message = serde_json::Map::new();
    message.insert("role".to_string(), serde_json::Value::from("user"));
    message.insert("content".to_string(), serde_json::Value::from(content));
    let mut body = serde_json::Map::new();
    body.insert("model".to_string(), serde_json::Value::from("gpt-5.6-sol"));
    body.insert(
        "messages".to_string(),
        serde_json::Value::from(vec![serde_json::Value::Object(message)]),
    );
    serde_json::to_vec(&serde_json::Value::Object(body)).expect("serialize body")
}

fn codex_request() -> GatewayRequest {
    GatewayRequest {
        method: "POST".to_string(),
        path: GATEWAY_ROUTE.to_string(),
        headers: headers(&[
            ("authorization", FAKE_BEARER),
            ("chatgpt-account-id", FAKE_ACCOUNT),
            ("content-type", "application/json"),
            ("host", "127.0.0.1:45999"),
            ("content-length", "999"),
        ]),
        body: codex_body(),
    }
}

// ----- route and method -------------------------------------------------------------

#[test]
fn the_gateway_serves_exactly_one_route() {
    validate_route("POST", GATEWAY_ROUTE).expect("the codex route is served");
    assert_eq!(validate_route("POST", "/v1/responses"), Err(GatewayError::RouteNotFound));
    assert_eq!(validate_route("POST", "/"), Err(GatewayError::RouteNotFound));
    assert_eq!(validate_route("GET", GATEWAY_ROUTE), Err(GatewayError::MethodNotAllowed));
}

#[test]
fn an_absolute_form_target_is_not_a_destination() {
    for hostile in [
        "http://example.com/backend-api/codex/responses",
        "https://api.openai.com/v1/responses",
        "//evil.example/backend-api/codex/responses",
    ] {
        assert_eq!(
            validate_route("POST", hostile),
            Err(GatewayError::RouteNotFound),
            "{hostile}"
        );
    }
}

#[test]
fn a_query_is_not_part_of_the_route() {
    assert_eq!(validate_route("POST", "/backend-api/codex/responses?x=1?y"), Ok(()));
    assert_eq!(
        validate_route("POST", "/backend-api/codex/responses/?x=1"),
        Err(GatewayError::RouteNotFound)
    );
    assert_eq!(
        validate_route("POST", "/backend-api/codex/responses/responses"),
        Err(GatewayError::RouteNotFound)
    );
    assert_eq!(validate_route("POST", ""), Err(GatewayError::RouteNotFound));
}

#[test]
fn the_method_is_compared_without_case() {
    assert_eq!(validate_route("post", GATEWAY_ROUTE), Ok(()));
    assert_eq!(validate_route("PoSt", GATEWAY_ROUTE), Ok(()));
    assert_eq!(validate_route("POSTS", GATEWAY_ROUTE), Err(GatewayError::MethodNotAllowed));
    assert_eq!(validate_route("", GATEWAY_ROUTE), Err(GatewayError::MethodNotAllowed));
    assert_eq!(validate_route("GET", "/"), Err(GatewayError::RouteNotFound));
}

// ----- auth -------------------------------------------------------------------------

#[test]
fn a_request_without_the_callers_own_bearer_never_reaches_upstream() {
    let mut request = codex_request();
    request.headers.remove("authorization");
    let mut upstream = FakeUpstream::default();
    assert_eq!(
        handle(&request, &transform, &mut upstream),
        Err(GatewayError::MissingAuthorization)
    );
    assert!(
        upstream.seen.is_empty(),
        "the loopback port must not be an anonymous relay"
    );
}

#[test]
fn a_malformed_authorization_is_rejected_by_shape_alone() {
    for value in ["", "Token abc", "Bearer ", "Bearer    "] {
        let map = headers(&[("authorization", value)]);
        assert!(auth_gate(&map).is_err(), "{value:?}");
    }
    // Shape only: any non-empty bearer passes, because the gateway never interprets it.
    let ok = headers(&[("authorization", FAKE_BEARER)]);
    auth_gate(&ok).expect("a well-formed bearer passes");
}

#[test]
fn the_bearer_prefix_is_capital_or_all_small() {
    let verdict = |value: &str| auth_gate(&headers(&[("authorization", value)]));
    assert_eq!(verdict("bearer x"), Ok(()));
    assert_eq!(verdict("Bearer  x "), Ok(()));
    assert_eq!(verdict("BEARER x"), Err(GatewayError::MalformedAuthorization));
    assert_eq!(verdict("Bearer"), Err(GatewayError::MalformedAuthorization));
    assert_eq!(verdict("Bearer\tx"), Err(GatewayError::MalformedAuthorization));
    assert_eq!(verdict("Bearer \u{3000}\u{a0}\t"), Err(GatewayError::MalformedAuthorization));
    assert_eq!(verdict("Bearer \u{200b}"), Ok(()));
    assert_eq!(auth_gate(&headers(&[("cookie", "x")])), Err(GatewayError::MissingAuthorization));
}

// ----- upstream is fixed ------------------------------------------------------------

#[test]
fn the_upstream_is_two_constants_and_nothing_from_the_request() {
    assert_eq!(upstream_url(), format!("{UPSTREAM_ORIGIN}{GATEWAY_ROUTE}"));
    assert!(upstream_url().starts_with("https://chatgpt.com"));
}

#[test]
fn no_header_can_redirect_the_gateway() {
    let mut request = codex_request();
    for (name, value) in [
        ("x-upstream", "https://evil.example"),
        ("host", "evil.example"),
        ("x-forwarded-host", "evil.example"),
        ("forwarded", "host=evil.example"),
    ] {
        request.headers.insert(name.to_string(), value.to_string());
    }
    let mut upstream = FakeUpstream::default();
    handle(&request, &transform, &mut upstream).expect("still handled");
    let sent = &upstream.seen[0];
    assert_eq!(sent.url, upstream_url(), "the destination is not negotiable");
    for leaked in ["x-upstream", "x-forwarded-host", "forwarded", "host"] {
        assert!(!sent.headers.contains_key(leaked), "{leaked} was relayed");
    }
}

#[test]
fn hop_by_hop_headers_are_not_relayed() {
    let mut request = codex_request();
    for name in DROPPED_HEADERS {
        request.headers.insert(name.to_string(), "x".to_string());
    }
    let forwarded = forward_headers(&request.headers);
    for name in DROPPED_HEADERS {
        assert!(!forwarded.contains_key(name), "{name}");
    }
}

#[test]
fn every_listed_header_is_relayed_and_nothing_else() {
    let mut incoming = TextMap::new();
    for name in FORWARDED_HEADERS {
        incoming.insert(name.to_string(), format!("value of {name}"));
    }
    incoming.insert("cookie".to_string(), "x".to_string());
    let forwarded = forward_headers(&incoming);
    assert_eq!(forwarded.len(), FORWARDED_HEADERS.len());
    for name in FORWARDED_HEADERS {
        assert_eq!(value(&forwarded, name), Some(format!("value of {name}").as_str()));
    }
    assert_eq!(forward_headers(&forwarded), forwarded);
}

#[test]
fn of_several_spellings_the_last_in_byte_order_counts() {
    let incoming = headers(&[("ACCEPT", "first"), ("Accept", "second"), ("aCCEPT", "third")]);
    let forwarded = forward_headers(&incoming);
    assert_eq!(forwarded, headers(&[("accept", "third")]));
}

// ----- credentials pass through, untouched ------------------------------------------

#[test]
fn the_callers_credentials_reach_upstream_byte_for_byte() {
    let request = codex_request();
    let mut upstream = FakeUpstream::default();
    handle(&request, &transform, &mut upstream).expect("handled");
    let sent = &upstream.seen[0];
    assert_eq!(
        sent.headers.get("authorization").map(String::as_str),
        Some(FAKE_BEARER)
    );
    assert_eq!(
        sent.headers.get("chatgpt-account-id").map(String::as_str),
        Some(FAKE_ACCOUNT)
    );
}

// ----- compression ------------------------------------------------------------------

// The transform is the caller's. Here a stand-in of the same kind runs in place of the product's own.
#[test]
fn the_body_is_compressed_by_the_products_real_transform() {
    let request = codex_request();
    let mut upstream = FakeUpstream::default();
    let (_, metrics) = handle(&request, &transform, &mut upstream).expect("handled");
    let sent = &upstream.seen[0];
    assert!(
        sent.body.len() < request.body.len(),
        "upstream body {} must be smaller than the local body {}",
        sent.body.len(),
        request.body.len()
    );
    assert_eq!(metrics.local_request_bytes, request.body.len() as u64);
    assert_eq!(metrics.upstream_request_bytes, sent.body.len() as u64);
    assert!(metrics.reduction_basis_points() > 0);
}

#[test]
fn the_compressed_body_keeps_what_the_task_needs() {
    let request = codex_request();
    let mut upstream = FakeUpstream::default();
    handle(&request, &transform, &mut upstream).expect("handled");
    let sent = String::from_utf8(upstream.seen[0].body.clone()).expect("utf-8");
    for marker in ["REQ-000057", "gpt-5.6-sol", "billing"] {
        assert!(sent.contains(marker), "transform dropped {marker}");
    }
}

#[test]
fn the_gateway_pins_the_safe_profile() {
    assert_eq!(GATEWAY_PRESET, "safe");
    // The transform echoes the profile it is handed, so what comes back is what the gateway pinned.
    let echo = |_: &str, _: ProviderKind, preset: &str| Some(preset.to_string());
    assert_eq!(compress_body(b"a body that is longer", &echo), Ok(b"safe".to_vec()));
}

#[test]
fn compression_failure_is_closed_not_open() {
    // Invalid UTF-8 cannot be compressed, and the gateway must refuse it.
    let mut request = codex_request();
    request.body = vec![0xff, 0xfe, 0xfd];
    let mut upstream = FakeUpstream::default();
    assert_eq!(
        handle(&request, &transform, &mut upstream),
        Err(GatewayError::CompressionFailed)
    );
    assert!(
        upstream.seen.is_empty(),
        "nothing may be forwarded when compression fails"
    );
    assert!(compress_body(&[0xff, 0xfe], &transform).is_err());
}

#[test]
fn a_body_the_transform_does_not_take_is_refused() {
    let mut request = codex_request();
    request.body = b"not json".to_vec();
    let mut upstream = FakeUpstream::default();
    assert_eq!(
        handle(&request, &transform, &mut upstream),
        Err(GatewayError::CompressionFailed)
    );
    assert!(upstream.seen.is_empty());
    assert_eq!(
        prepare(&request, &transform).err(),
        Some(GatewayError::CompressionFailed)
    );
}

#[test]
fn the_transform_is_given_the_decoded_text_and_the_pinned_profile() {
    let echo = |text: &str, provider: ProviderKind, preset: &str| -> Option<String> {
        Some(format!("{text}|{provider:?}|{preset}"))
    };
    let body = compress_body("grüße".as_bytes(), &echo).expect("text");
    assert_eq!(body, "grüße|OpenAi|safe".as_bytes());
    assert_eq!(seal_body(Some("é".to_string())), Ok(vec![0xc3, 0xa9]));
    assert_eq!(seal_body(None), Err(GatewayError::CompressionFailed));
    // An overlong encoding, a surrogate and a cut-off sequence are not text.
    for broken in [&[0xc0u8, 0x80][..], &[0xed, 0xa0, 0x80][..], &[0xe2, 0x82][..]] {
        assert_eq!(compress_body(broken, &echo), Err(GatewayError::CompressionFailed));
    }
}

// ----- response ---------------------------------------------------------------------

#[test]
fn a_streamed_response_is_relayed_chunk_for_chunk_in_order() {
    let request = codex_request();
    let mut upstream = FakeUpstream::streaming();
    let expected = upstream.reply.clone().expect("reply");
    let (response, metrics) = handle(&request, &transform, &mut upstream).expect("handled");
    assert_eq!(response.chunks, expected.chunks, "SSE order must be preserved");
    assert_eq!(response.status, 200);
    assert_eq!(
        response.headers.get("content-type").map(String::as_str),
        Some("text/event-stream")
    );
    assert_eq!(metrics.response_chunks, 3);
}

#[test]
fn an_upstream_failure_is_reported_not_worked_around() {
    let request = codex_request();
    let mut upstream = FakeUpstream::failing();
    assert_eq!(
        handle(&request, &transform, &mut upstream),
        Err(GatewayError::UpstreamFailed)
    );
    assert_eq!(upstream.seen.len(), 1, "no retry, no second provider");
}

#[test]
fn settling_keeps_the_answer_and_adds_the_counts() {
    let metrics = GatewayMetrics {
        local_request_bytes: 10,
        upstream_request_bytes: 7,
        ..GatewayMetrics::default()
    };
    let response = UpstreamResponse {
        status: 429,
        headers: headers(&[("content-type", "application/json")]),
        chunks: vec![b"a".to_vec(), Vec::new()],
    };
    let (kept, counted) = settle(Ok(response.clone()), metrics).expect("an answer");
    assert_eq!(kept, response);
    assert_eq!(
        counted,
        GatewayMetrics {
            local_request_bytes: 10,
            upstream_request_bytes: 7,
            response_chunks: 2,
            status: 429,
        }
    );
    assert_eq!(
        settle(Err(GatewayError::UpstreamFailed), metrics),
        Err(GatewayError::UpstreamFailed)
    );
}

// ----- what the gateway must not do -------------------------------------------------

const EVERY_ERROR: [GatewayError; 8] = [
    GatewayError::MissingAuthorization,
    GatewayError::MalformedAuthorization,
    GatewayError::CompressionFailed,
    GatewayError::UpstreamFailed,
    GatewayError::RouteNotFound,
    GatewayError::MethodNotAllowed,
    GatewayError::RequestTooLarge,
    GatewayError::MalformedRequest,
];

#[test]
fn errors_never_render_a_credential() {
    for error in EVERY_ERROR {
        let rendered = format!("{} {error:?}", error.message());
        for sentinel in [
            "SUPER_SECRET_DO_NOT_LEAK",
            "FAKE_ACCOUNT_DO_NOT_LEAK",
            "Bearer ",
        ] {
            assert!(!rendered.contains(sentinel), "{error:?} leaked {sentinel}");
        }
    }
}

#[test]
fn each_error_has_its_status_and_its_words() {
    let table = [
        (GatewayError::MethodNotAllowed, 405, "method not allowed"),
        (GatewayError::RouteNotFound, 404, "route not served by the codex gateway"),
        (GatewayError::MissingAuthorization, 401, "request carried no authorization header"),
        (GatewayError::MalformedAuthorization, 401, "authorization header was not a bearer token"),
        (GatewayError::RequestTooLarge, 413, "request body exceeded the gateway's ceiling"),
        (GatewayError::MalformedRequest, 400, "request could not be read"),
        (
            GatewayError::CompressionFailed,
            500,
            "compression failed; refusing to forward uncompressed",
        ),
        (GatewayError::UpstreamFailed, 502, "upstream request failed"),
    ];
    for (error, status, words) in table {
        assert_eq!(error.status(), status);
        assert_eq!(error.message(), words);
    }
}

#[test]
fn metrics_carry_no_content() {
    let request = codex_request();
    let mut upstream = FakeUpstream::streaming();
    let (_, metrics) = handle(&request, &transform, &mut upstream).expect("handled");
    let rendered = format!("{metrics:?}");
    for sentinel in [
        "SUPER_SECRET_DO_NOT_LEAK",
        "FAKE_ACCOUNT_DO_NOT_LEAK",
        "REQ-",
        "billing",
    ] {
        assert!(!rendered.contains(sentinel), "metrics leaked {sentinel}");
    }
}

#[test]
fn the_reduction_is_in_hundredths_of_a_percent_and_rounds_towards_zero() {
    let points = |local: u64, sent: u64| {
        GatewayMetrics {
            local_request_bytes: local,
            upstream_request_bytes: sent,
            ..GatewayMetrics::default()
        }
        .reduction_basis_points()
    };
    assert_eq!(points(0, 0), 0);
    assert_eq!(points(0, 5), 0);
    assert_eq!(points(100, 75), 2500);
    assert_eq!(points(3, 2), 3333);
    assert_eq!(points(3, 4), -3333);
    assert_eq!(points(7, 7), 0);
    assert_eq!(points(7, 0), 10_000);
    assert_eq!(points(1, u64::MAX), -(i128::from(u64::MAX) - 1) * 10_000);
    assert_eq!(points(u64::MAX, 0), 10_000);
}

// ----- synthetic end-to-end ---------------------------------------------------------

#[test]
fn synthetic_end_to_end_fake_codex_to_gateway_to_fake_upstream() {
    let request = codex_request();
    let mut upstream = FakeUpstream::streaming();
    let expected_stream = upstream.reply.clone().expect("reply").chunks;

    let (response, metrics) =
        handle(&request, &transform, &mut upstream).expect("the exchange completes");

    // A: the client sent a controlled payload; B: the gateway received it.
    assert_eq!(metrics.local_request_bytes, request.body.len() as u64);
    // C + D: compression happened and the upstream body is smaller.
    let sent = &upstream.seen[0];
    assert!(sent.body.len() < request.body.len());
    // E: the semantic marker survived.
    let sent_text = String::from_utf8(sent.body.clone()).expect("utf-8");
    assert!(sent_text.contains("REQ-000057"));
    // F + G: credentials arrived identical.
    assert_eq!(
        sent.headers.get("authorization").map(String::as_str),
        Some(FAKE_BEARER)
    );
    assert_eq!(
        sent.headers.get("chatgpt-account-id").map(String::as_str),
        Some(FAKE_ACCOUNT)
    );
    // H: nothing observable carries the sentinel.
    let observable = format!("{metrics:?} {:?} {}", response.status, upstream_url());
    assert!(!observable.contains("SUPER_SECRET_DO_NOT_LEAK"));
    // J: the stream came back unchanged, in order.
    assert_eq!(response.chunks, expected_stream);

    println!("LOCAL_REQUEST_BYTES={}", metrics.local_request_bytes);
    println!("UPSTREAM_REQUEST_BYTES={}", metrics.upstream_request_bytes);
    println!(
        "LOCAL_PAYLOAD_REDUCTION_PERCENT={:.2}",
        metrics.reduction_basis_points() as f64 / 100.0
    );
}

#[test]
fn nothing_but_the_four_parts_of_a_request_counts() {
    let plain = codex_request();
    let mut dressed = codex_request();
    dressed.method = plain.method.to_lowercase();
    dressed.path = format!("{}?url=https://elsewhere.example/", plain.path);
    for (name, value) in [
        ("host", "elsewhere.example"),
        ("Host", "elsewhere.example"),
        ("x-forwarded-host", "elsewhere.example"),
        ("proxy-authorization", "Basic FAKE"),
        ("upgrade", "h2c"),
        ("x-upstream-url", "https://elsewhere.example/"),
    ] {
        dressed.headers.insert(name.to_string(), value.to_string());
    }
    let (mut first, mut second) = (FakeUpstream::streaming(), FakeUpstream::streaming());
    let from_plain = handle(&plain, &transform, &mut first);
    let from_dressed = handle(&dressed, &transform, &mut second);
    assert!(from_plain.is_ok());
    assert_eq!(from_plain, from_dressed);
    assert_eq!(first.seen, second.seen);
    assert_eq!(second.seen.len(), 1);
    assert_eq!(second.seen[0].url, upstream_url());
}
