use llmtrim::gateway::{prepare, upstream_url, GatewayError, ProviderKind, GATEWAY_ROUTE};
use llmtrim::listener::BindError;
use llmtrim::socket::{
    accept_next, body_error, collect_headers, pump_next, read_chunk, read_head, refuse, relay_body,
    respond, upstream_head, visible_text, AcceptAction, AcceptEvent, AcceptState, BodyRead,
    HeaderField, PumpAction, PumpEvent, PumpState, ReplyBody, ServeError, ServerLimits, UpstreamHead, DEFAULT_PORT,
    LOCAL_HEADER_TIMEOUT_SECS, MAX_LOCAL_CLIENTS, MAX_REQUEST_BODY_BYTES, RESPONSE_QUEUE_DEPTH,
    RESPONSE_READ_SIZE,
};
use llmtrim::text_map::TextMap;

const FAKE_BEARER: &str = "Bearer SUPER_SECRET_DO_NOT_LEAK";

fn field(name: &str, value: &[u8]) -> HeaderField {
    HeaderField { name: name.to_string(), value: value.to_vec() }
}

fn auth_fields() -> Vec<HeaderField> {
    vec![
        field("Authorization", FAKE_BEARER.as_bytes()),
        field("ChatGPT-Account-ID", b"FAKE_ACCOUNT_DO_NOT_LEAK"),
        field("content-type", b"application/json"),
    ]
}

fn stream_head() -> UpstreamHead {
    let mut headers = TextMap::new();
    headers.insert("content-type".to_string(), "text/event-stream".to_string());
    UpstreamHead { status: 200, headers }
}

// ----- constants and limits -----------------------------------------------------------------

#[test]
fn the_default_port_is_the_documented_one() {
    assert_eq!(DEFAULT_PORT, 43117);
}

#[test]
fn the_response_queue_is_bounded() {
    assert!(RESPONSE_QUEUE_DEPTH > 0);
    assert!(RESPONSE_QUEUE_DEPTH <= 64);
    assert!(MAX_LOCAL_CLIENTS > 0);
    assert!(MAX_LOCAL_CLIENTS <= 1024);
}

#[test]
fn the_default_request_ceiling_is_the_products_own() {
    assert_eq!(MAX_REQUEST_BODY_BYTES, 64 * 1024 * 1024);
    assert_eq!(
        ServerLimits::default().max_request_body_bytes,
        MAX_REQUEST_BODY_BYTES
    );
    assert_eq!(ServerLimits::default().max_connections, MAX_LOCAL_CLIENTS);
}

#[test]
fn the_other_bounds_have_their_values() {
    assert_eq!(MAX_LOCAL_CLIENTS, 32);
    assert_eq!(RESPONSE_QUEUE_DEPTH, 8);
    assert_eq!(RESPONSE_READ_SIZE, 16 * 1024);
    assert_eq!(LOCAL_HEADER_TIMEOUT_SECS, 60);
}

#[test]
fn a_start_up_error_renders_no_credential() {
    let errors = [
        ServeError::Bind(BindError::NotLoopback),
        ServeError::Listen(std::io::Error::other("address in use").to_string()),
    ];
    for error in errors {
        let rendered = format!("{} {error:?}", error.message());
        for sentinel in [
            "SUPER_SECRET_DO_NOT_LEAK",
            "FAKE_ACCOUNT_DO_NOT_LEAK",
            "PRIVATE_PROMPT_DO_NOT_LEAK",
            "Bearer ",
        ] {
            assert!(!rendered.contains(sentinel), "{error:?} leaked {sentinel}");
        }
    }
}

#[test]
fn a_start_up_error_says_what_failed() {
    assert_eq!(
        ServeError::Bind(BindError::NotLoopback).message(),
        "the codex gateway only binds 127.0.0.1"
    );
    assert_eq!(
        ServeError::Listen("address in use".to_string()).message(),
        "could not listen on 127.0.0.1: address in use"
    );
}

// ----- the request head ---------------------------------------------------------------------

#[test]
fn a_value_is_read_where_all_of_it_is_visible() {
    assert_eq!(visible_text(b""), Some(String::new()));
    assert_eq!(visible_text(b"a b\t~"), Some("a b\t~".to_string()));
    for broken in [&b"a\x7f"[..], &b"\x1f"[..], &b"\n"[..], "é".as_bytes()] {
        assert_eq!(visible_text(broken), None);
    }
}

#[test]
fn of_several_fields_of_one_name_the_first_readable_one_counts() {
    let headers = collect_headers(&vec![
        field("Accept", b"\xff"),
        field("ACCEPT", b"first"),
        field("accept", b"second"),
        field("X", b"\x00"),
    ]);
    assert_eq!(headers.len(), 1);
    assert_eq!(headers.get("accept").map(String::as_str), Some("first"));
}

#[test]
fn an_admitted_head_becomes_a_request_that_passes_the_gates_again() {
    let head = read_head(false, false, "POST", GATEWAY_ROUTE, &auth_fields()).expect("admitted");
    assert_eq!(head.method, "POST");
    assert_eq!(head.path, GATEWAY_ROUTE);
    let request = head.with_body(b"{}".to_vec());
    assert_eq!(request.body, b"{}");
    let keep = |text: &str, _: ProviderKind, _: &str| -> Option<String> { Some(text.to_string()) };
    let (outgoing, metrics) = prepare(&request, &keep).expect("prepared");
    assert_eq!(
        outgoing.headers.get("authorization").map(String::as_str),
        Some(FAKE_BEARER)
    );
    assert_eq!(
        outgoing.headers.get("chatgpt-account-id").map(String::as_str),
        Some("FAKE_ACCOUNT_DO_NOT_LEAK")
    );
    assert_eq!(outgoing.body, b"{}");
    assert_eq!((metrics.local_request_bytes, metrics.upstream_request_bytes), (2, 2));
    assert_eq!((metrics.response_chunks, metrics.status), (0, 0));
}

#[test]
fn a_body_over_the_ceiling_or_broken_off_is_never_forwarded() {
    let keep = |text: &str, _: ProviderKind, _: &str| -> Option<String> { Some(text.to_string()) };
    let relay = |read: BodyRead| {
        let head =
            read_head(false, false, "POST", GATEWAY_ROUTE, &auth_fields()).expect("admitted");
        relay_body(head, read, &keep)
    };
    assert_eq!(relay(BodyRead::OverLength).err(), Some(GatewayError::RequestTooLarge));
    assert_eq!(relay(BodyRead::Broken).err(), Some(GatewayError::MalformedRequest));
    assert_eq!(
        relay(BodyRead::Whole(vec![0x80, 0x81, 0xfe, 0xff])).err(),
        Some(GatewayError::CompressionFailed)
    );
    let (outgoing, metrics) = relay(BodyRead::Whole(b"abc".to_vec())).expect("forwarded");
    assert_eq!(outgoing.url, upstream_url());
    assert_eq!(outgoing.body, b"abc");
    assert_eq!(outgoing.headers.len(), 3);
    assert_eq!(metrics.local_request_bytes, 3);
}

#[test]
fn a_refused_head_is_refused_for_its_own_reason() {
    let refusal = |authority: bool, scheme: bool, method: &str, path: &str, fields: Vec<HeaderField>| {
        read_head(authority, scheme, method, path, &fields).err()
    };
    for (authority, scheme) in [(true, false), (false, true), (true, true)] {
        assert_eq!(
            refusal(authority, scheme, "POST", GATEWAY_ROUTE, auth_fields()),
            Some(GatewayError::RouteNotFound)
        );
    }
    for path in ["/v1/responses", "/", "/backend-api/codex/other"] {
        assert_eq!(
            refusal(false, false, "POST", path, auth_fields()),
            Some(GatewayError::RouteNotFound),
            "{path}"
        );
    }
    assert_eq!(
        refusal(false, false, "GET", GATEWAY_ROUTE, auth_fields()),
        Some(GatewayError::MethodNotAllowed)
    );
    assert_eq!(
        refusal(false, false, "POST", GATEWAY_ROUTE, Vec::new()),
        Some(GatewayError::MissingAuthorization)
    );
    for value in ["Token abc", "Bearer ", "SUPER_SECRET_DO_NOT_LEAK"] {
        assert_eq!(
            refusal(
                false,
                false,
                "POST",
                GATEWAY_ROUTE,
                vec![field("authorization", value.as_bytes())]
            ),
            Some(GatewayError::MalformedAuthorization),
            "{value}"
        );
    }
}

#[test]
fn only_an_over_length_body_is_too_large() {
    assert_eq!(body_error(true), GatewayError::RequestTooLarge);
    assert_eq!(body_error(false), GatewayError::MalformedRequest);
    assert_eq!(refuse(&body_error(true)).status, 413);
}

// ----- the answer ---------------------------------------------------------------------------

#[test]
fn a_refusal_carries_a_status_and_nothing_else() {
    for (error, status) in [
        (GatewayError::RouteNotFound, 404),
        (GatewayError::MissingAuthorization, 401),
        (GatewayError::CompressionFailed, 500),
        (GatewayError::UpstreamFailed, 502),
    ] {
        let reply = respond(Err(error));
        assert_eq!(reply, refuse(&error));
        assert_eq!(reply.status, status);
        assert_eq!(reply.headers, TextMap::new());
        assert_eq!(reply.body, ReplyBody::Empty);
    }
}

#[test]
fn an_answer_is_the_upstreams_own() {
    let reply = respond(upstream_head(Some(Ok(stream_head()))));
    assert_eq!(reply.status, 200);
    assert_eq!(reply.headers, stream_head().headers);
    assert_eq!(reply.body, ReplyBody::Streaming);
    assert_eq!(upstream_head(None), Err(GatewayError::UpstreamFailed));
    assert_eq!(
        upstream_head(Some(Err(GatewayError::UpstreamFailed))),
        Err(GatewayError::UpstreamFailed)
    );
}

// ----- the upstream leg ---------------------------------------------------------------------

#[test]
fn chunks_are_queued_in_the_order_they_were_read() {
    let chunks: Vec<Vec<u8>> = vec![b"event: a\n\n".to_vec(), b"b".to_vec(), b"event: c\n\n".to_vec()];
    let (mut state, action) = pump_next(PumpState::Sending, PumpEvent::Replied(Ok(stream_head())));
    assert_eq!(action, PumpAction::DeliverHead(Ok(stream_head())));
    let mut relayed: Vec<Vec<u8>> = Vec::new();
    let mut waiting = chunks.clone().into_iter();
    let mut event = PumpEvent::HeadTaken(true);
    loop {
        let (next, action) = pump_next(state, event);
        state = next;
        event = match action {
            PumpAction::Read => PumpEvent::Received(waiting.next().unwrap_or_default()),
            PumpAction::Queue(chunk) => {
                relayed.push(chunk);
                PumpEvent::Queued(true)
            }
            other => {
                assert_eq!(other, PumpAction::Stop);
                break;
            }
        };
    }
    assert_eq!(state, PumpState::Done);
    assert_eq!(relayed, chunks);
}

#[test]
fn the_leg_ends_where_either_side_does() {
    assert_eq!(
        pump_next(PumpState::Sending, PumpEvent::Replied(Err(GatewayError::UpstreamFailed))),
        (PumpState::Done, PumpAction::DeliverHead(Err(GatewayError::UpstreamFailed)))
    );
    assert_eq!(
        pump_next(PumpState::Opening, PumpEvent::HeadTaken(false)),
        (PumpState::Done, PumpAction::Stop)
    );
    assert_eq!(
        pump_next(PumpState::Reading, PumpEvent::ReadFailed),
        (PumpState::Done, PumpAction::QueueFailure)
    );
    assert_eq!(
        pump_next(PumpState::Queuing, PumpEvent::Queued(false)),
        (PumpState::Done, PumpAction::Stop)
    );
    assert_eq!(
        pump_next(PumpState::Done, PumpEvent::Received(b"x".to_vec())),
        (PumpState::Done, PumpAction::Stop)
    );
}

#[test]
fn a_chunk_is_what_was_read_and_no_more() {
    assert_eq!(read_chunk(b"abcdef", 4), b"abcd");
    assert_eq!(read_chunk(b"abcdef", 0), b"");
    assert_eq!(read_chunk(b"abcdef", 6), b"abcdef");
}

// ----- accepting connections ----------------------------------------------------------------

#[test]
fn a_permit_is_taken_before_each_connection() {
    assert_eq!(
        accept_next(AcceptState::Acquiring, AcceptEvent::PermitGranted),
        (AcceptState::Listening, AcceptAction::AwaitConnection)
    );
    assert_eq!(
        accept_next(AcceptState::Listening, AcceptEvent::Accepted),
        (AcceptState::Acquiring, AcceptAction::Serve)
    );
    assert_eq!(
        accept_next(AcceptState::Listening, AcceptEvent::AcceptFailed),
        (AcceptState::Acquiring, AcceptAction::ReturnPermit)
    );
    assert_eq!(
        accept_next(AcceptState::Listening, AcceptEvent::StopRequested),
        (AcceptState::Closed, AcceptAction::Close)
    );
    assert_eq!(
        accept_next(AcceptState::Acquiring, AcceptEvent::PermitsClosed),
        (AcceptState::Closed, AcceptAction::Close)
    );
    assert_eq!(
        accept_next(AcceptState::Closed, AcceptEvent::Accepted),
        (AcceptState::Closed, AcceptAction::Close)
    );
}

/// Runs the accept loop against `limit` permits: a permit is granted wherever one is free, and
/// the bytes of `script` say what else happens. `a` is a client that comes, `f` an accept that
/// fails and `e` a connection that ends. The result is the greatest number served at once, the
/// number served at the end, how many clients came while the loop did not listen, and its state.
fn run_accepting(limit: usize, script: &[u8]) -> (usize, usize, usize, AcceptState) {
    let mut state = AcceptState::Acquiring;
    let (mut out, mut serving, mut most, mut waiting) = (0usize, 0usize, 0usize, 0usize);
    for happening in script {
        if state == AcceptState::Acquiring && out < limit {
            let (next, action) = accept_next(state, AcceptEvent::PermitGranted);
            assert_eq!(action, AcceptAction::AwaitConnection);
            out += 1;
            state = next;
        }
        let event = match happening {
            b'a' => AcceptEvent::Accepted,
            b'f' => AcceptEvent::AcceptFailed,
            _ => {
                serving -= 1;
                out -= 1;
                continue;
            }
        };
        if state != AcceptState::Listening {
            waiting += 1;
            continue;
        }
        assert!(serving < limit, "a loop that listens has a place");
        let (next, action) = accept_next(state, event);
        state = next;
        match action {
            AcceptAction::Serve => serving += 1,
            AcceptAction::ReturnPermit => out -= 1,
            other => panic!("{other:?}"),
        }
        most = most.max(serving);
    }
    (most, serving, waiting, state)
}

#[test]
fn no_more_connections_are_served_than_there_are_permits() {
    assert_eq!(run_accepting(2, b"aaaa"), (2, 2, 2, AcceptState::Acquiring));
    assert_eq!(run_accepting(2, b"aaaea"), (2, 2, 1, AcceptState::Acquiring));
    assert_eq!(run_accepting(1, b"aeaeae").0, 1);
    assert_eq!(run_accepting(0, b"aa"), (0, 0, 2, AcceptState::Acquiring));
}

#[test]
fn failed_accepts_use_up_no_place() {
    assert_eq!(run_accepting(2, b"fffffaa"), (2, 2, 0, AcceptState::Acquiring));
    assert_eq!(run_accepting(1, b"fffa"), (1, 1, 0, AcceptState::Acquiring));
}

#[test]
fn a_stop_is_heeded_in_every_state() {
    for state in [AcceptState::Acquiring, AcceptState::Listening, AcceptState::Closed] {
        assert_eq!(
            accept_next(state, AcceptEvent::StopRequested),
            (AcceptState::Closed, AcceptAction::Close)
        );
    }
}
