//! What the gateway promises, said of the requests, headers, bytes and events themselves: of what a
//! target, a credential or an answer is made of, whatever its length and whatever surrounds it.
use vstd::prelude::*;
use vstd::utf8::{
    decode_utf8_encode_utf8, encode_utf8, encode_utf8_decode_utf8, is_ascii_chars,
    is_ascii_chars_encode_utf8, valid_utf8,
};

use crate::gateway::{
    auth_verdict, bearer_token, destination, forwarded, forwarded_once, gate_verdict, handled,
    is_outgoing, last_spelling, lemma_last_spelling_unique, listed, message_of, prepared,
    reduction, relayed, request_metrics, route_verdict, sealed, settlement, spelled, status_of,
    transformed, GatewayError, GatewayMetrics, GatewayRequest, GatewayUpstream, ProviderKind,
    UpstreamRequest, UpstreamResponse, FORWARDED_HEADERS, GATEWAY_METHOD, GATEWAY_PRESET,
    GATEWAY_ROUTE, UPSTREAM_ORIGIN,
};
use crate::laws::{
    first_of_its_name, law_credentials_are_relayed_verbatim, law_first_value_counts,
    law_lists_are_disjoint,
};
use crate::listener::{may_bind, Host, BIND_HOST};
use crate::socket::{
    accept_state, accept_step, collected, head_verdict, pump_state, pump_step, queued, readable,
    text_of, times, whole_answer, AcceptAction, AcceptEvent, AcceptState, HeaderField, PumpAction,
    PumpEvent, PumpState, UpstreamHead, DEFAULT_PORT, LOCAL_HEADER_TIMEOUT_SECS, MAX_LOCAL_CLIENTS,
    MAX_REQUEST_BODY_BYTES, RESPONSE_QUEUE_DEPTH, RESPONSE_READ_SIZE,
};
use crate::text::{
    before, is_blank, is_white_space, law_before, law_lower_compares_letters, lemma_find,
    lemma_precedes_total, lemma_precedes_transitive, lemma_trim_empty, lower, precedes,
    same_letters, starts_with, trim,
};
use crate::upstream::{
    relayed_back, BODY_TIMEOUT_SECS, HANDSHAKE_TIMEOUT_SECS, MAX_REDIRECTS,
    RELAYED_RESPONSE_HEADERS, RESPONSE_TIMEOUT_SECS,
};

verus! {

// ----- the route ----------------------------------------------------------------------------

/// Whether a target is the one route, alone or with a query behind it.
pub open spec fn is_route(path: Seq<char>) -> bool {
    ||| path == "/backend-api/codex/responses"@
    ||| exists|query: Seq<char>|
        path == #[trigger] ("/backend-api/codex/responses"@ + seq!['?'] + query)
}

/// The route check passes exactly where the target is the one route, with whatever query of
/// whatever length, and the method is `POST` in whatever case. A wrong target is reported before
/// a wrong method.
pub proof fn law_route(method: Seq<char>, path: Seq<char>)
    ensures
        route_verdict(method, path) == Ok::<(), GatewayError>(()) <==> is_route(path)
            && same_letters(method, "POST"@),
        route_verdict(method, path) == Err::<(), GatewayError>(GatewayError::RouteNotFound)
            <==> !is_route(path),
        route_verdict(method, path) == Err::<(), GatewayError>(GatewayError::MethodNotAllowed)
            <==> is_route(path) && !same_letters(method, "POST"@),
{
    reveal_strlit("/backend-api/codex/responses");
    let route = "/backend-api/codex/responses"@;
    law_lower_compares_letters(method, GATEWAY_METHOD@);
    assert(!route.contains('?'));
    assert(before(path, '?') == route <==> is_route(path)) by {
        lemma_find(path, '?');
        if before(path, '?') == route {
            if path.len() > route.len() {
                assert(path[route.len() as int] == '?');
                assert(path =~= route + seq!['?'] + path.skip(route.len() as int + 1));
            } else {
                assert(path =~= route);
            }
        }
        if path == route {
            law_before(route, '?', Seq::empty());
        } else if is_route(path) {
            let query = choose|query: Seq<char>| path == #[trigger] (route + seq!['?'] + query);
            law_before(route, '?', query);
        }
    }
}

// ----- the credentials ----------------------------------------------------------------------

/// Whether a value is the word `Bearer`, with a capital or all small, one space, and a token that is
/// not blank.
pub open spec fn is_bearer(value: Seq<char>) -> bool {
    exists|token: Seq<char>| #[trigger]
        is_token_of(value, token) && !is_blank(token)
}

/// Whether `token` is what follows the word in a value.
pub open spec fn is_token_of(value: Seq<char>, token: Seq<char>) -> bool {
    value == "Bearer "@ + token || value == "bearer "@ + token
}

proof fn lemma_bearer_token(value: Seq<char>)
    ensures
        forall|token: Seq<char>| #[trigger]
            is_token_of(value, token) <==> bearer_token(value) == Some(token),
{
    reveal_strlit("Bearer ");
    reveal_strlit("bearer ");
    let capital = "Bearer "@;
    let small = "bearer "@;
    assert(capital[0] != small[0]);
    assert(capital.len() == 7 && small.len() == 7);
    assert forall|token: Seq<char>| #[trigger]
        is_token_of(value, token) <==> bearer_token(value) == Some(token) by {
        if value == capital + token {
            assert(value.take(7) =~= capital);
            assert(value.skip(7) =~= token);
        } else if value == small + token {
            assert(value.take(7) =~= small);
            assert(value.skip(7) =~= token);
            assert(value.take(7)[0] != capital[0]);
        }
        if bearer_token(value) == Some(token) {
            if starts_with(value, capital) {
                assert(value =~= capital + value.skip(7));
            } else {
                assert(value =~= small + value.skip(7));
            }
        }
    }
}

/// The credential check goes by the shape of one header: it passes exactly where there is an
/// `authorization` that is a bearer, of whatever length and content. It reports one that is
/// missing, and one that is of another shape.
pub proof fn law_credentials(headers: Map<Seq<char>, Seq<char>>)
    ensures
        auth_verdict(headers) == Ok::<(), GatewayError>(()) <==> headers.contains_key(
            "authorization"@,
        ) && is_bearer(headers["authorization"@]),
        auth_verdict(headers) == Err::<(), GatewayError>(GatewayError::MissingAuthorization)
            <==> !headers.contains_key("authorization"@),
        auth_verdict(headers) == Err::<(), GatewayError>(GatewayError::MalformedAuthorization)
            <==> headers.contains_key("authorization"@) && !is_bearer(headers["authorization"@]),
{
    let value = headers["authorization"@];
    lemma_bearer_token(value);
    match bearer_token(value) {
        Some(token) => {
            lemma_trim_empty(token);
            assert(is_token_of(value, token));
            if is_blank(token) {
                assert(trim(token).len() == 0);
            } else {
                let i = choose|i: int|
                    0 <= i < token.len() && !is_white_space(#[trigger] token[i]);
                assert(trim(token).len() > 0);
            }
        },
        None => {},
    }
}

/// Any token with a visible character in it passes, however long it is.
pub proof fn law_any_token_passes(
    headers: Map<Seq<char>, Seq<char>>,
    token: Seq<char>,
    at: int,
)
    requires
        0 <= at < token.len(),
        '!' <= token[at] <= '~',
        headers.contains_key("authorization"@),
        headers["authorization"@] == "Bearer "@ + token || headers["authorization"@] == "bearer "@
            + token,
    ensures
        auth_verdict(headers) == Ok::<(), GatewayError>(()),
{
    law_credentials(headers);
    assert(!is_white_space(token[at]));
    assert(is_token_of(headers["authorization"@], token));
    assert(is_bearer(headers["authorization"@]));
}

/// A request is let in exactly where its target is the route, its method is `POST` and its
/// credentials are a bearer, whatever else it carries; and the route is looked at first.
pub proof fn law_gates(method: Seq<char>, path: Seq<char>, headers: Map<Seq<char>, Seq<char>>)
    ensures
        gate_verdict(method, path, headers) == Ok::<(), GatewayError>(()) <==> {
            &&& is_route(path)
            &&& same_letters(method, "POST"@)
            &&& headers.contains_key("authorization"@)
            &&& is_bearer(headers["authorization"@])
        },
        !is_route(path) ==> gate_verdict(method, path, headers) == Err::<(), GatewayError>(
            GatewayError::RouteNotFound,
        ),
        is_route(path) && !same_letters(method, "POST"@) ==> gate_verdict(method, path, headers)
            == Err::<(), GatewayError>(GatewayError::MethodNotAllowed),
        is_route(path) && same_letters(method, "POST"@) ==> gate_verdict(method, path, headers)
            == auth_verdict(headers),
{
    law_route(method, path);
    law_credentials(headers);
}

/// A request head is judged by the same rules, of the headers that its fields stand for; one whose
/// target names a scheme or an authority is not the route, whatever else it is.
pub proof fn law_request_head(
    has_authority: bool,
    has_scheme: bool,
    method: Seq<char>,
    path: Seq<char>,
    fields: Seq<HeaderField>,
)
    ensures
        has_authority || has_scheme ==> head_verdict(
            has_authority,
            has_scheme,
            method,
            path,
            fields,
        ) == Err::<(), GatewayError>(GatewayError::RouteNotFound),
        !has_authority && !has_scheme ==> head_verdict(
            has_authority,
            has_scheme,
            method,
            path,
            fields,
        ) == gate_verdict(method, path, collected(fields)),
{
}

// ----- the headers --------------------------------------------------------------------------

/// Whether a name is one of the five that are relayed.
pub open spec fn is_relayed_name(name: Seq<char>) -> bool {
    ||| name == "authorization"@
    ||| name == "chatgpt-account-id"@
    ||| name == "content-type"@
    ||| name == "accept"@
    ||| name == "originator"@
}

proof fn lemma_relayed_name(name: Seq<char>)
    ensures
        relayed(name) <==> is_relayed_name(name),
        is_relayed_name(name) ==> lower(name) == name,
{
    reveal_strlit("authorization");
    reveal_strlit("chatgpt-account-id");
    reveal_strlit("content-type");
    reveal_strlit("accept");
    reveal_strlit("originator");
    let list = FORWARDED_HEADERS@;
    assert(list[0]@ == "authorization"@);
    assert(list[1]@ == "chatgpt-account-id"@);
    assert(list[2]@ == "content-type"@);
    assert(list[3]@ == "accept"@);
    assert(list[4]@ == "originator"@);
    if listed(list, name) {
        law_lists_are_disjoint(name);
        let i = choose|i: int| 0 <= i < list.len() && (#[trigger] list[i])@ == name;
        assert(i == 0 || i == 1 || i == 2 || i == 3 || i == 4);
    }
    if is_relayed_name(name) {
        assert(listed(list, name));
        law_lists_are_disjoint(name);
        assert(lower(name) =~= name);
    }
}

proof fn lemma_last_of(names: Set<Seq<char>>, some: Seq<char>) -> (last: Seq<char>)
    requires
        names.finite(),
        names.contains(some),
    ensures
        names.contains(last),
        forall|other: Seq<char>| #[trigger]
            names.contains(other) ==> other == last || precedes(other, last),
    decreases names.len(),
{
    let rest = names.remove(some);
    if rest.len() == 0 {
        assert forall|other: Seq<char>| #[trigger] names.contains(other) implies other == some by {
            if other != some {
                assert(rest.contains(other));
            }
        }
        some
    } else {
        let next = rest.choose();
        let last = lemma_last_of(rest, next);
        if precedes(last, some) {
            assert forall|other: Seq<char>| #[trigger] names.contains(other) implies other == some
                || precedes(other, some) by {
                if other != some {
                    assert(rest.contains(other));
                    if other != last {
                        lemma_precedes_transitive(other, last, some);
                    }
                }
            }
            some
        } else {
            lemma_precedes_total(last, some);
            assert forall|other: Seq<char>| #[trigger] names.contains(other) implies other == last
                || precedes(other, last) by {
                if other != some {
                    assert(rest.contains(other));
                }
            }
            last
        }
    }
}

proof fn lemma_some_spelling_is_last(
    headers: Map<Seq<char>, Seq<char>>,
    name: Seq<char>,
    some: Seq<char>,
)
    requires
        headers.dom().finite(),
        spelled(headers, name, some),
    ensures
        exists|s: Seq<char>| last_spelling(headers, name, s),
{
    let names = headers.dom().filter(|s: Seq<char>| lower(s) == name);
    assert(names.contains(some));
    let last = lemma_last_of(names, some);
    assert forall|other: Seq<char>| #[trigger] spelled(headers, name, other) implies other == last
        || precedes(other, last) by {
        assert(names.contains(other));
    }
    assert(spelled(headers, name, last));
    assert(last_spelling(headers, name, last));
}

/// Of the headers of a request exactly these five go upstream, under their names in lowercase, and
/// each with the whole of the value it came with, whatever it is. Where a name comes in several
/// spellings the last of them in byte order counts.
pub proof fn law_relayed_headers(
    headers: Map<Seq<char>, Seq<char>>,
    name: Seq<char>,
    spelling: Seq<char>,
)
    requires
        headers.dom().finite(),
    ensures
        forwarded(headers).contains_key(name) <==> is_relayed_name(name) && exists|s: Seq<char>|
            #[trigger] headers.contains_key(s) && same_letters(s, name),
        is_relayed_name(name) && headers.contains_key(spelling) && same_letters(spelling, name) && (
        forall|other: Seq<char>| #[trigger]
            headers.contains_key(other) && same_letters(other, name) ==> other == spelling
                || precedes(other, spelling)) ==> forwarded(headers)[name] == headers[spelling],
{
    lemma_relayed_name(name);
    if is_relayed_name(name) {
        assert forall|s: Seq<char>| #[trigger] spelled(headers, name, s) <==> headers.contains_key(s)
            && same_letters(s, name) by {
            law_lower_compares_letters(s, name);
        }
        if headers.contains_key(spelling) && same_letters(spelling, name) && (forall|
            other: Seq<char>,
        | #[trigger]
            headers.contains_key(other) && same_letters(other, name) ==> other == spelling
                || precedes(other, spelling)) {
            assert(spelled(headers, name, spelling));
            assert(last_spelling(headers, name, spelling));
            let chosen = choose|s: Seq<char>| last_spelling(headers, name, s);
            lemma_last_spelling_unique(headers, name, chosen, spelling);
        }
        if exists|s: Seq<char>| #[trigger] headers.contains_key(s) && same_letters(s, name) {
            let s = choose|s: Seq<char>| #[trigger]
                headers.contains_key(s) && same_letters(s, name);
            assert(spelled(headers, name, s));
            lemma_some_spelling_is_last(headers, name, s);
        }
        if forwarded(headers).contains_key(name) {
            let s = choose|s: Seq<char>| last_spelling(headers, name, s);
            assert(spelled(headers, name, s));
        }
    }
}

/// A header value is read exactly where all of its bytes are visible ASCII, spaces and tabs; it is
/// then read whole, byte for byte, however long it is.
pub proof fn law_header_value(value: Seq<u8>)
    ensures
        readable(value) <==> forall|i: int|
            0 <= i < value.len() ==> 0x20 <= #[trigger] value[i] <= 0x7e || value[i] == 9,
        text_of(value).len() == value.len(),
        readable(value) ==> forall|i: int|
            0 <= i < value.len() ==> (#[trigger] text_of(value)[i]) as u8 == value[i],
        readable(value) ==> encode_utf8(text_of(value)) == value,
{
    if readable(value) {
        let text = text_of(value);
        assert forall|i: int| 0 <= i < value.len() implies '\0' <= (#[trigger] text[i]) <= '\u{7f}'
            && text[i] as u8 == value[i] by {
            assert(value[i] <= 0x7e);
        }
        assert(is_ascii_chars(text));
        is_ascii_chars_encode_utf8(text);
        assert forall|i: int| 0 <= i < value.len() implies encode_utf8(text)[i] == value[i] by {
            assert(text[i] as u8 == encode_utf8(text)[i]);
        }
        assert(encode_utf8(text) =~= value);
    }
}

/// What a client sends as one of the relayed headers goes upstream byte for byte, however long it
/// is: the bytes that encode the relayed value are those of the first readable field of its name.
pub proof fn law_credentials_are_relayed_byte_for_byte(
    fields: Seq<HeaderField>,
    at: int,
    name: Seq<char>,
)
    requires
        first_of_its_name(fields, at),
        is_relayed_name(name),
        same_letters(fields[at].name@, name),
    ensures
        forwarded(collected(fields)).contains_key(name),
        encode_utf8(forwarded(collected(fields))[name]) == fields[at].value@,
        collected(fields).contains_key(name),
        encode_utf8(collected(fields)[name]) == fields[at].value@,
{
    lemma_relayed_name(name);
    law_lower_compares_letters(fields[at].name@, name);
    law_credentials_are_relayed_verbatim(fields, at);
    law_first_value_counts(fields);
    law_header_value(fields[at].value@);
}

/// Of the headers of an answer exactly the `content-type` comes back, with the value it came with.
pub proof fn law_relayed_back(headers: Map<Seq<char>, Seq<char>>, name: Seq<char>)
    ensures
        relayed_back(headers).contains_key(name) <==> name == "content-type"@
            && headers.contains_key(name),
        headers.contains_key("content-type"@) ==> relayed_back(headers)["content-type"@]
            == headers["content-type"@],
{
    let list = RELAYED_RESPONSE_HEADERS@;
    assert(list[0]@ == "content-type"@);
    assert(listed(list, "content-type"@));
    if listed(list, name) {
        let i = choose|i: int| 0 <= i < list.len() && (#[trigger] list[i])@ == name;
        assert(i == 0);
    }
}

// ----- the body and the destination ---------------------------------------------------------

/// There is one destination.
pub proof fn law_the_destination()
    ensures
        destination() == "https://chatgpt.com/backend-api/codex/responses"@,
{
    reveal_strlit("https://chatgpt.com/backend-api/codex/responses");
    reveal_strlit("https://chatgpt.com");
    reveal_strlit("/backend-api/codex/responses");
    assert(destination() =~= "https://chatgpt.com/backend-api/codex/responses"@);
}

/// The transform is given the whole body, as the text that its bytes encode, and the pinned
/// profile, and what it gives is the outcome.
pub proof fn law_transform_is_given_the_body<F: Fn(&str, ProviderKind, &str) -> Option<String>>(
    transform: F,
    body: Seq<u8>,
    outcome: Option<String>,
)
    requires
        valid_utf8(body),
    ensures
        transformed(transform, body, outcome) <==> exists|text: &str, preset: &str|
            encode_utf8(text@) == body && preset@ == "safe"@ && #[trigger] call_ensures(
                transform,
                (text, ProviderKind::OpenAi, preset),
                outcome,
            ),
{
    decode_utf8_encode_utf8(body);
    if exists|text: &str, preset: &str|
        encode_utf8(text@) == body && preset@ == "safe"@ && #[trigger] call_ensures(
            transform,
            (text, ProviderKind::OpenAi, preset),
            outcome,
        ) {
        let (text, preset) = choose|text: &str, preset: &str|
            encode_utf8(text@) == body && preset@ == "safe"@ && #[trigger] call_ensures(
                transform,
                (text, ProviderKind::OpenAi, preset),
                outcome,
            );
        encode_utf8_decode_utf8(text@);
    }
}

/// What is sent is all of what the transform gave, however long, and nothing is where it gave none.
pub proof fn law_sealed(outcome: Option<String>, result: Result<Vec<u8>, GatewayError>)
    ensures
        outcome matches Some(text) ==> (sealed(outcome, result) <==> result is Ok
            && result->Ok_0@ == encode_utf8(text@)),
        outcome is None ==> (sealed(outcome, result) <==> result == Err::<Vec<u8>, GatewayError>(
            GatewayError::CompressionFailed,
        )),
{
}

/// Whether `outgoing` goes to the one destination, with the relayed headers of `request` and with
/// `text` for its body.
pub open spec fn carries(
    outgoing: UpstreamRequest,
    request: GatewayRequest,
    text: Seq<char>,
) -> bool {
    &&& outgoing.url@ == "https://chatgpt.com/backend-api/codex/responses"@
    &&& outgoing.headers@ == forwarded(request.headers@)
    &&& outgoing.body@ == encode_utf8(text)
}

/// What is sent for a request, and the counts that go with it.
pub proof fn law_outgoing(
    request: GatewayRequest,
    text: Seq<char>,
    outgoing: UpstreamRequest,
)
    ensures
        is_outgoing(request, text, outgoing) <==> carries(outgoing, request, text),
        request.body@.len() <= u64::MAX ==> request_metrics(request, text).local_request_bytes
            == request.body@.len(),
        encode_utf8(text).len() <= u64::MAX ==> request_metrics(request, text).upstream_request_bytes
            == encode_utf8(text).len(),
        request_metrics(request, text).response_chunks == 0,
        request_metrics(request, text).status == 0,
{
    law_the_destination();
}

/// A request that the gates refuse is refused with their word, one whose body is not text cannot be
/// compressed, and any other is prepared as the transform has it: refused where it gave nothing,
/// and otherwise sent with what it gave, whatever that is.
pub proof fn law_prepared<F: Fn(&str, ProviderKind, &str) -> Option<String>>(
    request: GatewayRequest,
    transform: F,
    result: Result<(UpstreamRequest, GatewayMetrics), GatewayError>,
)
    requires
        prepared(request, transform, result),
    ensures
        gate_verdict(request.method@, request.path@, request.headers@) matches Err(error) ==> result
            == Err::<(UpstreamRequest, GatewayMetrics), GatewayError>(error),
        gate_verdict(request.method@, request.path@, request.headers@) is Ok && !valid_utf8(
            request.body@,
        ) ==> result == Err::<(UpstreamRequest, GatewayMetrics), GatewayError>(
            GatewayError::CompressionFailed,
        ),
        gate_verdict(request.method@, request.path@, request.headers@) is Ok && valid_utf8(
            request.body@,
        ) ==> exists|outcome: Option<String>| #[trigger]
            transformed(transform, request.body@, outcome) && match outcome {
                None => result == Err::<(UpstreamRequest, GatewayMetrics), GatewayError>(
                    GatewayError::CompressionFailed,
                ),
                Some(text) => result is Ok && carries(result->Ok_0.0, request, text@)
                    && result->Ok_0.1.local_request_bytes == request.body@.len() as u64
                    && result->Ok_0.1.upstream_request_bytes == result->Ok_0.0.body@.len() as u64,
            },
{
    law_the_destination();
}

/// An exchange comes to what its reply is: an error as it is, or the whole answer untouched,
/// whatever its status, with the request's own counts, its status and the number of its chunks.
pub proof fn law_settlement(
    reply: Result<UpstreamResponse, GatewayError>,
    metrics: GatewayMetrics,
)
    ensures
        reply matches Err(error) ==> settlement(reply, metrics) == Err::<
            (UpstreamResponse, GatewayMetrics),
            GatewayError,
        >(error),
        reply matches Ok(response) ==> {
            &&& settlement(reply, metrics) is Ok
            &&& settlement(reply, metrics)->Ok_0.0 == response
            &&& settlement(reply, metrics)->Ok_0.1.status == response.status
            &&& settlement(reply, metrics)->Ok_0.1.local_request_bytes
                == metrics.local_request_bytes
            &&& settlement(reply, metrics)->Ok_0.1.upstream_request_bytes
                == metrics.upstream_request_bytes
            &&& response.chunks@.len() <= u64::MAX ==> settlement(
                reply,
                metrics,
            )->Ok_0.1.response_chunks == response.chunks@.len()
        },
{
}

/// A refused request leaves the upstream as it was. Any other is sent once, to the one destination,
/// and what the upstream replied is what comes back.
pub proof fn law_handled<U: GatewayUpstream, F: Fn(&str, ProviderKind, &str) -> Option<String>>(
    upstream: U,
    request: GatewayRequest,
    transform: F,
    after: U,
    result: Result<(UpstreamResponse, GatewayMetrics), GatewayError>,
)
    requires
        handled(upstream, request, transform, after, result),
    ensures
        gate_verdict(request.method@, request.path@, request.headers@) matches Err(error) ==> result
            == Err::<(UpstreamResponse, GatewayMetrics), GatewayError>(error) && after == upstream,
        gate_verdict(request.method@, request.path@, request.headers@) is Ok && !valid_utf8(
            request.body@,
        ) ==> result == Err::<(UpstreamResponse, GatewayMetrics), GatewayError>(
            GatewayError::CompressionFailed,
        ) && after == upstream,
        gate_verdict(request.method@, request.path@, request.headers@) is Ok && valid_utf8(
            request.body@,
        ) ==> exists|outcome: Option<String>| #[trigger]
            transformed(transform, request.body@, outcome) && match outcome {
                None => result == Err::<(UpstreamResponse, GatewayMetrics), GatewayError>(
                    GatewayError::CompressionFailed,
                ) && after == upstream,
                Some(text) => exists|
                    outgoing: UpstreamRequest,
                    reply: Result<UpstreamResponse, GatewayError>,
                | #[trigger]
                    U::exchanged(upstream, outgoing, after, reply) && carries(
                        outgoing,
                        request,
                        text@,
                    ) && (match reply {
                        Err(error) => result == Err::<
                            (UpstreamResponse, GatewayMetrics),
                            GatewayError,
                        >(error),
                        Ok(response) => result is Ok && result->Ok_0.0 == response
                            && result->Ok_0.1.status == response.status
                            && result->Ok_0.1.local_request_bytes == request.body@.len() as u64
                            && result->Ok_0.1.upstream_request_bytes == outgoing.body@.len() as u64
                            && result->Ok_0.1.response_chunks == response.chunks@.len() as u64,
                    }),
            },
{
    law_the_destination();
    if gate_verdict(request.method@, request.path@, request.headers@) is Ok && valid_utf8(
        request.body@,
    ) {
        let outcome = choose|outcome: Option<String>| #[trigger]
            transformed(transform, request.body@, outcome) && match outcome {
                None => result == Err::<(UpstreamResponse, GatewayMetrics), GatewayError>(
                    GatewayError::CompressionFailed,
                ) && after == upstream,
                Some(text) => forwarded_once(upstream, request, text@, after, result),
            };
        if let Some(text) = outcome {
            let (outgoing, reply) = choose|
                outgoing: UpstreamRequest,
                reply: Result<UpstreamResponse, GatewayError>,
            |
                is_outgoing(request, text@, outgoing) && #[trigger] U::exchanged(
                    upstream,
                    outgoing,
                    after,
                    reply,
                ) && result == settlement(reply, request_metrics(request, text@));
            assert(carries(outgoing, request, text@));
        }
    }
}

// ----- the counts ---------------------------------------------------------------------------

/// The reduction is the share that was saved, or added, in hundredths of a percent, cut off and
/// never rounded up: for every size, however large.
pub proof fn law_reduction_is_the_share(local: int, sent: int)
    requires
        local > 0,
        sent >= 0,
    ensures
        sent <= local ==> {
            &&& reduction(local, sent) * local <= (local - sent) * 10_000
            &&& (local - sent) * 10_000 < (reduction(local, sent) + 1) * local
        },
        sent > local ==> {
            &&& -reduction(local, sent) * local <= (sent - local) * 10_000
            &&& (sent - local) * 10_000 < (-reduction(local, sent) + 1) * local
        },
        reduction(0, sent) == 0,
{
    let part = if sent <= local {
        (local - sent) * 10_000
    } else {
        (sent - local) * 10_000
    };
    assert(part / local * local <= part && part < (part / local + 1) * local) by (nonlinear_arith)
        requires
            local > 0,
    ;
}

/// Each error is answered with its own status, and described in its own words.
pub proof fn law_statuses(error: GatewayError)
    ensures
        status_of(error) == 401 <==> error == GatewayError::MissingAuthorization || error
            == GatewayError::MalformedAuthorization,
        status_of(error) == 404 <==> error == GatewayError::RouteNotFound,
        status_of(error) == 405 <==> error == GatewayError::MethodNotAllowed,
        status_of(error) == 413 <==> error == GatewayError::RequestTooLarge,
        status_of(error) == 400 <==> error == GatewayError::MalformedRequest,
        status_of(error) == 500 <==> error == GatewayError::CompressionFailed,
        status_of(error) == 502 <==> error == GatewayError::UpstreamFailed,
        message_of(GatewayError::MethodNotAllowed) == "method not allowed"@,
        message_of(GatewayError::RouteNotFound) == "route not served by the codex gateway"@,
        message_of(GatewayError::MissingAuthorization)
            == "request carried no authorization header"@,
        message_of(GatewayError::MalformedAuthorization)
            == "authorization header was not a bearer token"@,
        message_of(GatewayError::RequestTooLarge) == "request body exceeded the gateway's ceiling"@,
        message_of(GatewayError::MalformedRequest) == "request could not be read"@,
        message_of(GatewayError::CompressionFailed)
            == "compression failed; refusing to forward uncompressed"@,
        message_of(GatewayError::UpstreamFailed) == "upstream request failed"@,
{
}

// ----- the upstream leg ---------------------------------------------------------------------

/// The head that the client is handed is the one that the upstream replied with, whatever its
/// status and headers, or the error in its place; and only after an answer does the leg go on.
pub proof fn law_head_is_the_upstreams(reply: Result<UpstreamHead, GatewayError>)
    ensures
        pump_step(PumpState::Sending, PumpEvent::Replied(reply)).1 == PumpAction::DeliverHead(reply),
        reply is Ok ==> pump_step(PumpState::Sending, PumpEvent::Replied(reply)).0
            == PumpState::Opening,
        reply is Err ==> pump_step(PumpState::Sending, PumpEvent::Replied(reply)).0
            == PumpState::Done,
{
}

/// In every run a head that is delivered is one that the upstream replied with in that very event.
pub proof fn law_delivered_head_was_replied(
    state: PumpState,
    event: PumpEvent,
    head: Result<UpstreamHead, GatewayError>,
)
    requires
        pump_step(state, event).1 == PumpAction::DeliverHead(head),
    ensures
        event == PumpEvent::Replied(head),
        state == PumpState::Sending,
{
}

/// A chunk is queued as it was received, whatever its length, and a read follows each chunk that was
/// taken, until the body ends or a read fails. A failure is passed on. Once the client is gone, or
/// the leg has ended, nothing more is done.
pub proof fn law_chunks_are_passed_on(bytes: Vec<u8>, event: PumpEvent)
    ensures
        bytes@.len() > 0 ==> pump_step(PumpState::Reading, PumpEvent::Received(bytes)) == (
            PumpState::Queuing,
            PumpAction::Queue(bytes),
        ),
        bytes@.len() == 0 ==> pump_step(PumpState::Reading, PumpEvent::Received(bytes)) == (
            PumpState::Done,
            PumpAction::Stop,
        ),
        pump_step(PumpState::Reading, PumpEvent::ReadFailed) == (
            PumpState::Done,
            PumpAction::QueueFailure,
        ),
        pump_step(PumpState::Opening, PumpEvent::HeadTaken(true)) == (
            PumpState::Reading,
            PumpAction::Read,
        ),
        pump_step(PumpState::Queuing, PumpEvent::Queued(true)) == (
            PumpState::Reading,
            PumpAction::Read,
        ),
        pump_step(PumpState::Opening, PumpEvent::HeadTaken(false)) == (
            PumpState::Done,
            PumpAction::Stop,
        ),
        pump_step(PumpState::Queuing, PumpEvent::Queued(false)) == (
            PumpState::Done,
            PumpAction::Stop,
        ),
        pump_step(PumpState::Done, event) == (PumpState::Done, PumpAction::Stop),
{
}

/// An event that does not fit where the leg stands ends it, and nothing is delivered or queued.
pub proof fn law_unfitting_events_end_the_leg(state: PumpState, event: PumpEvent)
    requires
        state == PumpState::Sending ==> event !is Replied,
        state == PumpState::Opening ==> event !is HeadTaken,
        state == PumpState::Reading ==> event !is Received && event !is ReadFailed,
        state == PumpState::Queuing ==> event !is Queued,
    ensures
        pump_step(state, event) == (PumpState::Done, PumpAction::Stop),
{
}

/// After an answer that arrived whole the end of the body ends the leg, with all of it queued; and a
/// read that fails there is passed on, with all that came before it queued.
pub proof fn law_end_of_the_answer(head: UpstreamHead, chunks: Seq<Vec<u8>>, end: Vec<u8>)
    requires
        forall|i: int| 0 <= i < chunks.len() ==> (#[trigger] chunks[i])@.len() > 0,
        end@.len() == 0,
    ensures
        pump_step(
            pump_state(PumpState::Sending, whole_answer(head, chunks)),
            PumpEvent::Received(end),
        ) == (PumpState::Done, PumpAction::Stop),
        pump_step(
            pump_state(PumpState::Sending, whole_answer(head, chunks)),
            PumpEvent::ReadFailed,
        ) == (PumpState::Done, PumpAction::QueueFailure),
        queued(PumpState::Sending, whole_answer(head, chunks)).len() == chunks.len(),
        forall|i: int|
            0 <= i < chunks.len() ==> #[trigger] queued(
                PumpState::Sending,
                whole_answer(head, chunks),
            )[i] == chunks[i]@,
{
    crate::socket::law_whole_answer_is_relayed(head, chunks);
}

// ----- accepting connections ----------------------------------------------------------------

/// The events of a loop that is granted a permit for each connection: `served` says of each in turn
/// whether it could be accepted.
pub open spec fn rounds(served: Seq<bool>) -> Seq<AcceptEvent>
    decreases served.len(),
{
    if served.len() == 0 {
        Seq::empty()
    } else {
        rounds(served.drop_last()).push(AcceptEvent::PermitGranted).push(
            if served.last() {
                AcceptEvent::Accepted
            } else {
                AcceptEvent::AcceptFailed
            },
        )
    }
}

/// How many of a list are true.
pub open spec fn count_true(list: Seq<bool>) -> nat
    decreases list.len(),
{
    if list.len() == 0 {
        0
    } else {
        count_true(list.drop_last()) + if list.last() {
            1nat
        } else {
            0nat
        }
    }
}

/// The loop goes on for as long as nobody stops it: after any number of rounds it waits for the
/// next permit, it has served exactly the connections that could be accepted, and it has given
/// back the permit of each that could not.
pub proof fn law_accepting_goes_on(served: Seq<bool>)
    ensures
        accept_state(rounds(served)) == AcceptState::Acquiring,
        times(rounds(served), AcceptAction::Serve) == count_true(served),
        times(rounds(served), AcceptAction::ReturnPermit) == served.len() - count_true(served),
        times(rounds(served), AcceptAction::Close) == 0,
    decreases served.len(),
{
    if served.len() > 0 {
        let earlier = rounds(served.drop_last());
        let granted = earlier.push(AcceptEvent::PermitGranted);
        let all = rounds(served);
        law_accepting_goes_on(served.drop_last());
        assert(granted.drop_last() =~= earlier);
        assert(all.drop_last() =~= granted);
        assert(accept_state(granted) == AcceptState::Listening);
        assert(times(granted, AcceptAction::Serve) == times(earlier, AcceptAction::Serve));
        assert(times(granted, AcceptAction::ReturnPermit) == times(
            earlier,
            AcceptAction::ReturnPermit,
        ));
        assert(times(granted, AcceptAction::Close) == times(earlier, AcceptAction::Close));
    }
}

/// A stop is heeded wherever the loop stands, as is the end of the permits while one is awaited;
/// and only a connection that came in while the loop listened is served.
pub proof fn law_stopping(state: AcceptState, event: AcceptEvent)
    ensures
        accept_step(state, AcceptEvent::StopRequested) == (
            AcceptState::Closed,
            AcceptAction::Close,
        ),
        accept_step(state, AcceptEvent::PermitsClosed) == (
            AcceptState::Closed,
            AcceptAction::Close,
        ),
        accept_step(AcceptState::Closed, event) == (AcceptState::Closed, AcceptAction::Close),
        accept_step(state, event).1 == AcceptAction::Serve <==> state == AcceptState::Listening
            && event == AcceptEvent::Accepted,
        accept_step(state, event).1 == AcceptAction::AwaitConnection <==> state
            == AcceptState::Acquiring && event == AcceptEvent::PermitGranted,
        accept_step(state, event).1 == AcceptAction::ReturnPermit <==> state
            == AcceptState::Listening && event == AcceptEvent::AcceptFailed,
{
}

// ----- the listener and the limits ----------------------------------------------------------

/// The gateway listens where no host is named and where the one that is named is 127.0.0.1, and
/// nowhere else.
pub proof fn law_loopback(octets: [u8; 4], groups: [u16; 8])
    ensures
        may_bind(None),
        may_bind(Some(Host::V4(octets))) <==> octets@[0] == 127 && octets@[1] == 0 && octets@[2] == 0
            && octets@[3] == 1,
        !may_bind(Some(Host::V6(groups))),
        BIND_HOST@ == seq![127u8, 0, 0, 1],
{
    assert(BIND_HOST@ =~= seq![127u8, 0, 0, 1]);
    if octets@[0] == 127 && octets@[1] == 0 && octets@[2] == 0 && octets@[3] == 1 {
        assert(octets@ =~= BIND_HOST@);
    }
}

/// The limits are what they are said to be, and every wait is bounded: longer than nothing and at
/// most an hour.
pub proof fn law_limits()
    ensures
        DEFAULT_PORT == 43117,
        MAX_REQUEST_BODY_BYTES == 67_108_864,
        MAX_LOCAL_CLIENTS == 32,
        RESPONSE_QUEUE_DEPTH == 8,
        RESPONSE_READ_SIZE == 16_384,
        LOCAL_HEADER_TIMEOUT_SECS == 60,
        MAX_REDIRECTS == 0,
        0 < HANDSHAKE_TIMEOUT_SECS <= 3600,
        0 < RESPONSE_TIMEOUT_SECS <= 3600,
        0 < BODY_TIMEOUT_SECS <= 3600,
        GATEWAY_PRESET@ == "safe"@,
        GATEWAY_METHOD@ == "POST"@,
        GATEWAY_ROUTE@ == "/backend-api/codex/responses"@,
        UPSTREAM_ORIGIN@ == "https://chatgpt.com"@,
{
}

} // verus!
