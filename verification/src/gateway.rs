//! What the loopback gateway does with one request: check it, compress it, forward it to the one
//! destination there is, and relay the answer.
//!
//! Nothing here opens a socket. The network is behind [`GatewayUpstream`], and the compression of
//! a body's text is a function that the caller hands in.
use vstd::prelude::*;
use vstd::utf8::{decode_utf8, encode_utf8, valid_utf8};

use crate::text::{
    before, chars_of, copy_of, end_of_text, holds_at, lemma_precedes_irreflexive,
    lemma_precedes_transitive, lower, lowered, position_of, precedes, same_ignoring_case,
    same_text, start_of_text, starts_with, string_of, trim,
};
use crate::text_map::TextMap;

verus! {

/// The only origin this gateway ever talks to. Not configurable and not derived from a request: a
/// client that can reach the loopback port must not be able to choose a destination.
pub const UPSTREAM_ORIGIN: &'static str = "https://chatgpt.com";

/// The only route the gateway serves.
pub const GATEWAY_ROUTE: &'static str = "/backend-api/codex/responses";

/// The compression profile: lossless, input only.
pub const GATEWAY_PRESET: &'static str = "safe";

/// The one method the route accepts.
pub const GATEWAY_METHOD: &'static str = "POST";

/// Headers that are forwarded verbatim.
pub const FORWARDED_HEADERS: [&'static str; 5] = [
    "authorization",
    "chatgpt-account-id",
    "content-type",
    "accept",
    "originator",
];

/// Hop-by-hop headers that must not be relayed, and those that the upstream leg computes anew.
pub const DROPPED_HEADERS: [&'static str; 7] = [
    "host",
    "content-length",
    "connection",
    "proxy-authorization",
    "proxy-connection",
    "transfer-encoding",
    "upgrade",
];

// ----- errors -------------------------------------------------------------------------------

/// Why an exchange was refused or failed.
#[derive(Debug, Clone, Copy, PartialEq, Eq, Structural)]
pub enum GatewayError {
    /// The request did not use the one method the route accepts.
    MethodNotAllowed,
    /// The request targeted something other than the single served route.
    RouteNotFound,
    /// The client did not attach credentials.
    MissingAuthorization,
    /// The `Authorization` header was present but not in the expected bearer form.
    MalformedAuthorization,
    /// The request body was longer than the gateway accepts.
    RequestTooLarge,
    /// The request could not be read at all.
    MalformedRequest,
    /// Compression failed. Nothing is forwarded uncompressed.
    CompressionFailed,
    /// The upstream leg failed. No fallback, no alternate provider, no retry.
    UpstreamFailed,
}

/// The status that answers an error.
pub open spec fn status_of(error: GatewayError) -> u16 {
    match error {
        GatewayError::MethodNotAllowed => 405,
        GatewayError::RouteNotFound => 404,
        GatewayError::MissingAuthorization => 401,
        GatewayError::MalformedAuthorization => 401,
        GatewayError::RequestTooLarge => 413,
        GatewayError::MalformedRequest => 400,
        GatewayError::CompressionFailed => 500,
        GatewayError::UpstreamFailed => 502,
    }
}

/// The text that describes an error.
pub open spec fn message_of(error: GatewayError) -> Seq<char> {
    match error {
        GatewayError::MethodNotAllowed => "method not allowed"@,
        GatewayError::RouteNotFound => "route not served by the codex gateway"@,
        GatewayError::MissingAuthorization => "request carried no authorization header"@,
        GatewayError::MalformedAuthorization => "authorization header was not a bearer token"@,
        GatewayError::RequestTooLarge => "request body exceeded the gateway's ceiling"@,
        GatewayError::MalformedRequest => "request could not be read"@,
        GatewayError::CompressionFailed => "compression failed; refusing to forward uncompressed"@,
        GatewayError::UpstreamFailed => "upstream request failed"@,
    }
}

impl GatewayError {
    /// The status the gateway answers with. Kept coarse on purpose.
    pub fn status(&self) -> (status: u16)
        ensures
            status == status_of(*self),
    {
        match self {
            GatewayError::MethodNotAllowed => 405,
            GatewayError::RouteNotFound => 404,
            GatewayError::MissingAuthorization => 401,
            GatewayError::MalformedAuthorization => 401,
            GatewayError::RequestTooLarge => 413,
            GatewayError::MalformedRequest => 400,
            GatewayError::CompressionFailed => 500,
            GatewayError::UpstreamFailed => 502,
        }
    }

    /// The error in words: one fixed text for each kind, with nothing of the request in it.
    pub fn message(&self) -> (message: &'static str)
        ensures
            message@ == message_of(*self),
    {
        match self {
            GatewayError::MethodNotAllowed => "method not allowed",
            GatewayError::RouteNotFound => "route not served by the codex gateway",
            GatewayError::MissingAuthorization => "request carried no authorization header",
            GatewayError::MalformedAuthorization => "authorization header was not a bearer token",
            GatewayError::RequestTooLarge => "request body exceeded the gateway's ceiling",
            GatewayError::MalformedRequest => "request could not be read",
            GatewayError::CompressionFailed =>
                "compression failed; refusing to forward uncompressed",
            GatewayError::UpstreamFailed => "upstream request failed",
        }
    }
}

// ----- requests and answers -----------------------------------------------------------------

/// A request as it arrived on the loopback listener. Header names are lowercase.
#[derive(Debug, Clone, PartialEq, Eq)]
pub struct GatewayRequest {
    pub method: String,
    pub path: String,
    pub headers: TextMap,
    pub body: Vec<u8>,
}

/// What the gateway sends upstream.
#[derive(Debug, Clone, PartialEq, Eq)]
pub struct UpstreamRequest {
    pub url: String,
    pub headers: TextMap,
    pub body: Vec<u8>,
}

/// The upstream answer, relayed chunk by chunk and otherwise untouched.
#[derive(Debug, Clone, PartialEq, Eq)]
pub struct UpstreamResponse {
    pub status: u16,
    pub headers: TextMap,
    /// The response body in the order the upstream produced it, one element for each wire chunk.
    pub chunks: Vec<Vec<u8>>,
}

/// The network seam.
pub trait GatewayUpstream: Sized {
    /// That one `send` of `request` took this upstream from `before` to `after` and gave `reply`.
    /// An upstream that says nothing of itself here may do and answer anything.
    open spec fn exchanged(
        before: Self,
        request: UpstreamRequest,
        after: Self,
        reply: Result<UpstreamResponse, GatewayError>,
    ) -> bool {
        true
    }

    /// Sends one request and waits for its answer.
    fn send(&mut self, request: UpstreamRequest) -> (reply: Result<UpstreamResponse, GatewayError>)
        ensures
            Self::exchanged(*old(self), request, *final(self), reply),
    ;
}

// ----- the gates ----------------------------------------------------------------------------

/// What the route check says of a method and a target: the part before any query must be the
/// route, and the method `POST` in any case.
pub open spec fn route_verdict(method: Seq<char>, path: Seq<char>) -> Result<(), GatewayError> {
    if before(path, '?') != GATEWAY_ROUTE@ {
        Err(GatewayError::RouteNotFound)
    } else if lower(method) != lower(GATEWAY_METHOD@) {
        Err(GatewayError::MethodNotAllowed)
    } else {
        Ok(())
    }
}

/// Accept only the exact method and route. The path alone is compared, never an absolute URL: an
/// absolute target would carry a destination.
pub fn validate_route(method: &str, path: &str) -> (verdict: Result<(), GatewayError>)
    ensures
        verdict == route_verdict(method@, path@),
{
    let chars = chars_of(path);
    let end = position_of(&chars, 0, '?');
    assert(chars@.skip(0) =~= chars@);
    let bare = string_of(&chars, 0, end);
    assert(bare@ =~= before(path@, '?'));
    if !same_text(bare.as_str(), GATEWAY_ROUTE) {
        return Err(GatewayError::RouteNotFound);
    }
    let given = chars_of(method);
    assert(given@.subrange(0, given@.len() as int) =~= given@);
    if !same_ignoring_case(&given, 0, given.len(), &chars_of(GATEWAY_METHOD)) {
        return Err(GatewayError::MethodNotAllowed);
    }
    Ok(())
}

/// What follows the word `Bearer` and one space, written with a capital or all small.
pub open spec fn bearer_token(value: Seq<char>) -> Option<Seq<char>> {
    if starts_with(value, "Bearer "@) {
        Some(value.skip("Bearer "@.len() as int))
    } else if starts_with(value, "bearer "@) {
        Some(value.skip("bearer "@.len() as int))
    } else {
        None
    }
}

/// What the credential check says of a set of headers. It looks at one header, and of that one at
/// the shape alone: a bearer prefix and something after it that is not white space.
pub open spec fn auth_verdict(headers: Map<Seq<char>, Seq<char>>) -> Result<(), GatewayError> {
    if !headers.contains_key("authorization"@) {
        Err(GatewayError::MissingAuthorization)
    } else {
        match bearer_token(headers["authorization"@]) {
            None => Err(GatewayError::MalformedAuthorization),
            Some(token) => if trim(token).len() == 0 {
                Err(GatewayError::MalformedAuthorization)
            } else {
                Ok(())
            },
        }
    }
}

/// Require the credentials that the client attaches, by shape only: the value is not decoded and
/// not compared against anything. Without the caller's own bearer there is no upstream request.
pub fn auth_gate(headers: &TextMap) -> (verdict: Result<(), GatewayError>)
    ensures
        verdict == auth_verdict(headers@),
{
    let value = match headers.get("authorization") {
        Some(value) => value,
        None => return Err(GatewayError::MissingAuthorization),
    };
    let chars = chars_of(value.as_str());
    let capital = chars_of("Bearer ");
    let small = chars_of("bearer ");
    assert(chars@.skip(0) =~= chars@);
    let start: usize = if holds_at(&chars, 0, &capital) {
        capital.len()
    } else if holds_at(&chars, 0, &small) {
        small.len()
    } else {
        return Err(GatewayError::MalformedAuthorization);
    };
    assert(chars@.subrange(start as int, chars@.len() as int) =~= chars@.skip(start as int));
    let first = start_of_text(&chars, start, chars.len());
    let last = end_of_text(&chars, first, chars.len());
    if first == last {
        return Err(GatewayError::MalformedAuthorization);
    }
    Ok(())
}

/// What the two gates say of a request, the route first.
pub open spec fn gate_verdict(
    method: Seq<char>,
    path: Seq<char>,
    headers: Map<Seq<char>, Seq<char>>,
) -> Result<(), GatewayError> {
    match route_verdict(method, path) {
        Err(error) => Err(error),
        Ok(()) => auth_verdict(headers),
    }
}

// ----- the destination and the relayed headers ----------------------------------------------

/// The one URL there is.
pub open spec fn destination() -> Seq<char> {
    UPSTREAM_ORIGIN@ + GATEWAY_ROUTE@
}

/// The upstream URL. Built from two constants: nothing of a request contributes.
pub fn upstream_url() -> (url: String)
    ensures
        url@ == destination(),
{
    let mut url = copy_of(UPSTREAM_ORIGIN);
    url.append(GATEWAY_ROUTE);
    url
}

/// Whether `name` is one of `list`.
pub open spec fn listed(list: Seq<&'static str>, name: Seq<char>) -> bool {
    exists|i: int| 0 <= i < list.len() && (#[trigger] list[i])@ == name
}

fn is_listed(list: &[&'static str], name: &str) -> (yes: bool)
    ensures
        yes == listed(list@, name@),
{
    let mut i: usize = 0;
    while i < list.len()
        invariant
            i <= list@.len(),
            forall|k: int| 0 <= k < i ==> (#[trigger] list@[k])@ != name@,
        decreases list@.len() - i,
    {
        if same_text(list[i], name) {
            return true;
        }
        i += 1;
    }
    false
}

/// Whether a header of this lowercase name is forwarded.
pub open spec fn relayed(name: Seq<char>) -> bool {
    listed(FORWARDED_HEADERS@, name) && !listed(DROPPED_HEADERS@, name)
}

/// Whether `spelling` is a name in `headers` that reads `name` in lowercase.
pub open spec fn spelled(
    headers: Map<Seq<char>, Seq<char>>,
    name: Seq<char>,
    spelling: Seq<char>,
) -> bool {
    headers.contains_key(spelling) && lower(spelling) == name
}

/// Whether `spelling` is the last, in byte order, of the names that read `name` in lowercase.
pub open spec fn last_spelling(
    headers: Map<Seq<char>, Seq<char>>,
    name: Seq<char>,
    spelling: Seq<char>,
) -> bool {
    &&& spelled(headers, name, spelling)
    &&& forall|other: Seq<char>|
        #[trigger] spelled(headers, name, other) ==> other == spelling || precedes(other, spelling)
}

/// The headers to relay: those on the forward list, their names in lowercase, each with the value
/// it came with. Of several spellings of one name the last in byte order counts.
pub open spec fn forwarded(headers: Map<Seq<char>, Seq<char>>) -> Map<Seq<char>, Seq<char>> {
    Map::new(
        |name: Seq<char>|
            relayed(name) && exists|spelling: Seq<char>| last_spelling(headers, name, spelling),
        |name: Seq<char>|
            headers[choose|spelling: Seq<char>| last_spelling(headers, name, spelling)],
    )
}

/// No name has two last spellings.
pub proof fn lemma_last_spelling_unique(
    headers: Map<Seq<char>, Seq<char>>,
    name: Seq<char>,
    a: Seq<char>,
    b: Seq<char>,
)
    requires
        last_spelling(headers, name, a),
        last_spelling(headers, name, b),
    ensures
        a == b,
{
    if a != b {
        assert(spelled(headers, name, a));
        assert(spelled(headers, name, b));
        lemma_precedes_transitive(a, b, a);
        lemma_precedes_irreflexive(a);
    }
}

/// Select the headers to relay. Anything that is not on the forward list is dropped, so a client
/// cannot smuggle routing or proxy directives through the gateway.
pub fn forward_headers(incoming: &TextMap) -> (outgoing: TextMap)
    ensures
        outgoing@ == forwarded(incoming@),
{
    let mut outgoing = TextMap::new();
    let count = incoming.len();
    let ghost names = incoming.names();
    let mut i: usize = 0;
    while i < count
        invariant
            i <= count == names.len(),
            names == incoming.names(),
            forall|a: int, b: int|
                0 <= a < b < count ==> precedes(#[trigger] names[a], #[trigger] names[b]),
            forall|n: Seq<char>| incoming@.contains_key(n) <==> #[trigger] names.contains(n),
            forall|n: Seq<char>| #[trigger]
                outgoing@.contains_key(n) ==> relayed(n) && exists|k: int|
                    0 <= k < i && lower(#[trigger] names[k]) == n,
            forall|k: int|
                0 <= k < i && relayed(lower(#[trigger] names[k])) ==> outgoing@.contains_key(
                    lower(names[k]),
                ),
            forall|k: int|
                0 <= k < i && relayed(lower(#[trigger] names[k])) && (forall|m: int|
                    k < m < i ==> lower(#[trigger] names[m]) != lower(names[k]))
                    ==> outgoing@[lower(names[k])] == incoming@[names[k]],
        decreases count - i,
    {
        let (name, value) = incoming.entry(i);
        let small = lowered(name.as_str());
        if is_listed(&FORWARDED_HEADERS, small.as_str()) && !is_listed(
            &DROPPED_HEADERS,
            small.as_str(),
        ) {
            outgoing.insert(small, value.clone());
        }
        i += 1;
    }
    proof {
        let goal = forwarded(incoming@);
        assert forall|n: Seq<char>| #[trigger] outgoing@.dom().contains(n) == goal.dom().contains(
            n,
        ) && (outgoing@.dom().contains(n) ==> outgoing@[n] == goal[n]) by {
            if outgoing@.contains_key(n) {
                let some = choose|k: int| 0 <= k < i && lower(#[trigger] names[k]) == n;
                let k = lemma_last_index(names, n, some);
                assert(names.contains(names[k]));
                assert(lower(names[k]) == n);
                lemma_last_is_last(incoming@, names, n, k);
                let chosen = choose|s: Seq<char>| last_spelling(incoming@, n, s);
                lemma_last_spelling_unique(incoming@, n, chosen, names[k]);
            }
            if goal.dom().contains(n) {
                let s = choose|s: Seq<char>| last_spelling(incoming@, n, s);
                assert(names.contains(s));
                let k = choose|k: int| 0 <= k < names.len() && names[k] == s;
                assert(relayed(lower(names[k])));
            }
        }
        assert(outgoing@ =~= goal);
    }
    outgoing
}

/// The last position, from `from` on, whose name reads `name` in lowercase.
proof fn lemma_last_index(names: Seq<Seq<char>>, name: Seq<char>, from: int) -> (last: int)
    requires
        0 <= from < names.len(),
        lower(names[from]) == name,
    ensures
        from <= last < names.len(),
        lower(names[last]) == name,
        forall|m: int| last < m < names.len() ==> lower(#[trigger] names[m]) != name,
    decreases names.len() - from,
{
    if exists|m: int| from < m < names.len() && lower(#[trigger] names[m]) == name {
        let m = choose|m: int| from < m < names.len() && lower(#[trigger] names[m]) == name;
        lemma_last_index(names, name, m)
    } else {
        from
    }
}

proof fn lemma_last_is_last(
    headers: Map<Seq<char>, Seq<char>>,
    names: Seq<Seq<char>>,
    name: Seq<char>,
    last: int,
)
    requires
        0 <= last < names.len(),
        lower(names[last]) == name,
        forall|m: int| last < m < names.len() ==> lower(#[trigger] names[m]) != name,
        forall|a: int, b: int|
            0 <= a < b < names.len() ==> precedes(#[trigger] names[a], #[trigger] names[b]),
        forall|n: Seq<char>| headers.contains_key(n) <==> #[trigger] names.contains(n),
    ensures
        last_spelling(headers, name, names[last]),
{
    assert(names.contains(names[last]));
    assert forall|other: Seq<char>| #[trigger] spelled(headers, name, other) implies other
        == names[last] || precedes(other, names[last]) by {
        assert(names.contains(other));
        let k = choose|k: int| 0 <= k < names.len() && names[k] == other;
        if k < last {
            assert(precedes(names[k], names[last]));
        }
    }
}

// ----- compression --------------------------------------------------------------------------

/// `std`'s error for bytes that are not UTF-8.
#[verifier::external_type_specification]
#[verifier::external_body]
pub struct ExUtf8Error(core::str::Utf8Error);

/// `core::str::from_utf8` reads a slice as text: it succeeds exactly on valid UTF-8, and then the
/// text is the one that the bytes encode.
pub assume_specification[ core::str::from_utf8 ](v: &[u8]) -> (text: Result<
    &str,
    core::str::Utf8Error,
>)
    ensures
        match text {
            Ok(text) => valid_utf8(v@) && text@ == decode_utf8(v@),
            Err(_) => !valid_utf8(v@),
        },
;

/// The dialect that a body is written in.
#[derive(Debug, Clone, Copy, PartialEq, Eq, Structural)]
pub enum ProviderKind {
    OpenAi,
}

/// That `outcome` is what `transform` gave for the text of `body`, read as an OpenAI request
/// and under the pinned profile.
pub open spec fn transformed<F: Fn(&str, ProviderKind, &str) -> Option<String>>(
    transform: F,
    body: Seq<u8>,
    outcome: Option<String>,
) -> bool {
    exists|text: &str, preset: &str|
        text@ == decode_utf8(body) && preset@ == GATEWAY_PRESET@ && #[trigger] call_ensures(
            transform,
            (text, ProviderKind::OpenAi, preset),
            outcome,
        )
}

/// That `result` is the body to send, where the transform gave `outcome`.
pub open spec fn sealed(outcome: Option<String>, result: Result<Vec<u8>, GatewayError>) -> bool {
    match outcome {
        Some(text) => result is Ok && result->Ok_0@ == encode_utf8(text@),
        None => result == Err::<Vec<u8>, GatewayError>(GatewayError::CompressionFailed),
    }
}

/// The body to send, once the transform has run: the bytes of its text, or a refusal where it
/// gave none.
pub fn seal_body(outcome: Option<String>) -> (result: Result<Vec<u8>, GatewayError>)
    ensures
        sealed(outcome, result),
{
    match outcome {
        Some(text) => Ok(text.as_str().as_bytes_vec()),
        None => Err(GatewayError::CompressionFailed),
    }
}

/// Compress a request body. Fail-closed: a body that is not text, or that `transform` does not
/// take, is refused and never passed on as it is.
pub fn compress_body<F: Fn(&str, ProviderKind, &str) -> Option<String>>(
    body: &[u8],
    transform: &F,
) -> (result: Result<Vec<u8>, GatewayError>)
    requires
        forall|text: &str, preset: &str|
            preset@ == GATEWAY_PRESET@ ==> #[trigger] call_requires(
                *transform,
                (text, ProviderKind::OpenAi, preset),
            ),
    ensures
        !valid_utf8(body@) ==> result == Err::<Vec<u8>, GatewayError>(
            GatewayError::CompressionFailed,
        ),
        valid_utf8(body@) ==> exists|outcome: Option<String>| #[trigger]
            transformed(*transform, body@, outcome) && sealed(outcome, result),
{
    match core::str::from_utf8(body) {
        Err(_) => Err(GatewayError::CompressionFailed),
        Ok(text) => {
            let outcome = transform(text, ProviderKind::OpenAi, GATEWAY_PRESET);
            assert(transformed(*transform, body@, outcome));
            seal_body(outcome)
        },
    }
}

// ----- metrics ------------------------------------------------------------------------------

/// Byte counts for one exchange. Metadata only: no body, no header, no credential.
#[derive(Debug, Clone, Copy, PartialEq, Eq, Structural)]
pub struct GatewayMetrics {
    pub local_request_bytes: u64,
    pub upstream_request_bytes: u64,
    pub response_chunks: u64,
    pub status: u16,
}

impl Default for GatewayMetrics {
    fn default() -> (metrics: GatewayMetrics)
        ensures
            metrics == (GatewayMetrics {
                local_request_bytes: 0,
                upstream_request_bytes: 0,
                response_chunks: 0,
                status: 0,
            }),
    {
        GatewayMetrics {
            local_request_bytes: 0,
            upstream_request_bytes: 0,
            response_chunks: 0,
            status: 0,
        }
    }
}

/// By how much a request shrank, in hundredths of a percent of its local size, rounded towards
/// zero: negative where it grew, zero where there was nothing to shrink.
pub open spec fn reduction(local: int, sent: int) -> int {
    if local == 0 {
        0
    } else if sent <= local {
        (local - sent) * 10_000 / local
    } else {
        -((sent - local) * 10_000 / local)
    }
}

impl GatewayMetrics {
    /// Reduction in hundredths of a percent.
    pub fn reduction_basis_points(&self) -> (points: i128)
        ensures
            points == reduction(
                self.local_request_bytes as int,
                self.upstream_request_bytes as int,
            ),
    {
        let local = self.local_request_bytes as u128;
        let sent = self.upstream_request_bytes as u128;
        if local == 0 {
            return 0;
        }
        if sent <= local {
            let points: u128 = (local - sent) * 10_000 / local;
            proof {
                lemma_share_is_bounded((local - sent) as int, local as int);
            }
            points as i128
        } else {
            let points: u128 = (sent - local) * 10_000 / local;
            proof {
                lemma_share_is_bounded((sent - local) as int, local as int);
            }
            -(points as i128)
        }
    }
}

proof fn lemma_share_is_bounded(part: int, whole: int)
    by (nonlinear_arith)
    requires
        0 <= part <= 0xffff_ffff_ffff_ffff,
        whole > 0,
    ensures
        0 <= part * 10_000 / whole <= 0xffff_ffff_ffff_ffff * 10_000,
{
}

// ----- the pipeline -------------------------------------------------------------------------

/// That `outgoing` is the request to send for `request`, once its body has become `text`.
pub open spec fn is_outgoing(
    request: GatewayRequest,
    text: Seq<char>,
    outgoing: UpstreamRequest,
) -> bool {
    &&& outgoing.url@ == destination()
    &&& outgoing.headers@ == forwarded(request.headers@)
    &&& outgoing.body@ == encode_utf8(text)
}

/// What is known of an exchange before it has an answer.
pub open spec fn request_metrics(request: GatewayRequest, text: Seq<char>) -> GatewayMetrics {
    GatewayMetrics {
        local_request_bytes: request.body@.len() as u64,
        upstream_request_bytes: encode_utf8(text).len() as u64,
        response_chunks: 0,
        status: 0,
    }
}

/// That `result` is what becomes of an admitted request whose transform gave `outcome`.
pub open spec fn is_prepared(
    request: GatewayRequest,
    outcome: Option<String>,
    result: Result<(UpstreamRequest, GatewayMetrics), GatewayError>,
) -> bool {
    match outcome {
        None => result == Err::<(UpstreamRequest, GatewayMetrics), GatewayError>(
            GatewayError::CompressionFailed,
        ),
        Some(text) => result is Ok && is_outgoing(request, text@, result->Ok_0.0)
            && result->Ok_0.1 == request_metrics(request, text@),
    }
}

/// That `result` is what becomes of `request` before the upstream leg: the gates' refusal, a
/// refusal where the body is not text, or what the outcome of the transform calls for.
pub open spec fn prepared<F: Fn(&str, ProviderKind, &str) -> Option<String>>(
    request: GatewayRequest,
    transform: F,
    result: Result<(UpstreamRequest, GatewayMetrics), GatewayError>,
) -> bool {
    match gate_verdict(request.method@, request.path@, request.headers@) {
        Err(error) => result == Err::<(UpstreamRequest, GatewayMetrics), GatewayError>(error),
        Ok(()) => if valid_utf8(request.body@) {
            exists|outcome: Option<String>| #[trigger]
                transformed(transform, request.body@, outcome) && is_prepared(
                    request,
                    outcome,
                    result,
                )
        } else {
            result == Err::<(UpstreamRequest, GatewayMetrics), GatewayError>(
                GatewayError::CompressionFailed,
            )
        },
    }
}

/// The pipeline up to the upstream leg: validate, gate, compress, and build the one request that
/// goes out.
pub fn prepare<F: Fn(&str, ProviderKind, &str) -> Option<String>>(
    request: &GatewayRequest,
    transform: &F,
) -> (result: Result<(UpstreamRequest, GatewayMetrics), GatewayError>)
    requires
        forall|text: &str, preset: &str|
            preset@ == GATEWAY_PRESET@ ==> #[trigger] call_requires(
                *transform,
                (text, ProviderKind::OpenAi, preset),
            ),
    ensures
        prepared(*request, *transform, result),
{
    if let Err(error) = validate_route(request.method.as_str(), request.path.as_str()) {
        return Err(error);
    }
    if let Err(error) = auth_gate(&request.headers) {
        return Err(error);
    }
    let body = match compress_body(request.body.as_slice(), transform) {
        Ok(body) => body,
        Err(error) => return Err(error),
    };
    let metrics = GatewayMetrics {
        local_request_bytes: request.body.len() as u64,
        upstream_request_bytes: body.len() as u64,
        response_chunks: 0,
        status: 0,
    };
    let outgoing = UpstreamRequest {
        url: upstream_url(),
        headers: forward_headers(&request.headers),
        body,
    };
    Ok((outgoing, metrics))
}

/// What is known of an exchange once it has an answer.
pub open spec fn settled_metrics(
    metrics: GatewayMetrics,
    response: UpstreamResponse,
) -> GatewayMetrics {
    GatewayMetrics {
        response_chunks: response.chunks@.len() as u64,
        status: response.status,
        ..metrics
    }
}

/// What an exchange comes to, given what the upstream leg gave: its error as it is, or its answer
/// untouched beside the counts.
pub open spec fn settlement(
    reply: Result<UpstreamResponse, GatewayError>,
    metrics: GatewayMetrics,
) -> Result<(UpstreamResponse, GatewayMetrics), GatewayError> {
    match reply {
        Err(error) => Err(error),
        Ok(response) => Ok((response, settled_metrics(metrics, response))),
    }
}

/// The end of the pipeline, once the upstream leg has run.
pub fn settle(reply: Result<UpstreamResponse, GatewayError>, metrics: GatewayMetrics) -> (result:
    Result<(UpstreamResponse, GatewayMetrics), GatewayError>)
    ensures
        result == settlement(reply, metrics),
{
    match reply {
        Err(error) => Err(error),
        Ok(response) => {
            let metrics = GatewayMetrics {
                response_chunks: response.chunks.len() as u64,
                status: response.status,
                ..metrics
            };
            Ok((response, metrics))
        },
    }
}

/// That an upstream went from `before` to `after` by one `send` of the request that `request` and
/// `text` call for, and that `result` is what its reply comes to.
pub open spec fn forwarded_once<U: GatewayUpstream>(
    before: U,
    request: GatewayRequest,
    text: Seq<char>,
    after: U,
    result: Result<(UpstreamResponse, GatewayMetrics), GatewayError>,
) -> bool {
    exists|outgoing: UpstreamRequest, reply: Result<UpstreamResponse, GatewayError>|
        is_outgoing(request, text, outgoing) && #[trigger] U::exchanged(
            before,
            outgoing,
            after,
            reply,
        ) && result == settlement(reply, request_metrics(request, text))
}

/// That `request` took an upstream from `before` to `after`, and that `result` is what came of it:
/// the gates' refusal, a refusal where the body is not text or the transform gave none, each with
/// the upstream as it was, or what one `send` of the transformed request came to.
pub open spec fn handled<U: GatewayUpstream, F: Fn(&str, ProviderKind, &str) -> Option<String>>(
    before: U,
    request: GatewayRequest,
    transform: F,
    after: U,
    result: Result<(UpstreamResponse, GatewayMetrics), GatewayError>,
) -> bool {
    match gate_verdict(request.method@, request.path@, request.headers@) {
        Err(error) => result == Err::<(UpstreamResponse, GatewayMetrics), GatewayError>(error)
            && after == before,
        Ok(()) => if valid_utf8(request.body@) {
            exists|outcome: Option<String>| #[trigger]
                transformed(transform, request.body@, outcome) && match outcome {
                    None => result == Err::<(UpstreamResponse, GatewayMetrics), GatewayError>(
                        GatewayError::CompressionFailed,
                    ) && after == before,
                    Some(text) => forwarded_once(before, request, text@, after, result),
                }
        } else {
            result == Err::<(UpstreamResponse, GatewayMetrics), GatewayError>(
                GatewayError::CompressionFailed,
            ) && after == before
        },
    }
}

/// The whole pipeline: validate, gate, compress, forward, relay.
///
/// A request that a gate or the compression refuses leaves the upstream as it was. Any other is
/// sent once, to the one destination, and the answer comes back as the upstream gave it.
pub fn handle<U: GatewayUpstream, F: Fn(&str, ProviderKind, &str) -> Option<String>>(
    request: &GatewayRequest,
    transform: &F,
    upstream: &mut U,
) -> (result: Result<(UpstreamResponse, GatewayMetrics), GatewayError>)
    requires
        forall|text: &str, preset: &str|
            preset@ == GATEWAY_PRESET@ ==> #[trigger] call_requires(
                *transform,
                (text, ProviderKind::OpenAi, preset),
            ),
    ensures
        handled(*old(upstream), *request, *transform, *final(upstream), result),
{
    let (outgoing, metrics) = match prepare(request, transform) {
        Ok(prepared) => prepared,
        Err(error) => return Err(error),
    };
    let reply = upstream.send(outgoing);
    settle(reply, metrics)
}

} // verus!
