//! What the gateway promises across its functions, stated over the specifications that the
//! functions' own contracts use.
use vstd::prelude::*;

use crate::gateway::{
    auth_verdict, bearer_token, destination, forwarded, forwarded_once, gate_verdict, handled,
    is_outgoing, last_spelling, lemma_last_spelling_unique, listed, prepared, reduction, relayed,
    request_metrics, route_verdict, settled_metrics, settlement, spelled, status_of, GatewayError,
    GatewayMetrics, GatewayRequest, GatewayUpstream, ProviderKind, UpstreamRequest,
    UpstreamResponse, DROPPED_HEADERS, FORWARDED_HEADERS, GATEWAY_ROUTE,
};
use crate::listener::{may_bind, Host, BIND_HOST};
use crate::socket::{collected, head_verdict, readable, text_of, HeaderField};
use crate::text::{
    before, is_white_space, lemma_find, lemma_find_unique, lemma_lower_idempotent,
    lemma_trim_empty, lower, starts_with,
};

verus! {

// ----- the route ----------------------------------------------------------------------------

/// The gateway serves exactly one route: a target that is let through is the route itself, or the
/// route with a query behind it. In particular no absolute URL is.
pub proof fn law_one_route(method: Seq<char>, path: Seq<char>)
    requires
        route_verdict(method, path) is Ok,
    ensures
        starts_with(path, GATEWAY_ROUTE@),
        path.len() == GATEWAY_ROUTE@.len() || path[GATEWAY_ROUTE@.len() as int] == '?',
{
    lemma_find(path, '?');
}

/// A query is never part of the route: with or without one, the verdict is the same.
pub proof fn law_query_is_ignored(method: Seq<char>, path: Seq<char>, query: Seq<char>)
    requires
        !path.contains('?'),
    ensures
        route_verdict(method, path + seq!['?'] + query) == route_verdict(method, path),
{
    let long = path + seq!['?'] + query;
    assert forall|k: int| 0 <= k < path.len() implies path[k] != '?' by {
        assert(path.contains(path[k]));
    }
    lemma_find_unique(long, '?', path.len() as int);
    lemma_find_unique(path, '?', path.len() as int);
    assert(before(long, '?') =~= before(path, '?'));
}

/// The method is compared without regard to the case of its letters.
pub proof fn law_method_case_is_ignored(method: Seq<char>, path: Seq<char>)
    ensures
        route_verdict(lower(method), path) == route_verdict(method, path),
{
    lemma_lower_idempotent(method);
}

/// Where both the route and the method are wrong, the route is what is reported.
pub proof fn law_route_before_method(method: Seq<char>, other: Seq<char>, path: Seq<char>)
    requires
        route_verdict(method, path) == Err::<(), GatewayError>(GatewayError::RouteNotFound),
    ensures
        route_verdict(other, path) == Err::<(), GatewayError>(GatewayError::RouteNotFound),
{
}

// ----- the credentials ----------------------------------------------------------------------

/// The credential check looks at one header: two requests that carry the same `authorization`, or
/// both none, are judged alike.
pub proof fn law_only_authorization_counts(
    a: Map<Seq<char>, Seq<char>>,
    b: Map<Seq<char>, Seq<char>>,
)
    requires
        a.contains_key("authorization"@) == b.contains_key("authorization"@),
        a.contains_key("authorization"@) ==> a["authorization"@] == b["authorization"@],
    ensures
        auth_verdict(a) == auth_verdict(b),
{
}

/// The credential check goes by shape alone: it passes exactly where a bearer prefix is followed
/// by something that is not white space, whatever that is.
pub proof fn law_any_bearer_passes(headers: Map<Seq<char>, Seq<char>>)
    ensures
        auth_verdict(headers) is Ok <==> headers.contains_key("authorization"@) && bearer_token(
            headers["authorization"@],
        ) is Some && exists|i: int|
            0 <= i < bearer_token(headers["authorization"@])->0.len() && !is_white_space(
                #[trigger] bearer_token(headers["authorization"@])->0[i],
            ),
{
    if let Some(token) = bearer_token(headers["authorization"@]) {
        lemma_trim_empty(token);
    }
}

// ----- the relayed headers ------------------------------------------------------------------

/// No header is on both lists.
pub proof fn law_lists_are_disjoint(name: Seq<char>)
    requires
        listed(FORWARDED_HEADERS@, name),
    ensures
        !listed(DROPPED_HEADERS@, name),
{
    reveal_strlit("authorization");
    reveal_strlit("chatgpt-account-id");
    reveal_strlit("content-type");
    reveal_strlit("accept");
    reveal_strlit("originator");
    reveal_strlit("host");
    reveal_strlit("content-length");
    reveal_strlit("connection");
    reveal_strlit("proxy-authorization");
    reveal_strlit("proxy-connection");
    reveal_strlit("transfer-encoding");
    reveal_strlit("upgrade");
    assert(FORWARDED_HEADERS@[0]@.len() == 13);
    assert(FORWARDED_HEADERS@[1]@.len() == 18);
    assert(FORWARDED_HEADERS@[2]@.len() == 12);
    assert(FORWARDED_HEADERS@[3]@.len() == 6);
    assert(FORWARDED_HEADERS@[4]@.len() == 10);
    let i = choose|i: int|
        0 <= i < FORWARDED_HEADERS@.len() && (#[trigger] FORWARDED_HEADERS@[i])@ == name;
    assert(i == 0 || i == 1 || i == 2 || i == 3 || i == 4);
    if listed(DROPPED_HEADERS@, name) {
        assert(DROPPED_HEADERS@[0]@.len() == 4);
        assert(DROPPED_HEADERS@[1]@.len() == 14);
        assert(DROPPED_HEADERS@[2]@.len() == 10);
        assert(DROPPED_HEADERS@[3]@.len() == 19);
        assert(DROPPED_HEADERS@[4]@.len() == 16);
        assert(DROPPED_HEADERS@[5]@.len() == 17);
        assert(DROPPED_HEADERS@[6]@.len() == 7);
        let j = choose|j: int|
            0 <= j < DROPPED_HEADERS@.len() && (#[trigger] DROPPED_HEADERS@[j])@ == name;
        assert(j == 0 || j == 1 || j == 2 || j == 3 || j == 4 || j == 5 || j == 6);
        assert("originator"@[0] != "connection"@[0]);
    }
}

/// Nothing goes upstream but what is on the forward list: no hop-by-hop header, no routing or
/// proxy directive, under any spelling.
pub proof fn law_only_listed_headers_are_relayed(
    headers: Map<Seq<char>, Seq<char>>,
    name: Seq<char>,
)
    requires
        forwarded(headers).contains_key(name),
    ensures
        listed(FORWARDED_HEADERS@, name),
        !listed(DROPPED_HEADERS@, name),
        lower(name) == name,
{
    let spelling = choose|spelling: Seq<char>| last_spelling(headers, name, spelling);
    lemma_lower_idempotent(spelling);
}

/// Whether two sets of headers hold the same of what is on the forward list, under each spelling.
pub open spec fn alike_where_listed(
    a: Map<Seq<char>, Seq<char>>,
    b: Map<Seq<char>, Seq<char>>,
) -> bool {
    forall|name: Seq<char>|
        listed(FORWARDED_HEADERS@, lower(name)) ==> {
            &&& #[trigger] a.contains_key(name) == b.contains_key(name)
            &&& a.contains_key(name) ==> a[name] == b[name]
        }
}

proof fn lemma_same_last_spelling(
    a: Map<Seq<char>, Seq<char>>,
    b: Map<Seq<char>, Seq<char>>,
    name: Seq<char>,
    spelling: Seq<char>,
)
    requires
        alike_where_listed(a, b),
        listed(FORWARDED_HEADERS@, name),
    ensures
        last_spelling(a, name, spelling) == last_spelling(b, name, spelling),
{
    assert forall|s: Seq<char>| #[trigger] spelled(a, name, s) == spelled(b, name, s) by {
        assert(a.contains_key(s) || !a.contains_key(s));
    }
    assert forall|s: Seq<char>| spelled(a, name, s) == #[trigger] spelled(b, name, s) by {
        assert(spelled(a, name, s) == spelled(b, name, s));
    }
}

/// What is relayed is decided by the headers on the forward list alone.
pub proof fn law_listed_headers_decide(
    a: Map<Seq<char>, Seq<char>>,
    b: Map<Seq<char>, Seq<char>>,
)
    requires
        alike_where_listed(a, b),
    ensures
        forwarded(a) == forwarded(b),
{
    assert forall|n: Seq<char>, s: Seq<char>| relayed(n) implies #[trigger] last_spelling(a, n, s)
        == last_spelling(b, n, s) by {
        lemma_same_last_spelling(a, b, n, s);
    }
    assert forall|n: Seq<char>| #[trigger]
        forwarded(a).dom().contains(n) == forwarded(b).dom().contains(n) by {
        if relayed(n) {
            if exists|s: Seq<char>| last_spelling(a, n, s) {
                let s = choose|s: Seq<char>| last_spelling(a, n, s);
                assert(last_spelling(b, n, s));
            }
            if exists|s: Seq<char>| last_spelling(b, n, s) {
                let s = choose|s: Seq<char>| last_spelling(b, n, s);
                assert(last_spelling(a, n, s));
            }
        }
    }
    assert forall|n: Seq<char>| #[trigger] forwarded(a).dom().contains(n) implies forwarded(a)[n]
        == forwarded(b)[n] by {
        let s = choose|s: Seq<char>| last_spelling(a, n, s);
        assert(last_spelling(b, n, s));
        let t = choose|s: Seq<char>| last_spelling(b, n, s);
        lemma_last_spelling_unique(b, n, s, t);
        assert(a.contains_key(s));
    }
    assert(forwarded(a) =~= forwarded(b));
}

/// A header that is not on the forward list has no influence on what is relayed.
pub proof fn law_other_headers_have_no_influence(
    headers: Map<Seq<char>, Seq<char>>,
    name: Seq<char>,
    value: Seq<char>,
)
    requires
        !listed(FORWARDED_HEADERS@, lower(name)),
    ensures
        forwarded(headers.insert(name, value)) == forwarded(headers),
{
    law_listed_headers_decide(headers.insert(name, value), headers);
}

/// Whether every name is in lowercase, as the names of a received request are.
pub open spec fn lowercase_names(headers: Map<Seq<char>, Seq<char>>) -> bool {
    forall|name: Seq<char>| #[trigger] headers.contains_key(name) ==> lower(name) == name
}

/// Of a received request, the headers on the forward list go upstream with the very values they
/// came with, and no others go.
pub proof fn law_listed_headers_are_relayed_verbatim(headers: Map<Seq<char>, Seq<char>>)
    requires
        lowercase_names(headers),
    ensures
        forall|name: Seq<char>| #[trigger]
            forwarded(headers).contains_key(name) <==> listed(FORWARDED_HEADERS@, name)
                && headers.contains_key(name),
        forall|name: Seq<char>| #[trigger]
            forwarded(headers).contains_key(name) ==> forwarded(headers)[name] == headers[name],
{
    assert forall|name: Seq<char>|
        listed(FORWARDED_HEADERS@, name) && #[trigger] headers.contains_key(
            name,
        ) implies last_spelling(headers, name, name) by {}
    assert forall|name: Seq<char>| #[trigger] forwarded(headers).contains_key(
        name,
    ) implies listed(FORWARDED_HEADERS@, name) && headers.contains_key(name) && forwarded(
        headers,
    )[name] == headers[name] by {
        let s = choose|s: Seq<char>| last_spelling(headers, name, s);
        assert(s == name);
    }
    assert forall|name: Seq<char>|
        listed(FORWARDED_HEADERS@, name) && #[trigger] headers.contains_key(
            name,
        ) implies forwarded(headers).contains_key(name) by {
        law_lists_are_disjoint(name);
        assert(last_spelling(headers, name, name));
    }
}

/// Selecting the headers to relay once more selects the same.
pub proof fn law_forwarding_twice_is_forwarding_once(headers: Map<Seq<char>, Seq<char>>)
    ensures
        forwarded(forwarded(headers)) == forwarded(headers),
{
    let once = forwarded(headers);
    assert forall|name: Seq<char>| #[trigger] once.contains_key(name) implies lower(name)
        == name by {
        law_only_listed_headers_are_relayed(headers, name);
    }
    law_listed_headers_are_relayed_verbatim(once);
    assert forall|name: Seq<char>| #[trigger] forwarded(once).dom().contains(name)
        == once.dom().contains(name) by {
        assert(forwarded(once).contains_key(name) <==> listed(FORWARDED_HEADERS@, name)
            && once.contains_key(name));
        if once.contains_key(name) {
            law_only_listed_headers_are_relayed(headers, name);
        }
    }
    assert forall|name: Seq<char>| #[trigger] forwarded(once).dom().contains(name) implies forwarded(
        once,
    )[name] == once[name] by {
        assert(forwarded(once).contains_key(name));
    }
    assert(forwarded(once) =~= once);
}

// ----- the socket path ----------------------------------------------------------------------

/// The names that are collected from a request head are in lowercase.
pub proof fn law_collected_names_are_lowercase(fields: Seq<HeaderField>)
    ensures
        lowercase_names(collected(fields)),
    decreases fields.len(),
{
    if fields.len() > 0 {
        law_collected_names_are_lowercase(fields.drop_last());
        lemma_lower_idempotent(fields.last().name@);
    }
}

/// Whether the field at `at` is the first readable one of its name.
pub open spec fn first_of_its_name(fields: Seq<HeaderField>, at: int) -> bool {
    &&& 0 <= at < fields.len()
    &&& readable(fields[at].value@)
    &&& forall|k: int|
        0 <= k < at && readable((#[trigger] fields[k]).value@) ==> lower(fields[k].name@) != lower(
            fields[at].name@,
        )
}

/// Of several fields of one name the first readable one counts, under its lowercase name and with
/// its value as it came, and a name that no readable field has is absent.
pub proof fn law_first_value_counts(fields: Seq<HeaderField>)
    ensures
        forall|at: int| #[trigger]
            first_of_its_name(fields, at) ==> collected(fields).contains_key(
                lower(fields[at].name@),
            ) && collected(fields)[lower(fields[at].name@)] == text_of(fields[at].value@),
        forall|name: Seq<char>| #[trigger]
            collected(fields).contains_key(name) ==> exists|at: int| #[trigger]
                first_of_its_name(fields, at) && lower(fields[at].name@) == name,
    decreases fields.len(),
{
    if fields.len() > 0 {
        let earlier = fields.drop_last();
        let last = fields.len() - 1;
        law_first_value_counts(earlier);
        assert forall|at: int| 0 <= at < last implies #[trigger] first_of_its_name(fields, at)
            == first_of_its_name(earlier, at) by {
            assert forall|k: int| 0 <= k < at implies #[trigger] fields[k] == earlier[k] by {}
            assert forall|k: int| 0 <= k < at implies fields[k] == #[trigger] earlier[k] by {}
        }
        assert forall|at: int| #[trigger] first_of_its_name(fields, at) implies collected(
            fields,
        ).contains_key(lower(fields[at].name@)) && collected(fields)[lower(fields[at].name@)]
            == text_of(fields[at].value@) by {
            let name = lower(fields[at].name@);
            if at < last {
                assert(first_of_its_name(earlier, at));
            } else if collected(earlier).contains_key(name) {
                let k = choose|k: int| #[trigger]
                    first_of_its_name(earlier, k) && lower(earlier[k].name@) == name;
                assert(fields[k] == earlier[k]);
            }
        }
        assert forall|name: Seq<char>| #[trigger] collected(fields).contains_key(
            name,
        ) implies exists|at: int| #[trigger]
            first_of_its_name(fields, at) && lower(fields[at].name@) == name by {
            if collected(earlier).contains_key(name) {
                let k = choose|k: int| #[trigger]
                    first_of_its_name(earlier, k) && lower(earlier[k].name@) == name;
                assert(first_of_its_name(fields, k));
            } else {
                assert forall|k: int|
                    0 <= k < last && readable((#[trigger] fields[k]).value@) implies lower(
                    fields[k].name@,
                ) != name by {
                    if lower(fields[k].name@) == name {
                        law_readable_name_is_collected(earlier, k);
                        assert(fields[k] == earlier[k]);
                    }
                }
                assert(first_of_its_name(fields, last));
            }
        }
    }
}

/// A name with a readable value is among those collected.
pub proof fn law_readable_name_is_collected(fields: Seq<HeaderField>, at: int)
    requires
        0 <= at < fields.len(),
        readable(fields[at].value@),
    ensures
        collected(fields).contains_key(lower(fields[at].name@)),
    decreases fields.len(),
{
    if at < fields.len() - 1 {
        law_readable_name_is_collected(fields.drop_last(), at);
    }
}

/// The two entry points run the same policy: a request whose head the server admitted is not
/// refused by the gates when it is prepared, and one that it refused would have been, except that
/// a target with a destination in it is refused on sight.
pub proof fn law_socket_path_agrees(
    has_authority: bool,
    has_scheme: bool,
    method: Seq<char>,
    path: Seq<char>,
    fields: Seq<HeaderField>,
)
    ensures
        head_verdict(has_authority, has_scheme, method, path, fields) is Ok ==> gate_verdict(
            method,
            path,
            collected(fields),
        ) is Ok,
        !has_authority && !has_scheme ==> head_verdict(
            has_authority,
            has_scheme,
            method,
            path,
            fields,
        ) == gate_verdict(method, path, collected(fields)),
{
}

/// The caller's own credentials go upstream byte for byte: of each header on the forward list, the
/// `authorization` and the account id among them, the value that is relayed is the text of the
/// first readable field of that name.
pub proof fn law_credentials_are_relayed_verbatim(fields: Seq<HeaderField>, at: int)
    requires
        first_of_its_name(fields, at),
        listed(FORWARDED_HEADERS@, lower(fields[at].name@)),
    ensures
        forwarded(collected(fields)).contains_key(lower(fields[at].name@)),
        forwarded(collected(fields))[lower(fields[at].name@)] == text_of(fields[at].value@),
{
    law_first_value_counts(fields);
    law_collected_names_are_lowercase(fields);
    law_listed_headers_are_relayed_verbatim(collected(fields));
    assert(forwarded(collected(fields)).contains_key(lower(fields[at].name@)));
}

/// A request that the server let in is not turned away by the gates when its body is there: all
/// that can still refuse it is the compression.
pub proof fn law_admitted_requests_reach_the_compression<
    F: Fn(&str, ProviderKind, &str) -> Option<String>,
>(
    has_authority: bool,
    has_scheme: bool,
    fields: Seq<HeaderField>,
    request: GatewayRequest,
    transform: F,
    result: Result<(UpstreamRequest, GatewayMetrics), GatewayError>,
)
    requires
        request.headers@ == collected(fields),
        head_verdict(has_authority, has_scheme, request.method@, request.path@, fields) is Ok,
        prepared(request, transform, result),
    ensures
        result is Err ==> result->Err_0 == GatewayError::CompressionFailed,
        result is Ok ==> result->Ok_0.0.url@ == destination() && result->Ok_0.0.headers@
            == forwarded(collected(fields)),
{
}

// ----- the destination and the answer -------------------------------------------------------

/// No two requests go to different places: whatever was asked for, the URL is the constant one.
pub proof fn law_one_destination(
    a: GatewayRequest,
    b: GatewayRequest,
    text: Seq<char>,
    other: Seq<char>,
    to_a: UpstreamRequest,
    to_b: UpstreamRequest,
)
    requires
        is_outgoing(a, text, to_a),
        is_outgoing(b, other, to_b),
    ensures
        to_a.url@ == to_b.url@,
        to_a.url@ == destination(),
{
}

/// Whether two requests agree on all that the gateway heeds: the method, in whatever case, the path
/// before any query, the headers on the forward list, and the body.
pub open spec fn alike(a: GatewayRequest, b: GatewayRequest) -> bool {
    &&& lower(a.method@) == lower(b.method@)
    &&& before(a.path@, '?') == before(b.path@, '?')
    &&& alike_where_listed(a.headers@, b.headers@)
    &&& a.body@ == b.body@
}

proof fn lemma_alike_requests_are_gated_alike(a: GatewayRequest, b: GatewayRequest)
    requires
        alike(a, b),
    ensures
        gate_verdict(a.method@, a.path@, a.headers@) == gate_verdict(
            b.method@,
            b.path@,
            b.headers@,
        ),
        forwarded(a.headers@) == forwarded(b.headers@),
{
    law_listed_headers_decide(a.headers@, b.headers@);
    reveal_strlit("authorization");
    assert(lower("authorization"@) =~= "authorization"@);
    assert(FORWARDED_HEADERS@[0]@ == "authorization"@);
    assert(listed(FORWARDED_HEADERS@, lower("authorization"@)));
    assert(a.headers@.contains_key("authorization"@) == b.headers@.contains_key("authorization"@));
    law_only_authorization_counts(a.headers@, b.headers@);
}

/// Nothing else that a request carries has any influence, on where it goes or on anything: two
/// requests that agree on the method, the path before any query, the headers on the forward list
/// and the body have the same outcomes, for the same transform and the same upstream.
pub proof fn law_nothing_else_has_influence<
    U: GatewayUpstream,
    F: Fn(&str, ProviderKind, &str) -> Option<String>,
>(
    a: GatewayRequest,
    b: GatewayRequest,
    transform: F,
    upstream: U,
    after: U,
    result: Result<(UpstreamResponse, GatewayMetrics), GatewayError>,
)
    requires
        alike(a, b),
    ensures
        handled(upstream, a, transform, after, result) == handled(
            upstream,
            b,
            transform,
            after,
            result,
        ),
{
    lemma_alike_requests_are_gated_alike(a, b);
    assert forall|text: Seq<char>, outgoing: UpstreamRequest| #[trigger]
        is_outgoing(a, text, outgoing) == is_outgoing(b, text, outgoing) by {}
    assert forall|text: Seq<char>| #[trigger] forwarded_once(upstream, a, text, after, result)
        == forwarded_once(upstream, b, text, after, result) by {
        assert(request_metrics(a, text) == request_metrics(b, text));
    }
    assert forall|text: Seq<char>| forwarded_once(upstream, a, text, after, result)
        == #[trigger] forwarded_once(upstream, b, text, after, result) by {
        assert(request_metrics(a, text) == request_metrics(b, text));
    }
}

/// Nor on what is sent: such requests are prepared alike.
pub proof fn law_nothing_else_is_sent<F: Fn(&str, ProviderKind, &str) -> Option<String>>(
    a: GatewayRequest,
    b: GatewayRequest,
    transform: F,
    result: Result<(UpstreamRequest, GatewayMetrics), GatewayError>,
)
    requires
        alike(a, b),
    ensures
        prepared(a, transform, result) == prepared(b, transform, result),
{
    lemma_alike_requests_are_gated_alike(a, b);
}

/// The answer comes back untouched: status, headers and every chunk, in order.
pub proof fn law_answer_is_untouched(
    reply: Result<UpstreamResponse, GatewayError>,
    metrics: GatewayMetrics,
)
    ensures
        reply is Ok <==> settlement(reply, metrics) is Ok,
        reply is Ok ==> settlement(reply, metrics)->Ok_0.0 == reply->Ok_0,
        reply is Err ==> settlement(reply, metrics)->Err_0 == reply->Err_0,
{
}

/// The counts depend on sizes alone: two exchanges whose bodies have the same lengths, answered
/// with the same status and as many chunks, have the same metrics whatever they say.
pub proof fn law_metrics_carry_no_content(
    a: GatewayRequest,
    b: GatewayRequest,
    text: Seq<char>,
    other: Seq<char>,
    from_a: UpstreamResponse,
    from_b: UpstreamResponse,
)
    requires
        a.body@.len() == b.body@.len(),
        vstd::utf8::encode_utf8(text).len() == vstd::utf8::encode_utf8(other).len(),
        from_a.status == from_b.status,
        from_a.chunks@.len() == from_b.chunks@.len(),
    ensures
        settled_metrics(request_metrics(a, text), from_a) == settled_metrics(
            request_metrics(b, other),
            from_b,
        ),
{
}

/// A refusal is always answered as one: with a client or server error status.
pub proof fn law_errors_are_answered_as_errors(error: GatewayError)
    ensures
        400 <= status_of(error) < 600,
{
}

// ----- the reduction ------------------------------------------------------------------------

/// The reduction is never more than all of it, zero where nothing changed, not negative where the
/// body did not grow, and not positive where it did not shrink.
pub proof fn law_reduction_has_the_right_sign(local: int, sent: int)
    requires
        local >= 0,
        sent >= 0,
    ensures
        reduction(local, sent) <= 10_000,
        sent == local ==> reduction(local, sent) == 0,
        sent <= local ==> reduction(local, sent) >= 0,
        sent >= local ==> reduction(local, sent) <= 0,
        local > 0 && sent == 0 ==> reduction(local, sent) == 10_000,
{
    if local > 0 {
        if sent <= local {
            assert(0 <= (local - sent) * 10_000 / local <= 10_000) by (nonlinear_arith)
                requires
                    0 <= sent <= local,
                    local > 0,
            ;
            if sent == 0 {
                assert(local * 10_000 / local == 10_000) by (nonlinear_arith)
                    requires
                        local > 0,
                ;
            }
            if sent == local {
                assert(0int / local == 0) by (nonlinear_arith)
                    requires
                        local > 0,
                ;
            }
        } else {
            assert((sent - local) * 10_000 / local >= 0) by (nonlinear_arith)
                requires
                    sent > local > 0,
            ;
        }
    }
}

/// Sending less never reads as a smaller reduction.
pub proof fn law_reduction_is_monotone(local: int, less: int, more: int)
    requires
        local >= 0,
        0 <= less <= more,
    ensures
        reduction(local, more) <= reduction(local, less),
{
    law_reduction_has_the_right_sign(local, less);
    law_reduction_has_the_right_sign(local, more);
    if local > 0 {
        if more <= local {
            assert((local - more) * 10_000 / local <= (local - less) * 10_000 / local)
                by (nonlinear_arith)
                requires
                    0 <= less <= more <= local,
                    local > 0,
            ;
        } else if less > local {
            assert((less - local) * 10_000 / local <= (more - local) * 10_000 / local)
                by (nonlinear_arith)
                requires
                    local < less <= more,
                    local > 0,
            ;
        }
    }
}

// ----- the listener -------------------------------------------------------------------------

/// Only IPv4 loopback may be bound, named or not: no IPv6 host, and no other IPv4 one.
pub proof fn law_only_loopback_is_bound(host: Host)
    ensures
        may_bind(Some(host)) <==> exists|octets: [u8; 4]|
            host == Host::V4(octets) && #[trigger] octets@ == BIND_HOST@,
        host is V6 ==> !may_bind(Some(host)),
{
}

} // verus!
