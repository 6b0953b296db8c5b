//! The upstream leg's policy: one fixed HTTPS destination, no proxy, no redirects, bounded waits.
use vstd::prelude::*;

use crate::gateway::{destination, listed, upstream_url, GatewayError, UpstreamRequest};
use crate::socket::{collect_headers, collected, HeaderField, UpstreamHead};
use crate::text::{copy_of, same_text};
use crate::text_map::TextMap;

verus! {

/// Redirects the client follows: none. A `3xx` is relayed as a status, never taken as a new
/// destination.
pub const MAX_REDIRECTS: u32 = 0;

/// Seconds to wait for a connection.
pub const HANDSHAKE_TIMEOUT_SECS: u64 = 30;

/// Seconds to wait for the response head.
pub const RESPONSE_TIMEOUT_SECS: u64 = 120;

/// Seconds to wait for the response body.
pub const BODY_TIMEOUT_SECS: u64 = 1800;

/// Response headers that are relayed to the client.
pub const RELAYED_RESPONSE_HEADERS: [&'static str; 1] = ["content-type"];

/// How the client of the upstream leg is set up.
#[derive(Debug, Clone, Copy, PartialEq, Eq)]
pub struct ClientPolicy {
    /// Whether a proxy may be taken from the environment.
    pub ambient_proxy: bool,
    /// Whether any scheme but `https` is refused.
    pub https_only: bool,
    /// How many redirects are followed.
    pub max_redirects: u32,
    /// Whether reaching that number is an error.
    pub max_redirects_will_error: bool,
    /// Whether a status of `4xx` or `5xx` is an error: if not, it is an answer like any other.
    pub http_status_as_error: bool,
    /// Seconds to wait for a connection.
    pub connect_secs: u64,
    /// Seconds to wait for the response head.
    pub recv_response_secs: u64,
    /// Seconds to wait for the response body.
    pub recv_body_secs: u64,
}

/// The one way the client is set up.
pub fn client_policy() -> (policy: ClientPolicy)
    ensures
        policy == (ClientPolicy {
            ambient_proxy: false,
            https_only: true,
            max_redirects: MAX_REDIRECTS,
            max_redirects_will_error: false,
            http_status_as_error: false,
            connect_secs: HANDSHAKE_TIMEOUT_SECS,
            recv_response_secs: RESPONSE_TIMEOUT_SECS,
            recv_body_secs: BODY_TIMEOUT_SECS,
        }),
{
    ClientPolicy {
        ambient_proxy: false,
        https_only: true,
        max_redirects: MAX_REDIRECTS,
        max_redirects_will_error: false,
        http_status_as_error: false,
        connect_secs: HANDSHAKE_TIMEOUT_SECS,
        recv_response_secs: RESPONSE_TIMEOUT_SECS,
        recv_body_secs: BODY_TIMEOUT_SECS,
    }
}

/// Refuse every request whose URL is not the one destination, before anything is sent.
pub fn check_destination(request: &UpstreamRequest) -> (verdict: Result<(), GatewayError>)
    ensures
        verdict == if request.url@ == destination() {
            Ok::<(), GatewayError>(())
        } else {
            Err(GatewayError::UpstreamFailed)
        },
{
    if same_text(request.url.as_str(), upstream_url().as_str()) {
        Ok(())
    } else {
        Err(GatewayError::UpstreamFailed)
    }
}

/// The response headers to relay: those on the list, each with its value.
pub open spec fn relayed_back(headers: Map<Seq<char>, Seq<char>>) -> Map<Seq<char>, Seq<char>> {
    Map::new(
        |name: Seq<char>| listed(RELAYED_RESPONSE_HEADERS@, name) && headers.contains_key(name),
        |name: Seq<char>| headers[name],
    )
}

/// The head of the upstream's answer: its status as it is, and of its header fields those that
/// are relayed.
pub fn read_answer(status: u16, fields: &Vec<HeaderField>) -> (head: UpstreamHead)
    ensures
        head.status == status,
        head.headers@ == relayed_back(collected(fields@)),
{
    let all = collect_headers(fields);
    let mut headers = TextMap::new();
    let mut i: usize = 0;
    while i < RELAYED_RESPONSE_HEADERS.len()
        invariant
            i <= RELAYED_RESPONSE_HEADERS@.len(),
            all@ == collected(fields@),
            forall|name: Seq<char>| #[trigger]
                headers@.contains_key(name) ==> all@.contains_key(name) && headers@[name]
                    == all@[name] && listed(RELAYED_RESPONSE_HEADERS@, name),
            forall|k: int|
                0 <= k < i && all@.contains_key((#[trigger] RELAYED_RESPONSE_HEADERS@[k])@)
                    ==> headers@.contains_key(RELAYED_RESPONSE_HEADERS@[k]@),
        decreases RELAYED_RESPONSE_HEADERS@.len() - i,
    {
        let name: &'static str = RELAYED_RESPONSE_HEADERS[i];
        assert(listed(RELAYED_RESPONSE_HEADERS@, name@));
        if let Some(value) = all.get(name) {
            headers.insert(copy_of(name), value.clone());
        }
        i += 1;
    }
    proof {
        let goal = relayed_back(all@);
        assert forall|name: Seq<char>| #[trigger] headers@.dom().contains(name)
            == goal.dom().contains(name) by {}
        assert(headers@ =~= goal);
    }
    UpstreamHead { status, headers }
}

} // verus!
