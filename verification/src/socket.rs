//! The decisions of the loopback server: which request heads are let in, what a client is
//! answered, and what the two loops that move bytes do next. The server itself asks and obeys.
use vstd::prelude::*;

use crate::gateway::{
    auth_gate, gate_verdict, prepare, prepared, status_of, validate_route, GatewayError,
    GatewayMetrics, GatewayRequest, ProviderKind, UpstreamRequest, GATEWAY_PRESET,
};
use crate::listener::BindError;
use crate::text::{copy_of, lower, lowered};
use crate::text_map::TextMap;

verus! {

/// The port the gateway listens on unless the caller names another one.
pub const DEFAULT_PORT: u16 = 43117;

/// Ceiling on one local request body: 64 MiB. The gateway has to hold a whole body to compress
/// it, so this is what stops a local client from using up its memory.
pub const MAX_REQUEST_BODY_BYTES: usize = 64 * 1024 * 1024;

/// Connections served at once.
pub const MAX_LOCAL_CLIENTS: usize = 32;

/// Response chunks that may sit between the upstream reader and the local writer. The reader
/// parks on a full queue, so memory tracks this depth, never the length of the answer.
pub const RESPONSE_QUEUE_DEPTH: usize = 8;

/// Bytes taken from the upstream per relay step.
pub const RESPONSE_READ_SIZE: usize = 16 * 1024;

/// Seconds a local client may take to send its request headers.
pub const LOCAL_HEADER_TIMEOUT_SECS: u64 = 60;

/// What the server bounds.
#[derive(Debug, Clone, Copy, PartialEq, Eq, Structural)]
pub struct ServerLimits {
    pub max_request_body_bytes: usize,
    pub max_connections: usize,
}

impl Default for ServerLimits {
    fn default() -> (limits: ServerLimits)
        ensures
            limits.max_request_body_bytes == MAX_REQUEST_BODY_BYTES,
            limits.max_connections == MAX_LOCAL_CLIENTS,
    {
        ServerLimits {
            max_request_body_bytes: MAX_REQUEST_BODY_BYTES,
            max_connections: MAX_LOCAL_CLIENTS,
        }
    }
}

/// Why the gateway could not start listening.
#[derive(Debug, Clone, PartialEq, Eq)]
pub enum ServeError {
    /// The requested host was not IPv4 loopback.
    Bind(BindError),
    /// The operating system refused the bind, in its own words.
    Listen(String),
}

impl ServeError {
    /// The error in words.
    pub fn message(&self) -> (message: String)
        ensures
            message@ == match *self {
                ServeError::Bind(_) => "the codex gateway only binds 127.0.0.1"@,
                ServeError::Listen(error) => "could not listen on 127.0.0.1: "@ + error@,
            },
    {
        match self {
            ServeError::Bind(error) => copy_of(error.message()),
            ServeError::Listen(error) => {
                let mut message = copy_of("could not listen on 127.0.0.1: ");
                message.append(error.as_str());
                message
            },
        }
    }
}

// ----- the request head ---------------------------------------------------------------------

/// One header field as it came off the wire.
#[derive(Debug, Clone, PartialEq, Eq)]
pub struct HeaderField {
    pub name: String,
    pub value: Vec<u8>,
}

/// The bytes a readable header value is made of: visible ASCII, spaces and tabs.
pub open spec fn is_visible(b: u8) -> bool {
    32 <= b < 127 || b == 9
}

/// Whether a header value can be read as text.
pub open spec fn readable(value: Seq<u8>) -> bool {
    forall|i: int| 0 <= i < value.len() ==> is_visible(#[trigger] value[i])
}

/// A readable value as text, one character for each byte.
pub open spec fn text_of(value: Seq<u8>) -> Seq<char> {
    Seq::new(value.len(), |i: int| value[i] as char)
}

/// A header value as text, where all of its bytes are visible ASCII.
pub fn visible_text(value: &[u8]) -> (text: Option<String>)
    ensures
        match text {
            Some(text) => readable(value@) && text@ == text_of(value@),
            None => !readable(value@),
        },
{
    let mut text = String::new();
    let mut i: usize = 0;
    while i < value.len()
        invariant
            i <= value@.len(),
            forall|k: int| 0 <= k < i ==> is_visible(#[trigger] value@[k]),
            text@ == text_of(value@.take(i as int)),
        decreases value@.len() - i,
    {
        let b: u8 = value[i];
        if !((32 <= b && b < 127) || b == 9) {
            assert(!is_visible(value@[i as int]));
            return None;
        }
        text.push(b as char);
        assert(text@ =~= text_of(value@.take(i + 1)));
        i += 1;
    }
    assert(value@.take(i as int) =~= value@);
    Some(text)
}

/// The headers that a list of fields stands for: names in lowercase, unreadable values left out,
/// and of several values of one name the first.
pub open spec fn collected(fields: Seq<HeaderField>) -> Map<Seq<char>, Seq<char>>
    decreases fields.len(),
{
    if fields.len() == 0 {
        Map::empty()
    } else {
        let earlier = collected(fields.drop_last());
        let name = lower(fields.last().name@);
        let value = fields.last().value@;
        if readable(value) && !earlier.contains_key(name) {
            earlier.insert(name, text_of(value))
        } else {
            earlier
        }
    }
}

/// Collect the fields of a request head.
pub fn collect_headers(fields: &Vec<HeaderField>) -> (headers: TextMap)
    ensures
        headers@ == collected(fields@),
{
    let mut headers = TextMap::new();
    let mut i: usize = 0;
    while i < fields.len()
        invariant
            i <= fields@.len(),
            headers@ == collected(fields@.take(i as int)),
        decreases fields@.len() - i,
    {
        assert(fields@.take(i + 1).drop_last() =~= fields@.take(i as int));
        assert(fields@.take(i + 1).last() == fields@[i as int]);
        if let Some(value) = visible_text(fields[i].value.as_slice()) {
            headers.insert_if_absent(lowered(fields[i].name.as_str()), value);
        }
        i += 1;
    }
    assert(fields@.take(i as int) =~= fields@);
    headers
}

/// A request head that both gates let in.
#[derive(Debug, Clone, PartialEq, Eq)]
pub struct RequestHead {
    pub method: String,
    pub path: String,
    pub headers: TextMap,
}

/// What becomes of a request head. A target in absolute or authority form carries a destination,
/// so it is not a route; any other goes through the two gates.
pub open spec fn head_verdict(
    has_authority: bool,
    has_scheme: bool,
    method: Seq<char>,
    path: Seq<char>,
    fields: Seq<HeaderField>,
) -> Result<(), GatewayError> {
    if has_authority || has_scheme {
        Err(GatewayError::RouteNotFound)
    } else {
        gate_verdict(method, path, collected(fields))
    }
}

/// Admit a request head, before any of the body is read.
pub fn read_head(
    has_authority: bool,
    has_scheme: bool,
    method: &str,
    path: &str,
    fields: &Vec<HeaderField>,
) -> (head: Result<RequestHead, GatewayError>)
    ensures
        match head_verdict(has_authority, has_scheme, method@, path@, fields@) {
            Err(error) => head == Err::<RequestHead, GatewayError>(error),
            Ok(()) => head is Ok && head->Ok_0.method@ == method@ && head->Ok_0.path@ == path@
                && head->Ok_0.headers@ == collected(fields@),
        },
{
    if has_authority || has_scheme {
        return Err(GatewayError::RouteNotFound);
    }
    let headers = collect_headers(fields);
    if let Err(error) = validate_route(method, path) {
        return Err(error);
    }
    if let Err(error) = auth_gate(&headers) {
        return Err(error);
    }
    Ok(RequestHead { method: copy_of(method), path: copy_of(path), headers })
}

impl RequestHead {
    /// The request, once its body has been read.
    pub fn with_body(self, body: Vec<u8>) -> (request: GatewayRequest)
        ensures
            request.method == self.method,
            request.path == self.path,
            request.headers == self.headers,
            request.body == body,
    {
        GatewayRequest { method: self.method, path: self.path, headers: self.headers, body }
    }
}

/// Which refusal a failed body read is. Only an over-length body is a `413`; anything else is a
/// request the gateway could not read at all.
pub fn body_error(over_length: bool) -> (error: GatewayError)
    ensures
        error == if over_length {
            GatewayError::RequestTooLarge
        } else {
            GatewayError::MalformedRequest
        },
{
    if over_length {
        GatewayError::RequestTooLarge
    } else {
        GatewayError::MalformedRequest
    }
}

/// What came of reading a request body.
#[derive(Debug, Clone, PartialEq, Eq)]
pub enum BodyRead {
    /// All of it.
    Whole(Vec<u8>),
    /// More than the server takes.
    OverLength,
    /// It broke off, or could not be read.
    Broken,
}

/// What becomes of a request once its body has been read, or has not: the request to send, or a
/// refusal. Both entry points run the same policy, so the two gates are asked once more here.
pub fn relay_body<F: Fn(&str, ProviderKind, &str) -> Option<String>>(
    head: RequestHead,
    read: BodyRead,
    transform: &F,
) -> (result: Result<(UpstreamRequest, GatewayMetrics), GatewayError>)
    requires
        forall|text: &str, preset: &str|
            preset@ == GATEWAY_PRESET@ ==> #[trigger] call_requires(
                *transform,
                (text, ProviderKind::OpenAi, preset),
            ),
    ensures
        match read {
            BodyRead::Whole(body) => prepared(
                (GatewayRequest {
                    method: head.method,
                    path: head.path,
                    headers: head.headers,
                    body,
                }),
                *transform,
                result,
            ),
            BodyRead::OverLength => result == Err::<(UpstreamRequest, GatewayMetrics), GatewayError>(
                GatewayError::RequestTooLarge,
            ),
            BodyRead::Broken => result == Err::<(UpstreamRequest, GatewayMetrics), GatewayError>(
                GatewayError::MalformedRequest,
            ),
        },
{
    match read {
        BodyRead::Whole(body) => prepare(&head.with_body(body), transform),
        BodyRead::OverLength => Err(body_error(true)),
        BodyRead::Broken => Err(body_error(false)),
    }
}

// ----- the answer ---------------------------------------------------------------------------

/// Status and relayed headers of the upstream's answer, known before its body has arrived.
#[derive(Debug, Clone, PartialEq, Eq)]
pub struct UpstreamHead {
    pub status: u16,
    pub headers: TextMap,
}

/// The two bodies the gateway ever answers with.
#[derive(Debug, Clone, Copy, PartialEq, Eq, Structural)]
pub enum ReplyBody {
    /// Nothing at all.
    Empty,
    /// The queue that the upstream reader feeds.
    Streaming,
}

/// What a local client is answered.
#[derive(Debug, Clone, PartialEq, Eq)]
pub struct LocalReply {
    pub status: u16,
    pub headers: TextMap,
    pub body: ReplyBody,
}

/// A refusal carries a status and nothing else: no body, no echoed header, no reason text.
pub fn refuse(error: &GatewayError) -> (reply: LocalReply)
    ensures
        reply.status == status_of(*error),
        reply.headers@ == Map::<Seq<char>, Seq<char>>::empty(),
        reply.body == ReplyBody::Empty,
{
    LocalReply { status: error.status(), headers: TextMap::new(), body: ReplyBody::Empty }
}

/// The head of the upstream's answer, where `received` is what came back from the thread that
/// runs the upstream leg: nothing at all where it ended without a word.
pub fn upstream_head(received: Option<Result<UpstreamHead, GatewayError>>) -> (head: Result<
    UpstreamHead,
    GatewayError,
>)
    ensures
        head == match received {
            Some(head) => head,
            None => Err::<UpstreamHead, GatewayError>(GatewayError::UpstreamFailed),
        },
{
    match received {
        Some(head) => head,
        None => Err(GatewayError::UpstreamFailed),
    }
}

/// What the client is answered: the upstream's own status and headers with its body streamed
/// behind them, or a bare refusal.
pub fn respond(head: Result<UpstreamHead, GatewayError>) -> (reply: LocalReply)
    ensures
        match head {
            Ok(head) => reply.status == head.status && reply.headers == head.headers && reply.body
                == ReplyBody::Streaming,
            Err(error) => reply.status == status_of(error) && reply.headers@ == Map::<
                Seq<char>,
                Seq<char>,
            >::empty() && reply.body == ReplyBody::Empty,
        },
{
    match head {
        Ok(head) => LocalReply {
            status: head.status,
            headers: head.headers,
            body: ReplyBody::Streaming,
        },
        Err(error) => refuse(&error),
    }
}

// ----- the upstream leg ---------------------------------------------------------------------

/// Where the upstream leg stands.
#[derive(Debug, Clone, Copy, PartialEq, Eq, Structural)]
pub enum PumpState {
    /// The request is on its way.
    Sending,
    /// The head of the answer is on its way to the client.
    Opening,
    /// The next piece of the body is awaited.
    Reading,
    /// A piece of the body is on its way to the client.
    Queuing,
    /// Nothing more happens.
    Done,
}

/// What happened to the upstream leg.
#[derive(Debug, PartialEq, Eq)]
pub enum PumpEvent {
    /// The upstream answered, or could not be reached.
    Replied(Result<UpstreamHead, GatewayError>),
    /// The head was handed over: whether anyone took it.
    HeadTaken(bool),
    /// A read gave these bytes: none at the end of the body.
    Received(Vec<u8>),
    /// A read failed.
    ReadFailed,
    /// A chunk was queued: whether anyone is there to take it.
    Queued(bool),
}

/// What the upstream leg does next.
#[derive(Debug, PartialEq, Eq)]
pub enum PumpAction {
    /// Hand the head, or the error in its place, to the client's side.
    DeliverHead(Result<UpstreamHead, GatewayError>),
    /// Read the next piece of the body.
    Read,
    /// Queue this chunk, and wait while the queue is full.
    Queue(Vec<u8>),
    /// Queue the read error, and stop.
    QueueFailure,
    /// Stop.
    Stop,
}

/// The next state and action of the upstream leg. An event that does not fit the state ends it.
pub open spec fn pump_step(state: PumpState, event: PumpEvent) -> (PumpState, PumpAction) {
    match (state, event) {
        (PumpState::Sending, PumpEvent::Replied(Ok(head))) => (
            PumpState::Opening,
            PumpAction::DeliverHead(Ok(head)),
        ),
        (PumpState::Sending, PumpEvent::Replied(Err(error))) => (
            PumpState::Done,
            PumpAction::DeliverHead(Err(error)),
        ),
        (PumpState::Opening, PumpEvent::HeadTaken(true)) => (PumpState::Reading, PumpAction::Read),
        (PumpState::Reading, PumpEvent::Received(bytes)) => if bytes@.len() == 0 {
            (PumpState::Done, PumpAction::Stop)
        } else {
            (PumpState::Queuing, PumpAction::Queue(bytes))
        },
        (PumpState::Reading, PumpEvent::ReadFailed) => (PumpState::Done, PumpAction::QueueFailure),
        (PumpState::Queuing, PumpEvent::Queued(true)) => (PumpState::Reading, PumpAction::Read),
        _ => (PumpState::Done, PumpAction::Stop),
    }
}

/// Decide what the upstream leg does next.
pub fn pump_next(state: PumpState, event: PumpEvent) -> (next: (PumpState, PumpAction))
    ensures
        next == pump_step(state, event),
{
    match (state, event) {
        (PumpState::Sending, PumpEvent::Replied(Ok(head))) => (
            PumpState::Opening,
            PumpAction::DeliverHead(Ok(head)),
        ),
        (PumpState::Sending, PumpEvent::Replied(Err(error))) => (
            PumpState::Done,
            PumpAction::DeliverHead(Err(error)),
        ),
        (PumpState::Opening, PumpEvent::HeadTaken(true)) => (PumpState::Reading, PumpAction::Read),
        (PumpState::Reading, PumpEvent::Received(bytes)) => if bytes.len() == 0 {
            (PumpState::Done, PumpAction::Stop)
        } else {
            (PumpState::Queuing, PumpAction::Queue(bytes))
        },
        (PumpState::Reading, PumpEvent::ReadFailed) => (PumpState::Done, PumpAction::QueueFailure),
        (PumpState::Queuing, PumpEvent::Queued(true)) => (PumpState::Reading, PumpAction::Read),
        _ => (PumpState::Done, PumpAction::Stop),
    }
}

/// The chunk that a read of `read` bytes into `buffer` gave.
pub fn read_chunk(buffer: &[u8], read: usize) -> (chunk: Vec<u8>)
    requires
        read <= buffer@.len(),
    ensures
        chunk@ == buffer@.take(read as int),
{
    let mut chunk: Vec<u8> = Vec::new();
    let mut i: usize = 0;
    while i < read
        invariant
            i <= read <= buffer@.len(),
            chunk@ == buffer@.take(i as int),
        decreases read - i,
    {
        chunk.push(buffer[i]);
        i += 1;
    }
    chunk
}

/// The state after a run of events.
pub open spec fn pump_state(start: PumpState, events: Seq<PumpEvent>) -> PumpState
    decreases events.len(),
{
    if events.len() == 0 {
        start
    } else {
        pump_step(pump_state(start, events.drop_last()), events.last()).0
    }
}

/// The chunks that a run of events has queued for the client, in order.
pub open spec fn queued(start: PumpState, events: Seq<PumpEvent>) -> Seq<Seq<u8>>
    decreases events.len(),
{
    if events.len() == 0 {
        Seq::empty()
    } else {
        let earlier = queued(start, events.drop_last());
        match pump_step(pump_state(start, events.drop_last()), events.last()).1 {
            PumpAction::Queue(bytes) => earlier.push(bytes@),
            _ => earlier,
        }
    }
}

/// The nonempty pieces that the upstream produced in a run of events, in order.
pub open spec fn produced(events: Seq<PumpEvent>) -> Seq<Seq<u8>>
    decreases events.len(),
{
    if events.len() == 0 {
        Seq::empty()
    } else {
        let earlier = produced(events.drop_last());
        match events.last() {
            PumpEvent::Received(bytes) => if bytes@.len() > 0 {
                earlier.push(bytes@)
            } else {
                earlier
            },
            _ => earlier,
        }
    }
}

/// Whatever happens on either side, what the client is given is a prefix of what the upstream
/// produced: nothing is merged, reordered, rewritten, repeated or skipped. While the leg is alive
/// it is all of it.
pub proof fn law_relay_is_in_order(events: Seq<PumpEvent>)
    ensures
        queued(PumpState::Sending, events).is_prefix_of(produced(events)),
        pump_state(PumpState::Sending, events) != PumpState::Done ==> queued(
            PumpState::Sending,
            events,
        ) == produced(events),
    decreases events.len(),
{
    if events.len() > 0 {
        law_relay_is_in_order(events.drop_last());
    }
}

/// How many heads a run of events has handed to the client's side.
pub open spec fn heads_delivered(events: Seq<PumpEvent>) -> nat
    decreases events.len(),
{
    if events.len() == 0 {
        0
    } else {
        let earlier = events.drop_last();
        heads_delivered(earlier) + match pump_step(
            pump_state(PumpState::Sending, earlier),
            events.last(),
        ).1 {
            PumpAction::DeliverHead(_) => 1nat,
            _ => 0nat,
        }
    }
}

/// The client's side is handed one head at most, however the exchange goes, and no chunk before
/// it: there is no retry and no second answer.
pub proof fn law_one_head_and_first(events: Seq<PumpEvent>)
    ensures
        heads_delivered(events) <= 1,
        pump_state(PumpState::Sending, events) == PumpState::Sending ==> heads_delivered(events)
            == 0,
        queued(PumpState::Sending, events).len() > 0 ==> heads_delivered(events) == 1,
        pump_state(PumpState::Sending, events) == PumpState::Reading || pump_state(
            PumpState::Sending,
            events,
        ) == PumpState::Queuing || pump_state(PumpState::Sending, events) == PumpState::Opening
            ==> heads_delivered(events) == 1,
    decreases events.len(),
{
    if events.len() > 0 {
        law_one_head_and_first(events.drop_last());
    }
}

/// The events of an answer that arrives whole: a head, each of `chunks` in turn, and the end.
pub open spec fn whole_answer(head: UpstreamHead, chunks: Seq<Vec<u8>>) -> Seq<PumpEvent>
    decreases chunks.len(),
{
    if chunks.len() == 0 {
        seq![PumpEvent::Replied(Ok(head)), PumpEvent::HeadTaken(true)]
    } else {
        whole_answer(head, chunks.drop_last()).push(PumpEvent::Received(chunks.last())).push(
            PumpEvent::Queued(true),
        )
    }
}

/// An answer that arrives whole, read by a client that stays, reaches it whole: every chunk, in
/// the order the upstream produced them, and the leg is then ready for the next.
pub proof fn law_whole_answer_is_relayed(head: UpstreamHead, chunks: Seq<Vec<u8>>)
    requires
        forall|i: int| 0 <= i < chunks.len() ==> (#[trigger] chunks[i])@.len() > 0,
    ensures
        pump_state(PumpState::Sending, whole_answer(head, chunks)) == PumpState::Reading,
        queued(PumpState::Sending, whole_answer(head, chunks)) == chunks.map_values(
            |chunk: Vec<u8>| chunk@,
        ),
    decreases chunks.len(),
{
    reveal_with_fuel(pump_state, 3);
    reveal_with_fuel(queued, 3);
    let events = whole_answer(head, chunks);
    if chunks.len() == 0 {
        let first = events.drop_last();
        assert(first =~= seq![PumpEvent::Replied(Ok(head))]);
        assert(first.drop_last() =~= Seq::<PumpEvent>::empty());
        assert(pump_state(PumpState::Sending, first) == PumpState::Opening);
        assert(queued(PumpState::Sending, first) =~= Seq::<Seq<u8>>::empty());
        assert(queued(PumpState::Sending, events) =~= chunks.map_values(|chunk: Vec<u8>| chunk@));
    } else {
        let earlier = whole_answer(head, chunks.drop_last());
        let received = earlier.push(PumpEvent::Received(chunks.last()));
        assert(events.drop_last() =~= received);
        assert(received.drop_last() =~= earlier);
        law_whole_answer_is_relayed(head, chunks.drop_last());
        assert(chunks.last() == chunks[chunks.len() - 1]);
        assert(pump_state(PumpState::Sending, received) == PumpState::Queuing);
        assert(queued(PumpState::Sending, events) =~= chunks.map_values(|chunk: Vec<u8>| chunk@));
    }
}

// ----- accepting connections ----------------------------------------------------------------

/// Where the accept loop stands.
#[derive(Debug, Clone, Copy, PartialEq, Eq, Structural)]
pub enum AcceptState {
    /// A permit is awaited. With every permit out the loop waits here, instead of queuing
    /// connections it cannot serve.
    Acquiring,
    /// One permit is held, and a connection is awaited.
    Listening,
    /// The listener is gone.
    Closed,
}

/// What happened to the accept loop.
#[derive(Debug, Clone, Copy, PartialEq, Eq, Structural)]
pub enum AcceptEvent {
    /// A permit became free and was taken.
    PermitGranted,
    /// There will be no more permits.
    PermitsClosed,
    /// The gateway was told to stop.
    StopRequested,
    /// A connection came in.
    Accepted,
    /// A connection could not be accepted.
    AcceptFailed,
}

/// What the accept loop does next.
#[derive(Debug, Clone, Copy, PartialEq, Eq, Structural)]
pub enum AcceptAction {
    /// Wait for a connection, or to be told to stop.
    AwaitConnection,
    /// Serve the connection, which keeps the permit until it ends, and wait for the next permit.
    Serve,
    /// Give the permit back, and wait for the next.
    ReturnPermit,
    /// Drop the listener, which frees the port, then end the connections still open.
    Close,
}

/// The next state and action of the accept loop. An event that does not fit the state closes it.
pub open spec fn accept_step(state: AcceptState, event: AcceptEvent) -> (
    AcceptState,
    AcceptAction,
) {
    match (state, event) {
        (AcceptState::Acquiring, AcceptEvent::PermitGranted) => (
            AcceptState::Listening,
            AcceptAction::AwaitConnection,
        ),
        (AcceptState::Listening, AcceptEvent::Accepted) => (
            AcceptState::Acquiring,
            AcceptAction::Serve,
        ),
        (AcceptState::Listening, AcceptEvent::AcceptFailed) => (
            AcceptState::Acquiring,
            AcceptAction::ReturnPermit,
        ),
        _ => (AcceptState::Closed, AcceptAction::Close),
    }
}

/// Decide what the accept loop does next.
pub fn accept_next(state: AcceptState, event: AcceptEvent) -> (next: (AcceptState, AcceptAction))
    ensures
        next == accept_step(state, event),
{
    match (state, event) {
        (AcceptState::Acquiring, AcceptEvent::PermitGranted) => (
            AcceptState::Listening,
            AcceptAction::AwaitConnection,
        ),
        (AcceptState::Listening, AcceptEvent::Accepted) => (
            AcceptState::Acquiring,
            AcceptAction::Serve,
        ),
        (AcceptState::Listening, AcceptEvent::AcceptFailed) => (
            AcceptState::Acquiring,
            AcceptAction::ReturnPermit,
        ),
        _ => (AcceptState::Closed, AcceptAction::Close),
    }
}

/// The state of the accept loop after a run of events.
pub open spec fn accept_state(events: Seq<AcceptEvent>) -> AcceptState
    decreases events.len(),
{
    if events.len() == 0 {
        AcceptState::Acquiring
    } else {
        accept_step(accept_state(events.drop_last()), events.last()).0
    }
}

/// How often a run of events led to `action`.
pub open spec fn times(events: Seq<AcceptEvent>, action: AcceptAction) -> nat
    decreases events.len(),
{
    if events.len() == 0 {
        0
    } else {
        times(events.drop_last(), action) + if accept_step(
            accept_state(events.drop_last()),
            events.last(),
        ).1 == action {
            1nat
        } else {
            0nat
        }
    }
}

/// Every connection that is served holds a permit of its own: of the permits that were granted,
/// each went to one connection, was given back, or is the one in hand.
pub proof fn law_one_permit_for_each_connection(events: Seq<AcceptEvent>)
    ensures
        times(events, AcceptAction::Serve) + times(events, AcceptAction::ReturnPermit) <= times(
            events,
            AcceptAction::AwaitConnection,
        ),
        accept_state(events) == AcceptState::Acquiring ==> times(events, AcceptAction::Serve)
            + times(events, AcceptAction::ReturnPermit) == times(
            events,
            AcceptAction::AwaitConnection,
        ),
        accept_state(events) == AcceptState::Listening ==> times(events, AcceptAction::Serve)
            + times(events, AcceptAction::ReturnPermit) + 1 == times(
            events,
            AcceptAction::AwaitConnection,
        ),
    decreases events.len(),
{
    if events.len() > 0 {
        law_one_permit_for_each_connection(events.drop_last());
    }
}

/// The permits out after a run of events, where `ended` of the connections served have ended: those
/// granted, less those given back and those of the connections that ended.
pub open spec fn permits_out(events: Seq<AcceptEvent>, ended: nat) -> int {
    times(events, AcceptAction::AwaitConnection) - times(events, AcceptAction::ReturnPermit) - ended
}

/// The connections being served after a run of events, where `ended` of those served have ended.
pub open spec fn serving(events: Seq<AcceptEvent>, ended: nat) -> int {
    times(events, AcceptAction::Serve) - ended
}

/// Where no more than `limit` permits are out, no more than `limit` connections are being served,
/// and fewer while the loop listens. With `limit` of them being served nobody else is, whatever
/// happens next, until one of them ends.
pub proof fn law_no_more_connections_than_permits(
    events: Seq<AcceptEvent>,
    ended: nat,
    limit: nat,
)
    requires
        permits_out(events, ended) <= limit,
    ensures
        serving(events, ended) <= limit,
        accept_state(events) == AcceptState::Listening ==> serving(events, ended) < limit,
        serving(events, ended) == limit ==> forall|event: AcceptEvent|
            (#[trigger] accept_step(accept_state(events), event)).1 != AcceptAction::Serve,
{
    law_one_permit_for_each_connection(events);
}

/// What happens in a server: to its accept loop, or to a connection that it serves.
#[derive(Debug, Clone, Copy, PartialEq, Eq, Structural)]
pub enum ServerEvent {
    Loop(AcceptEvent),
    /// A connection ended, and its permit is free again.
    ConnectionEnded,
}

/// What of a run happened to the accept loop.
pub open spec fn loop_events(run: Seq<ServerEvent>) -> Seq<AcceptEvent>
    decreases run.len(),
{
    if run.len() == 0 {
        Seq::empty()
    } else {
        match run.last() {
            ServerEvent::Loop(event) => loop_events(run.drop_last()).push(event),
            ServerEvent::ConnectionEnded => loop_events(run.drop_last()),
        }
    }
}

/// How many connections ended in a run.
pub open spec fn ended_in(run: Seq<ServerEvent>) -> nat
    decreases run.len(),
{
    if run.len() == 0 {
        0
    } else {
        ended_in(run.drop_last()) + if run.last() == ServerEvent::ConnectionEnded {
            1nat
        } else {
            0nat
        }
    }
}

/// Whether a run can happen with `limit` permits: one is granted only while fewer than `limit` are
/// out, and a connection ends only while one is being served.
pub open spec fn can_happen(run: Seq<ServerEvent>, limit: nat) -> bool
    decreases run.len(),
{
    run.len() > 0 ==> {
        let earlier = run.drop_last();
        let events = loop_events(earlier);
        &&& can_happen(earlier, limit)
        &&& run.last() == ServerEvent::Loop(AcceptEvent::PermitGranted) ==> permits_out(
            events,
            ended_in(earlier),
        ) < limit
        &&& run.last() == ServerEvent::ConnectionEnded ==> serving(events, ended_in(earlier)) > 0
    }
}

/// At no moment of a run that can happen with `limit` permits are more than `limit` connections
/// being served, nor more than `limit` permits out; fewer are served while the loop listens; and
/// while `limit` of them are, nobody else is let in.
pub proof fn law_connections_are_limited_throughout(run: Seq<ServerEvent>, limit: nat)
    requires
        can_happen(run, limit),
    ensures
        0 <= serving(loop_events(run), ended_in(run)) <= permits_out(
            loop_events(run),
            ended_in(run),
        ) <= limit,
        accept_state(loop_events(run)) == AcceptState::Listening ==> serving(
            loop_events(run),
            ended_in(run),
        ) < limit,
        serving(loop_events(run), ended_in(run)) == limit ==> forall|event: AcceptEvent|
            (#[trigger] accept_step(accept_state(loop_events(run)), event)).1
                != AcceptAction::Serve,
        forall|moment: int|
            0 <= moment <= run.len() ==> {
                let so_far = #[trigger] run.take(moment);
                0 <= serving(loop_events(so_far), ended_in(so_far)) <= limit
            },
    decreases run.len(),
{
    let events = loop_events(run);
    if run.len() > 0 {
        let earlier = run.drop_last();
        law_connections_are_limited_throughout(earlier, limit);
        if let ServerEvent::Loop(event) = run.last() {
            assert(events.drop_last() =~= loop_events(earlier));
        }
        assert forall|moment: int| 0 <= moment < run.len() implies #[trigger] run.take(moment)
            == earlier.take(moment) by {
            assert(run.take(moment) =~= earlier.take(moment));
        }
    }
    law_one_permit_for_each_connection(events);
    law_no_more_connections_than_permits(events, ended_in(run), limit);
    assert(run.take(run.len() as int) =~= run);
}

/// A failed accept neither ends the loop nor uses up a place: the loop goes back to waiting for a
/// permit, it serves as many connections as before, and one permit fewer is out.
pub proof fn law_failed_accept_costs_nothing(events: Seq<AcceptEvent>, ended: nat)
    requires
        accept_state(events) == AcceptState::Listening,
    ensures
        accept_state(events.push(AcceptEvent::AcceptFailed)) == AcceptState::Acquiring,
        serving(events.push(AcceptEvent::AcceptFailed), ended) == serving(events, ended),
        permits_out(events.push(AcceptEvent::AcceptFailed), ended) == permits_out(events, ended)
            - 1,
{
    assert(events.push(AcceptEvent::AcceptFailed).drop_last() =~= events);
}

/// Once closed, the loop serves nobody: whatever comes in later, the number of connections served
/// stays what it was.
pub proof fn law_closed_stays_closed(events: Seq<AcceptEvent>, later: AcceptEvent)
    requires
        accept_state(events) == AcceptState::Closed,
    ensures
        accept_state(events.push(later)) == AcceptState::Closed,
        times(events.push(later), AcceptAction::Serve) == times(events, AcceptAction::Serve),
{
    assert(events.push(later).drop_last() =~= events);
}

} // verus!
