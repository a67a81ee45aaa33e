//! The wire: frames, messages, who may ask what, and the replies.
//!
//! A frame is its length in four bytes, low byte first, and a canonical CBOR
//! map whose `type` says what it is.

use vstd::prelude::*;
use crate::bytes::{
    le_bytes, le_int, lemma_le_round_trip, lemma_pow256, push_all, push_le, read_le, slice_of,
};
use crate::cbor::{map_value, texts_value, value_or_null, views, Cbor, CborV};
use crate::cells::registry::{AgentRegistryCell, RegistryV};
use crate::text::{cat3, dec_text, str_eq, u64_text};
use crate::vocab::{agrees, ErrCode, ErrV, Intent, UcError, UcResult};

verus! {

/// The largest body of a frame, in bytes.
pub const MAX_FRAME: usize = 16_777_216;

/// The version of the wire.
pub const PROTO_VERSION: u64 = 1;

/// The bytes of a frame.
pub open spec fn framed(body: Seq<u8>) -> Seq<u8> {
    le_bytes(body.len(), 4) + body
}

/// Appends a frame. A body that is too large is refused.
pub fn write_frame(out: &mut Vec<u8>, body: &[u8]) -> (r: Result<(), String>)
    ensures
        if body@.len() > MAX_FRAME {
            r is Err && r->Err_0@ == "frame of "@ + dec_text(body@.len())
                + " bytes exceeds MAX_FRAME"@ && final(out)@ == old(out)@
        } else {
            r is Ok && final(out)@ == old(out)@ + framed(body@)
        },
{
    if body.len() > MAX_FRAME {
        return Err(
            cat3(
                "frame of ",
                u64_text(body.len() as u64).as_str(),
                " bytes exceeds MAX_FRAME",
            ),
        );
    }
    let ghost before = out@;
    push_le(out, body.len() as u64, 4);
    push_all(out, body);
    assert(out@ =~= before + framed(body@));
    Ok(())
}

/// What stands at a place of a stream: nothing more at its end; an error where the
/// length is cut off or too large, or the body is cut off; or a body and the place
/// behind it.
pub open spec fn frame_at(b: Seq<u8>, pos: int) -> Result<Option<(Seq<u8>, int)>, Seq<char>> {
    if b.len() == pos {
        Ok(None)
    } else if b.len() - pos < 4 {
        Err("failed to fill whole buffer"@)
    } else {
        let len = le_int(b.subrange(pos, pos + 4));
        if len > MAX_FRAME {
            Err("incoming frame of "@ + dec_text(len) + " bytes exceeds MAX_FRAME"@)
        } else if b.len() - pos - 4 < len {
            Err("failed to fill whole buffer"@)
        } else {
            Ok(Some((b.subrange(pos + 4, pos + 4 + len), pos + 4 + len)))
        }
    }
}

/// The length that a frame's first bytes give, if it may be read.
pub fn frame_len(header: &[u8]) -> (r: Result<usize, String>)
    requires
        header@.len() == 4,
    ensures
        match r {
            Ok(n) => n == le_int(header@) && n <= MAX_FRAME,
            Err(e) => le_int(header@) > MAX_FRAME && e@ == "incoming frame of "@ + dec_text(
                le_int(header@),
            ) + " bytes exceeds MAX_FRAME"@,
        },
{
    let len: u64 = read_le(header, 0, 4);
    assert(header@.subrange(0, 4) =~= header@);
    if len > MAX_FRAME as u64 {
        return Err(
            cat3("incoming frame of ", u64_text(len).as_str(), " bytes exceeds MAX_FRAME"),
        );
    }
    Ok(len as usize)
}

/// Reads the frame at a place of a stream.
pub fn read_frame(b: &[u8], pos: usize) -> (r: Result<Option<(Vec<u8>, usize)>, String>)
    requires
        pos <= b@.len(),
    ensures
        match (r, frame_at(b@, pos as int)) {
            (Ok(Some(a)), Ok(Some(w))) => a.0@ == w.0 && a.1 == w.1 && a.1 <= b@.len(),
            (Ok(None), Ok(None)) => true,
            (Err(e), Err(w)) => e@ == w,
            _ => false,
        },
{
    if b.len() == pos {
        return Ok(None);
    }
    if b.len() - pos < 4 {
        return Err("failed to fill whole buffer".to_string());
    }
    let header = slice_of(b, pos, pos + 4);
    match frame_len(header.as_slice()) {
        Err(e) => Err(e),
        Ok(len) => {
            if b.len() - pos - 4 < len {
                return Err("failed to fill whole buffer".to_string());
            }
            let body = slice_of(b, pos + 4, pos + 4 + len);
            Ok(Some((body, pos + 4 + len)))
        },
    }
}

/// A frame that was written is read back, wherever it stands, and the next one
/// begins behind it.
pub proof fn lemma_frame_back(before: Seq<u8>, body: Seq<u8>, after: Seq<u8>)
    requires
        body.len() <= MAX_FRAME,
    ensures
        frame_at(before + framed(body) + after, before.len() as int) == Ok::<_, Seq<char>>(
            Some((body, (before.len() + 4 + body.len()) as int)),
        ),
{
    let b = before + framed(body) + after;
    let pos = before.len() as int;
    lemma_pow256();
    lemma_le_round_trip(body.len(), 4);
    assert(b.subrange(pos, pos + 4) =~= le_bytes(body.len(), 4));
    assert(b.subrange(pos + 4, pos + 4 + body.len()) =~= body);
}

/// A stream of frames ends only behind a whole one: what is left of a frame that
/// was cut off anywhere is an error, and no end.
pub proof fn lemma_cut_frame(before: Seq<u8>, body: Seq<u8>, n: int)
    requires
        body.len() <= MAX_FRAME,
        0 <= n < framed(body).len(),
    ensures
        frame_at(before + framed(body).take(n), before.len() as int) == if n == 0 {
            Ok::<Option<(Seq<u8>, int)>, Seq<char>>(None)
        } else {
            Err("failed to fill whole buffer"@)
        },
{
    let b = before + framed(body).take(n);
    let pos = before.len() as int;
    if n >= 4 {
        lemma_pow256();
        lemma_le_round_trip(body.len(), 4);
        assert(b.subrange(pos, pos + 4) =~= le_bytes(body.len(), 4));
    }
}

/// What a node can do.
pub open spec fn abilities() -> CborV {
    map_value(
        seq![
            ("semantic_check_supported"@, CborV::Bool(true)),
            ("tiers"@, texts_value(seq!["L0"@, "L1"@, "L2"@, "L3"@])),
            ("views_builtin"@, CborV::Bool(true)),
            ("cross_check_ledger"@, CborV::Bool(true)),
            ("events_pull_supported"@, CborV::Bool(true)),
            ("admin_capability_required"@, CborV::Bool(true)),
        ],
    )
}

/// The answer to a greeting.
pub open spec fn hello_value(node_id: Seq<char>) -> CborV {
    map_value(
        seq![
            ("type"@, CborV::Text("hello_ack"@)),
            ("node_id"@, CborV::Text(node_id)),
            ("proto_version"@, CborV::U64(PROTO_VERSION)),
            ("capability_bits"@, abilities()),
        ],
    )
}

/// The answer to a greeting.
pub fn hello_ack(node_id: &str) -> (r: Cbor)
    ensures
        r@ == hello_value(node_id@),
{
    let tiers = vec!["L0".to_string(), "L1".to_string(), "L2".to_string(), "L3".to_string()];
    let ghost tv = crate::cbor::text_views(tiers@);
    assert(tv =~= seq!["L0"@, "L1"@, "L2"@, "L3"@]);
    let pairs = vec![
        ("semantic_check_supported", Cbor::Bool(true)),
        ("tiers", Cbor::text_array(tiers.as_slice())),
        ("views_builtin", Cbor::Bool(true)),
        ("cross_check_ledger", Cbor::Bool(true)),
        ("events_pull_supported", Cbor::Bool(true)),
        ("admin_capability_required", Cbor::Bool(true)),
    ];
    let ghost got = Seq::new(pairs@.len(), |i: int| (pairs@[i].0@, pairs@[i].1@));
    let bits = Cbor::map(pairs);
    assert(bits@ == map_value(got));
    assert(bits@->Pairs_0 =~= abilities()->Pairs_0);
    Cbor::map4(
        "type",
        Cbor::t("hello_ack"),
        "node_id",
        Cbor::t(node_id),
        "proto_version",
        Cbor::U64(PROTO_VERSION),
        "capability_bits",
        bits,
    )
}

/// What a capability token says, once it was read and its signature held.
#[derive(Debug)]
pub struct TokenFacts {
    pub agent_id: String,
    pub token_id: String,
    /// The token grants the operation that is asked for.
    pub grants: bool,
}

/// What a token says, as a mathematical object.
#[verifier::ext_equal]
pub struct TokenFactsV {
    pub agent_id: Seq<char>,
    pub token_id: Seq<char>,
    pub grants: bool,
}

impl DeepView for TokenFacts {
    type V = TokenFactsV;

    open spec fn deep_view(&self) -> TokenFactsV {
        TokenFactsV { agent_id: self.agent_id@, token_id: self.token_id@, grants: self.grants }
    }
}

/// The agent is registered and active.
pub open spec fn is_active(reg: RegistryV, agent: Seq<char>) -> bool {
    reg.agents.contains_key(agent) && reg.agents[agent].active
}

/// Why a message is refused although its token's signature holds, if it is: the
/// token is not the sender's, was revoked, belongs to nobody who is active, or
/// does not grant the operation.
pub open spec fn refusal(msg: CborV, t: TokenFactsV, reg: RegistryV, intent: Intent) -> Option<
    Seq<char>,
> {
    if msg.text_field("agent_id"@) is Some && msg.text_field("agent_id"@) != Some(t.agent_id) {
        Some("capability token agent_id does not match message agent_id"@)
    } else if reg.revoked.contains_key(t.token_id) {
        Some("capability token is revoked"@)
    } else if !is_active(reg, t.agent_id) {
        Some("capability token agent is not active"@)
    } else if !t.grants {
        Some("capability token does not grant `"@ + intent.name() + "`"@)
    } else {
        None
    }
}

/// The outcome of checking a message: refused without a token; where the token
/// could not be read or its signature does not hold, its own error; otherwise as
/// `refusal` says.
pub open spec fn checked(
    r: UcResult<TokenFacts>,
    msg: CborV,
    token: UcResult<TokenFacts>,
    reg: RegistryV,
    intent: Intent,
) -> bool {
    if msg.field("capability"@) is None {
        agrees(r, Err((ErrCode::PermissionDenied, "message missing capability token"@)))
    } else {
        match token {
            Err(e) => r == Err::<TokenFacts, UcError>(e),
            Ok(t) => match refusal(msg, t.deep_view(), reg, intent) {
                Some(m) => agrees(r, Err((ErrCode::PermissionDenied, m))),
                None => r == Ok::<TokenFacts, UcError>(t),
            },
        }
    }
}

fn active(registry: &AgentRegistryCell, agent: &str) -> (r: bool)
    ensures
        r == is_active(registry@, agent@),
{
    match registry.get(agent) {
        Some(a) => a.active,
        None => false,
    }
}

/// Checks whether the sender of a message may do what it asks for, given what was
/// made of its token.
pub fn verify_capability(
    msg: &Cbor,
    token: UcResult<TokenFacts>,
    registry: &AgentRegistryCell,
    intent: Intent,
) -> (r: UcResult<TokenFacts>)
    ensures
        checked(r, msg@, token, registry@, intent),
{
    if msg.get("capability").is_none() {
        return Err(UcError::denied("message missing capability token"));
    }
    let t = match token {
        Ok(t) => t,
        Err(e) => {
            return Err(e);
        },
    };
    if let Some(a) = msg.opt_str("agent_id") {
        if !str_eq(a.as_str(), t.agent_id.as_str()) {
            return Err(
                UcError::denied("capability token agent_id does not match message agent_id"),
            );
        }
    }
    if registry.is_revoked(t.token_id.as_str()) {
        return Err(UcError::denied("capability token is revoked"));
    }
    if !active(registry, t.agent_id.as_str()) {
        return Err(UcError::denied("capability token agent is not active"));
    }
    if !t.grants {
        return Err(
            UcError::denied(
                cat3("capability token does not grant `", intent.as_str(), "`").as_str(),
            ),
        );
    }
    Ok(t)
}

/// The agent is an active operator.
pub open spec fn is_operator(reg: RegistryV, agent: Seq<char>) -> bool {
    is_active(reg, agent) && reg.agents[agent].role == "operator"@
}

/// Checks whether the sender of a message may use the operator's plane.
pub fn verify_admin_capability(
    msg: &Cbor,
    token: UcResult<TokenFacts>,
    registry: &AgentRegistryCell,
) -> (r: UcResult<()>)
    ensures
        match (r, token) {
            (Ok(_), Ok(t)) => msg@.field("capability"@) is Some && refusal(
                msg@,
                t.deep_view(),
                registry@,
                Intent::Admin,
            ) is None && is_operator(registry@, t.deep_view().agent_id),
            (Ok(_), Err(_)) => false,
            (Err(e), _) => if msg@.field("capability"@) is None {
                e.plain(ErrCode::PermissionDenied, "message missing capability token"@)
            } else {
                match token {
                    Err(w) => e == w,
                    Ok(t) => match refusal(msg@, t.deep_view(), registry@, Intent::Admin) {
                        Some(m) => e.plain(ErrCode::PermissionDenied, m),
                        None => !is_operator(registry@, t.deep_view().agent_id) && e.plain(
                            ErrCode::PermissionDenied,
                            "admin capability must belong to an active operator"@,
                        ),
                    },
                }
            },
        },
{
    let t = match verify_capability(msg, token, registry, Intent::Admin) {
        Ok(t) => t,
        Err(e) => {
            return Err(e);
        },
    };
    let operator: bool = match registry.get(t.agent_id.as_str()) {
        Some(a) => a.active && str_eq(a.role.as_str(), "operator"),
        None => false,
    };
    if operator {
        Ok(())
    } else {
        Err(UcError::denied("admin capability must belong to an active operator"))
    }
}

/// Without a token nothing is granted, whatever else a message says.
pub proof fn lemma_no_token_no_access(
    r: UcResult<TokenFacts>,
    msg: CborV,
    token: UcResult<TokenFacts>,
    reg: RegistryV,
    intent: Intent,
)
    requires
        checked(r, msg, token, reg, intent),
        r is Ok,
    ensures
        msg.field("capability"@) is Some,
        !reg.revoked.contains_key(r->Ok_0.token_id@),
        is_active(reg, r->Ok_0.agent_id@),
        r->Ok_0.grants,
{
}

/// What a message is.
#[derive(Debug)]
pub enum Route {
    Hello,
    Request { envelope: Cbor },
    Events,
    Admin,
    Unknown { kind: Option<String> },
}

/// What a message is, as a mathematical object.
pub enum RouteV {
    Hello,
    Request { envelope: CborV },
    Events,
    Admin,
    Unknown { kind: Option<Seq<char>> },
}

impl DeepView for Route {
    type V = RouteV;

    open spec fn deep_view(&self) -> RouteV {
        match self {
            Route::Hello => RouteV::Hello,
            Route::Request { envelope } => RouteV::Request { envelope: envelope@ },
            Route::Events => RouteV::Events,
            Route::Admin => RouteV::Admin,
            Route::Unknown { kind } => RouteV::Unknown { kind: kind.deep_view() },
        }
    }
}

/// What a message is, by its `type`.
pub open spec fn route_of(msg: CborV) -> RouteV {
    let kind = msg.text_field("type"@);
    if kind == Some("hello"@) {
        RouteV::Hello
    } else if kind == Some("request"@) {
        RouteV::Request { envelope: value_or_null(msg, "envelope"@) }
    } else if kind == Some("events"@) {
        RouteV::Events
    } else if kind == Some("admin"@) {
        RouteV::Admin
    } else {
        RouteV::Unknown { kind }
    }
}

/// What a message is.
pub fn route(msg: &Cbor) -> (r: Route)
    ensures
        r.deep_view() == route_of(msg@),
{
    match msg.opt_str("type") {
        Some(t) => {
            if str_eq(t.as_str(), "hello") {
                Route::Hello
            } else if str_eq(t.as_str(), "request") {
                Route::Request { envelope: msg.value_or_null("envelope") }
            } else if str_eq(t.as_str(), "events") {
                Route::Events
            } else if str_eq(t.as_str(), "admin") {
                Route::Admin
            } else {
                Route::Unknown { kind: Some(t) }
            }
        },
        None => Route::Unknown { kind: None },
    }
}

/// The reply that carries a response.
pub fn response_reply(response: Cbor) -> (r: Cbor)
    ensures
        r@ == map_value(
            seq![("type"@, CborV::Text("response"@)), ("response"@, response@)],
        ),
{
    Cbor::map2("type", Cbor::t("response"), "response", response)
}

/// The reply to what could not be understood.
pub fn error_reply(message: &str) -> (r: Cbor)
    ensures
        r@ == map_value(
            seq![("type"@, CborV::Text("error"@)), ("err_message"@, CborV::Text(message@))],
        ),
{
    Cbor::map2("type", Cbor::t("error"), "err_message", Cbor::t(message))
}

/// A refused or failed message of a plane.
pub open spec fn failed(ack: Seq<char>, code: ErrCode, message: Seq<char>) -> CborV {
    map_value(
        seq![
            ("type"@, CborV::Text(ack)),
            ("ok"@, CborV::Bool(false)),
            ("err_code"@, CborV::Text(code.name())),
            ("err_message"@, CborV::Text(message)),
        ],
    )
}

fn failed_reply(ack: &str, e: &UcError) -> (r: Cbor)
    ensures
        r@ == failed(ack@, e.code, e.message@),
{
    Cbor::map4(
        "type",
        Cbor::t(ack),
        "ok",
        Cbor::Bool(false),
        "err_code",
        Cbor::t(e.code.as_str()),
        "err_message",
        Cbor::t(e.message.as_str()),
    )
}

/// The reply of the operator's plane.
pub fn admin_reply(result: UcResult<Cbor>) -> (r: Cbor)
    ensures
        r@ == match result {
            Ok(body) => map_value(
                seq![
                    ("type"@, CborV::Text("admin_ack"@)),
                    ("ok"@, CborV::Bool(true)),
                    ("result"@, body@),
                ],
            ),
            Err(e) => failed("admin_ack"@, e.code, e.message@),
        },
{
    match result {
        Ok(body) => Cbor::map3("type", Cbor::t("admin_ack"), "ok", Cbor::Bool(true), "result", body),
        Err(e) => failed_reply("admin_ack", &e),
    }
}

/// How events are asked for: those not yet delivered, or all after a number.
#[derive(Clone, Copy, Debug, PartialEq, Eq, Structural)]
pub enum EventsMode {
    Pending,
    Since { since: u64 },
}

impl DeepView for EventsMode {
    type V = EventsMode;

    open spec fn deep_view(&self) -> EventsMode {
        *self
    }
}

/// How a message asks for events.
pub open spec fn events_mode_of(msg: CborV) -> Result<EventsMode, ErrV> {
    let mode = msg.text_field("mode"@);
    if mode is None || mode == Some("pending"@) {
        Ok(EventsMode::Pending)
    } else if mode == Some("since"@) {
        Ok(
            EventsMode::Since {
                since: match msg.u64_field("since"@) {
                    Some(n) => n,
                    None => 0,
                },
            },
        )
    } else {
        Err((ErrCode::ContractViolation, "events mode must be `pending` or `since`"@))
    }
}

/// How a message asks for events.
pub fn events_mode(msg: &Cbor) -> (r: UcResult<EventsMode>)
    ensures
        agrees(r, events_mode_of(msg@)),
{
    match msg.opt_str("mode") {
        None => Ok(EventsMode::Pending),
        Some(m) => {
            if str_eq(m.as_str(), "pending") {
                Ok(EventsMode::Pending)
            } else if str_eq(m.as_str(), "since") {
                Ok(EventsMode::Since { since: msg.u64_or_zero("since") })
            } else {
                Err(UcError::schema("events mode must be `pending` or `since`"))
            }
        },
    }
}

/// An event.
#[derive(Debug)]
pub struct Event {
    pub seq: u64,
    pub name: String,
    pub payload: Cbor,
    pub logical_at: u64,
}

/// The encoded form of an event.
pub open spec fn event_value(e: Event) -> CborV {
    map_value(
        seq![
            ("seq"@, CborV::U64(e.seq)),
            ("name"@, CborV::Text(e.name@)),
            ("payload"@, e.payload@),
            ("logical_at"@, CborV::U64(e.logical_at)),
        ],
    )
}

/// The encoded form of an event.
pub fn event_to_cbor(e: &Event) -> (r: Cbor)
    ensures
        r@ == event_value(*e),
{
    Cbor::map4(
        "seq",
        Cbor::U64(e.seq),
        "name",
        Cbor::t(e.name.as_str()),
        "payload",
        e.payload.dup(),
        "logical_at",
        Cbor::U64(e.logical_at),
    )
}

/// The name of a way to ask for events.
pub open spec fn mode_name(m: EventsMode) -> Seq<char> {
    match m {
        EventsMode::Pending => "pending"@,
        EventsMode::Since { .. } => "since"@,
    }
}

/// The reply that delivers events.
pub fn events_reply(agent_id: &str, mode: EventsMode, events: &Vec<Event>, latest_seq: u64) -> (r: Cbor)
    ensures
        r@ == map_value(
            seq![
                ("type"@, CborV::Text("events_ack"@)),
                ("ok"@, CborV::Bool(true)),
                ("agent_id"@, CborV::Text(agent_id@)),
                ("mode"@, CborV::Text(mode_name(mode))),
                (
                    "events"@,
                    CborV::Array(Seq::new(events@.len(), |i: int| event_value(events@[i]))),
                ),
                ("latest_seq"@, CborV::U64(latest_seq)),
            ],
        ),
{
    let ghost want = Seq::new(events@.len(), |i: int| event_value(events@[i]));
    let mut out: Vec<Cbor> = Vec::new();
    let mut i: usize = 0;
    assert(views(out@) =~= want.take(0));
    while i < events.len()
        invariant
            i <= events@.len(),
            want == Seq::new(events@.len(), |i: int| event_value(events@[i])),
            views(out@) == want.take(i as int),
        decreases events.len() - i,
    {
        let ghost before = views(out@);
        let row = event_to_cbor(&events[i]);
        out.push(row);
        assert(views(out@) =~= before.push(row@));
        i += 1;
        assert(want.take(i as int) =~= want.take(i - 1).push(want[i - 1]));
    }
    assert(want.take(want.len() as int) =~= want);
    let name = match mode {
        EventsMode::Pending => "pending",
        EventsMode::Since { .. } => "since",
    };
    let pairs = vec![
        ("type", Cbor::t("events_ack")),
        ("ok", Cbor::Bool(true)),
        ("agent_id", Cbor::t(agent_id)),
        ("mode", Cbor::t(name)),
        ("events", Cbor::arr(out)),
        ("latest_seq", Cbor::U64(latest_seq)),
    ];
    let ghost got = Seq::new(pairs@.len(), |i: int| (pairs@[i].0@, pairs@[i].1@));
    let r = Cbor::map(pairs);
    assert(got =~= seq![
        ("type"@, CborV::Text("events_ack"@)),
        ("ok"@, CborV::Bool(true)),
        ("agent_id"@, CborV::Text(agent_id@)),
        ("mode"@, CborV::Text(mode_name(mode))),
        ("events"@, CborV::Array(want)),
        ("latest_seq"@, CborV::U64(latest_seq)),
    ]);
    r
}

/// The reply to a message for events that is refused.
pub fn events_refused(e: &UcError) -> (r: Cbor)
    ensures
        r@ == failed("events_ack"@, e.code, e.message@),
{
    failed_reply("events_ack", e)
}

/// The greeting of a client.
pub fn hello_message(agent_id: &str) -> (r: Cbor)
    ensures
        r@ == map_value(
            seq![
                ("type"@, CborV::Text("hello"@)),
                ("proto_version"@, CborV::U64(PROTO_VERSION)),
                ("agent_id"@, CborV::Text(agent_id@)),
            ],
        ),
{
    Cbor::map3(
        "type",
        Cbor::t("hello"),
        "proto_version",
        Cbor::U64(PROTO_VERSION),
        "agent_id",
        Cbor::t(agent_id),
    )
}

/// What a token adds to a message: itself and its agent.
pub open spec fn token_pairs(token: Option<(Cbor, String)>) -> Seq<(Seq<char>, CborV)> {
    match token {
        Some((t, a)) => seq![("capability"@, t@), ("agent_id"@, CborV::Text(a@))],
        None => Seq::empty(),
    }
}

/// The message that carries an operator's verb, with or without a token and its
/// agent.
pub fn admin_message(verb: &str, args: Cbor, token: Option<(Cbor, String)>) -> (r: Cbor)
    ensures
        r@ == map_value(
            seq![
                ("type"@, CborV::Text("admin"@)),
                ("verb"@, CborV::Text(verb@)),
                ("args"@, args@),
            ] + token_pairs(token),
        ),
{
    let ghost want = seq![
        ("type"@, CborV::Text("admin"@)),
        ("verb"@, CborV::Text(verb@)),
        ("args"@, args@),
    ] + token_pairs(token);
    let mut pairs = vec![("type", Cbor::t("admin")), ("verb", Cbor::t(verb)), ("args", args)];
    if let Some((t, a)) = token {
        pairs.push(("capability", t));
        pairs.push(("agent_id", Cbor::t(a.as_str())));
    }
    let ghost got = Seq::new(pairs@.len(), |i: int| (pairs@[i].0@, pairs@[i].1@));
    let r = Cbor::map(pairs);
    assert(got =~= want);
    r
}

/// What the reply of the operator's plane says.
pub open spec fn admin_result_of(reply: CborV) -> Result<CborV, ErrV> {
    if reply.bool_field("ok"@) == Some(true) {
        Ok(value_or_null(reply, "result"@))
    } else {
        Err(
            (
                ErrCode::Internal,
                match reply.text_field("err_message"@) {
                    Some(m) => m,
                    None => "admin verb failed"@,
                },
            ),
        )
    }
}

/// What the reply of the operator's plane says.
pub fn admin_result(reply: &Cbor) -> (r: UcResult<Cbor>)
    ensures
        agrees(r, admin_result_of(reply@)),
{
    let ok: bool = match reply.opt_bool("ok") {
        Some(b) => b,
        None => false,
    };
    if ok {
        Ok(reply.value_or_null("result"))
    } else {
        match reply.opt_str("err_message") {
            Some(m) => Err(UcError::internal(m.as_str())),
            None => Err(UcError::internal("admin verb failed")),
        }
    }
}

/// What a client makes of a reply is what the node answered.
pub proof fn lemma_admin_round_trip(body: CborV, code: ErrCode, message: Seq<char>)
    ensures
        admin_result_of(
            map_value(
                seq![
                    ("type"@, CborV::Text("admin_ack"@)),
                    ("ok"@, CborV::Bool(true)),
                    ("result"@, body),
                ],
            ),
        ) == Ok::<_, ErrV>(body),
        admin_result_of(failed("admin_ack"@, code, message)) == Err::<CborV, ErrV>(
            (ErrCode::Internal, message),
        ),
{
    let v = map_value(
        seq![
            ("type"@, CborV::Text("admin_ack"@)),
            ("ok"@, CborV::Bool(true)),
            ("result"@, body),
        ],
    );
    let f = failed("admin_ack"@, code, message);
    reveal_strlit("type");
    reveal_strlit("ok");
    reveal_strlit("result");
    reveal_strlit("err_code");
    reveal_strlit("err_message");
    assert("type"@.len() == 4 && "ok"@.len() == 2 && "result"@.len() == 6);
    assert("err_code"@.len() == 8 && "err_message"@.len() == 11);
    reveal_with_fuel(crate::cbor::lookup_from, 5);
    let m = v->Pairs_0;
    assert(m[0].0 == CborV::Text("type"@) && m[1].0 == CborV::Text("ok"@) && m[2].0 == CborV::Text(
        "result"@,
    ));
    assert(v.field("ok"@) == Some(CborV::Bool(true)));
    assert(v.field("result"@) == Some(body));
    let g = f->Pairs_0;
    assert(g[0].0 == CborV::Text("type"@) && g[1].0 == CborV::Text("ok"@) && g[2].0 == CborV::Text(
        "err_code"@,
    ) && g[3].0 == CborV::Text("err_message"@));
    assert(f.field("ok"@) == Some(CborV::Bool(false)));
    assert(f.field("err_message"@) == Some(CborV::Text(message)));
}

/// What is to be done about a message.
#[derive(Debug)]
pub enum Action {
    /// It is answered.
    Reply(Cbor),
    /// The router is asked.
    Request { envelope: Cbor },
    /// An agent is given its events.
    Events { agent_id: String, mode: EventsMode },
    /// An operator is served.
    Admin,
    /// Nobody knows it.
    Unknown { kind: Option<String> },
}

/// What is to be done about a message, as a mathematical object.
pub enum ActionV {
    Reply(CborV),
    Request { envelope: CborV },
    Events { agent_id: Seq<char>, mode: EventsMode },
    Admin,
    Unknown { kind: Option<Seq<char>> },
}

impl DeepView for Action {
    type V = ActionV;

    open spec fn deep_view(&self) -> ActionV {
        match self {
            Action::Reply(c) => ActionV::Reply(c@),
            Action::Request { envelope } => ActionV::Request { envelope: envelope@ },
            Action::Events { agent_id, mode } => ActionV::Events {
                agent_id: agent_id@,
                mode: *mode,
            },
            Action::Admin => ActionV::Admin,
            Action::Unknown { kind } => ActionV::Unknown { kind: kind.deep_view() },
        }
    }
}

/// Why a message is not served, if it is not.
pub open spec fn access_error(
    msg: CborV,
    token: UcResult<TokenFacts>,
    reg: RegistryV,
    intent: Intent,
) -> Option<ErrV> {
    if msg.field("capability"@) is None {
        Some((ErrCode::PermissionDenied, "message missing capability token"@))
    } else {
        match token {
            Err(e) => Some((e.code, e.message@)),
            Ok(t) => match refusal(msg, t.deep_view(), reg, intent) {
                Some(m) => Some((ErrCode::PermissionDenied, m)),
                None => None,
            },
        }
    }
}

/// What is to be done about a message, given what its token says.
pub open spec fn action_of(
    msg: CborV,
    node_id: Seq<char>,
    token: UcResult<TokenFacts>,
    reg: RegistryV,
) -> ActionV {
    match route_of(msg) {
        RouteV::Hello => ActionV::Reply(hello_value(node_id)),
        RouteV::Request { envelope } => ActionV::Request { envelope },
        RouteV::Unknown { kind } => ActionV::Unknown { kind },
        RouteV::Events => match access_error(msg, token, reg, Intent::Subscribe) {
            Some(e) => ActionV::Reply(failed("events_ack"@, e.0, e.1)),
            None => match events_mode_of(msg) {
                Err(e) => ActionV::Reply(failed("events_ack"@, e.0, e.1)),
                Ok(mode) => ActionV::Events { agent_id: token->Ok_0.deep_view().agent_id, mode },
            },
        },
        RouteV::Admin => match access_error(msg, token, reg, Intent::Admin) {
            Some(e) => ActionV::Reply(failed("admin_ack"@, e.0, e.1)),
            None => if is_operator(reg, token->Ok_0.deep_view().agent_id) {
                ActionV::Admin
            } else {
                ActionV::Reply(
                    failed(
                        "admin_ack"@,
                        ErrCode::PermissionDenied,
                        "admin capability must belong to an active operator"@,
                    ),
                )
            },
        },
    }
}

/// An operator is served only where a token that holds belongs to an active
/// operator, and events are given only to the active agent of a token that holds.
pub proof fn lemma_served_with_token(
    msg: CborV,
    node_id: Seq<char>,
    token: UcResult<TokenFacts>,
    reg: RegistryV,
)
    ensures
        ({
            let a = action_of(msg, node_id, token, reg);
            &&& a is Admin ==> token is Ok && is_operator(reg, token->Ok_0.agent_id@)
            &&& a is Admin || a is Events ==> {
                &&& msg.field("capability"@) is Some
                &&& token is Ok
                &&& token->Ok_0.grants
                &&& !reg.revoked.contains_key(token->Ok_0.token_id@)
                &&& is_active(reg, token->Ok_0.agent_id@)
            }
        }),
{
}

/// A message passes for what it asks exactly where it bears a token that was verified,
/// names the token's agent or none, and the token was not revoked, belongs to a registered
/// agent that is active, and grants it.
pub proof fn lemma_access(msg: CborV, token: UcResult<TokenFacts>, reg: RegistryV, intent: Intent)
    ensures
        access_error(msg, token, reg, intent) is None <==> {
            &&& msg.field("capability"@) is Some
            &&& token is Ok
            &&& msg.text_field("agent_id"@) is None || msg.text_field("agent_id"@) == Some(
                token->Ok_0.agent_id@,
            )
            &&& !reg.revoked.contains_key(token->Ok_0.token_id@)
            &&& reg.agents.contains_key(token->Ok_0.agent_id@)
            &&& reg.agents[token->Ok_0.agent_id@].active
            &&& token->Ok_0.grants
        },
        token is Ok ==> match access_error(msg, token, reg, intent) {
            Some(e) => e.0 is PermissionDenied,
            None => true,
        },
{
}

/// The operator's plane serves exactly the messages to it that pass and come from an
/// operator; events are given to the token's agent, and to nobody without one; a greeting
/// is answered to everybody, and a request is handed on as it came.
pub proof fn lemma_routed(msg: CborV, node_id: Seq<char>, token: UcResult<TokenFacts>, reg: RegistryV)
    ensures
        ({
            let a = action_of(msg, node_id, token, reg);
            let kind = msg.text_field("type"@);
            &&& a is Admin <==> kind == Some("admin"@) && access_error(
                msg,
                token,
                reg,
                Intent::Admin,
            ) is None && reg.agents[token->Ok_0.agent_id@].role == "operator"@
            &&& a is Events ==> kind == Some("events"@) && access_error(
                msg,
                token,
                reg,
                Intent::Subscribe,
            ) is None
            &&& match a {
                ActionV::Events { agent_id, .. } => agent_id == token->Ok_0.agent_id@,
                _ => true,
            }
            &&& kind == Some("events"@) && access_error(msg, token, reg, Intent::Subscribe) is Some
                ==> a is Reply
            &&& kind == Some("admin"@) && !(a is Admin) ==> a is Reply
            &&& a is Request <==> kind == Some("request"@)
            &&& match a {
                ActionV::Request { envelope } => msg.field("envelope"@) is Some ==> Some(envelope)
                    == msg.field("envelope"@),
                _ => true,
            }
            &&& kind == Some("hello"@) ==> a == ActionV::Reply(hello_value(node_id))
        }),
{
    reveal_strlit("hello");
    reveal_strlit("request");
    reveal_strlit("events");
    reveal_strlit("admin");
    assert("hello"@.len() == 5 && "request"@.len() == 7 && "events"@.len() == 6 && "admin"@.len()
        == 5);
    assert("hello"@[0] != "admin"@[0]);
}

/// Decides what is to be done about a message, given what its token says of the
/// intent that its route needs.
pub fn handle_message(
    msg: &Cbor,
    node_id: &str,
    token: UcResult<TokenFacts>,
    registry: &AgentRegistryCell,
) -> (r: Action)
    ensures
        r.deep_view() == action_of(msg@, node_id@, token, registry@),
{
    match route(msg) {
        Route::Hello => Action::Reply(hello_ack(node_id)),
        Route::Request { envelope } => Action::Request { envelope },
        Route::Unknown { kind } => Action::Unknown { kind },
        Route::Events => match verify_capability(msg, token, registry, Intent::Subscribe) {
            Err(e) => Action::Reply(events_refused(&e)),
            Ok(t) => match events_mode(msg) {
                Err(e) => Action::Reply(events_refused(&e)),
                Ok(mode) => Action::Events { agent_id: t.agent_id, mode },
            },
        },
        Route::Admin => match verify_admin_capability(msg, token, registry) {
            Err(e) => Action::Reply(admin_reply(Err(e))),
            Ok(()) => Action::Admin,
        },
    }
}

} // verus!
