//! The registry of agents, revoked tokens, and those who receive every
//! governance and curator event.

use vstd::prelude::*;
use crate::cbor::{
    lemma_field_at, lemma_one_field, lemma_texts_back, lookup_from, map_value, missing_text, text_or_empty, text_views, texts_field,
    texts_value, u64_or_zero, views, Cbor, CborV,
};
use crate::cells::{CellBehavior, CellType};
use crate::rows::{
    done, keyed, lemma_records_back, lemma_records_keyed, record_rows, records_in, rows,
    rows_in, to_rows, Record,
};
use crate::text::{cat2, str_eq};
use crate::textmap::{lemma_finite_listed, lists, text_order, TextMap, TextSet};
use crate::vocab::{agrees, CellId, ErrCode, ErrV, SchemaId, UcError, UcResult};

verus! {

/// A registered agent.
#[derive(Debug)]
pub struct AgentInfo {
    pub agent_id: String,
    pub role: String,
    pub registered_at: u64,
    pub active: bool,
}

/// A registered agent as a mathematical object.
#[verifier::ext_equal]
pub struct AgentInfoV {
    pub agent_id: Seq<char>,
    pub role: Seq<char>,
    pub registered_at: u64,
    pub active: bool,
}

impl DeepView for AgentInfo {
    type V = AgentInfoV;

    open spec fn deep_view(&self) -> AgentInfoV {
        AgentInfoV {
            agent_id: self.agent_id@,
            role: self.role@,
            registered_at: self.registered_at,
            active: self.active,
        }
    }
}

impl Clone for AgentInfo {
    fn clone(&self) -> (r: AgentInfo)
        ensures
            r.deep_view() == self.deep_view(),
    {
        AgentInfo {
            agent_id: self.agent_id.clone(),
            role: self.role.clone(),
            registered_at: self.registered_at,
            active: self.active,
        }
    }
}

impl AgentInfoV {
    /// The encoded form of an agent.
    pub open spec fn value(self) -> CborV {
        map_value(
            seq![
                ("agent_id"@, CborV::Text(self.agent_id)),
                ("role"@, CborV::Text(self.role)),
                ("registered_at"@, CborV::U64(self.registered_at)),
                ("active"@, CborV::Bool(self.active)),
            ],
        )
    }

    /// What an encoded form says; the first required field that is missing is the
    /// error.
    pub open spec fn read(v: CborV) -> Result<AgentInfoV, ErrV> {
        if v.text_field("agent_id"@) is None {
            Err((ErrCode::Internal, missing_text("agent_id"@)))
        } else {
            Ok(
                AgentInfoV {
                    agent_id: v.text_field("agent_id"@)->0,
                    role: text_or_empty(v, "role"@),
                    registered_at: u64_or_zero(v, "registered_at"@),
                    active: match v.bool_field("active"@) {
                        Some(b) => b,
                        None => true,
                    },
                },
            )
        }
    }

    /// Reading gives back what was encoded.
    pub proof fn lemma_read_back(self)
        ensures
            AgentInfoV::read(self.value()) == Ok::<_, ErrV>(self),
            self.value().field("agent_id"@) == Some(CborV::Text(self.agent_id)),
            self.value().field("role"@) == Some(CborV::Text(self.role)),
            self.value().field("registered_at"@) == Some(CborV::U64(self.registered_at)),
            self.value().field("active"@) == Some(CborV::Bool(self.active)),
    {
        reveal_strlit("agent_id");
        reveal_strlit("role");
        reveal_strlit("registered_at");
        reveal_strlit("active");
        assert("agent_id"@.len() == 8);
        assert("role"@.len() == 4);
        assert("registered_at"@.len() == 13);
        assert("active"@.len() == 6);
        reveal_with_fuel(lookup_from, 5);
        let m = self.value()->Pairs_0;
        assert(m[0].0 == CborV::Text("agent_id"@));
        assert(m[1].0 == CborV::Text("role"@));
        assert(m[2].0 == CborV::Text("registered_at"@));
        assert(m[3].0 == CborV::Text("active"@));
        assert(self.value().field("agent_id"@) == Some(CborV::Text(self.agent_id)));
        assert(self.value().field("role"@) == Some(CborV::Text(self.role)));
        assert(self.value().field("registered_at"@) == Some(CborV::U64(self.registered_at)));
        assert(self.value().field("active"@) == Some(CborV::Bool(self.active)));
    }

}

impl AgentInfo {
    fn to_cbor(&self) -> (r: Cbor)
        ensures
            r@ == self.deep_view().value(),
    {
        let pairs = vec![
            ("agent_id", Cbor::t(self.agent_id.as_str())),
            ("role", Cbor::t(self.role.as_str())),
            ("registered_at", Cbor::U64(self.registered_at)),
            ("active", Cbor::Bool(self.active)),
        ];
        let ghost want = seq![
            ("agent_id"@, CborV::Text(self.agent_id@)),
            ("role"@, CborV::Text(self.role@)),
            ("registered_at"@, CborV::U64(self.registered_at)),
            ("active"@, CborV::Bool(self.active)),
        ];
        assert(Seq::new(pairs@.len(), |i: int| (pairs@[i].0@, pairs@[i].1@)) =~= want);
        Cbor::map(pairs)
    }

    fn from_cbor(c: &Cbor) -> (r: UcResult<AgentInfo>)
        ensures
            agrees(r, AgentInfoV::read(c@)),
    {
        let agent_id = match c.req_str("agent_id") {
            Ok(x) => x,
            Err(e) => {
                return Err(e);
            },
        };
        let role = c.str_or_empty("role");
        let registered_at: u64 = c.u64_or_zero("registered_at");
        let active: bool = match c.opt_bool("active") {
            Some(b) => b,
            None => true,
        };
        Ok(AgentInfo { agent_id, role, registered_at, active })
    }
}

impl AgentInfoV {
    /// The encoded form of an agent without its time.
    pub open spec fn brief(self) -> CborV {
        map_value(
            seq![
                ("agent_id"@, CborV::Text(self.agent_id)),
                ("role"@, CborV::Text(self.role)),
                ("active"@, CborV::Bool(self.active)),
            ],
        )
    }

    /// The short form names the agent, its role and whether it is active.
    pub proof fn lemma_brief(self)
        ensures
            self.brief().text_field("agent_id"@) == Some(self.agent_id),
            self.brief().text_field("role"@) == Some(self.role),
            self.brief().bool_field("active"@) == Some(self.active),
    {
        let p = seq![
            ("agent_id"@, CborV::Text(self.agent_id)),
            ("role"@, CborV::Text(self.role)),
            ("active"@, CborV::Bool(self.active)),
        ];
        reveal_strlit("agent_id");
        reveal_strlit("role");
        reveal_strlit("active");
        assert("agent_id"@.len() == 8 && "role"@.len() == 4 && "active"@.len() == 6);
        lemma_field_at(p, 0);
        lemma_field_at(p, 1);
        lemma_field_at(p, 2);
    }
}

impl AgentInfo {
    fn to_brief(&self) -> (r: Cbor)
        ensures
            r@ == self.deep_view().brief(),
    {
        let pairs = vec![
            ("agent_id", Cbor::t(self.agent_id.as_str())),
            ("role", Cbor::t(self.role.as_str())),
            ("active", Cbor::Bool(self.active)),
        ];
        let ghost want = seq![
            ("agent_id"@, CborV::Text(self.agent_id@)),
            ("role"@, CborV::Text(self.role@)),
            ("active"@, CborV::Bool(self.active)),
        ];
        assert(Seq::new(pairs@.len(), |i: int| (pairs@[i].0@, pairs@[i].1@)) =~= want);
        Cbor::map(pairs)
    }
}

impl Record for AgentInfo {
    open spec fn key_of(v: AgentInfoV) -> Seq<char> {
        v.agent_id
    }

    open spec fn value_of(v: AgentInfoV) -> CborV {
        v.value()
    }

    open spec fn read_of(c: CborV) -> Result<AgentInfoV, ErrV> {
        AgentInfoV::read(c)
    }

    open spec fn valid(v: AgentInfoV) -> bool {
        true
    }

    proof fn lemma_back(v: AgentInfoV) {
        v.lemma_read_back();
    }

    fn key(&self) -> (r: String) {
        self.agent_id.clone()
    }

    fn to_row(&self) -> (r: Cbor) {
        self.to_cbor()
    }

    fn from_row(c: &Cbor) -> (r: UcResult<AgentInfo>) {
        AgentInfo::from_cbor(c)
    }
}

/// A revoked token.
#[derive(Debug)]
pub struct RevokedToken {
    pub token_id: String,
    pub at: u64,
}

/// A revoked token as a mathematical object.
#[verifier::ext_equal]
pub struct RevokedTokenV {
    pub token_id: Seq<char>,
    pub at: u64,
}

impl DeepView for RevokedToken {
    type V = RevokedTokenV;

    open spec fn deep_view(&self) -> RevokedTokenV {
        RevokedTokenV {
            token_id: self.token_id@,
            at: self.at,
        }
    }
}

impl Clone for RevokedToken {
    fn clone(&self) -> (r: RevokedToken)
        ensures
            r.deep_view() == self.deep_view(),
    {
        RevokedToken {
            token_id: self.token_id.clone(),
            at: self.at,
        }
    }
}

impl RevokedTokenV {
    /// The encoded form of a revoked token.
    pub open spec fn value(self) -> CborV {
        map_value(
            seq![
                ("token_id"@, CborV::Text(self.token_id)),
                ("at"@, CborV::U64(self.at)),
            ],
        )
    }

    /// What an encoded form says; the first required field that is missing is the
    /// error.
    pub open spec fn read(v: CborV) -> Result<RevokedTokenV, ErrV> {
        if v.text_field("token_id"@) is None {
            Err((ErrCode::Internal, missing_text("token_id"@)))
        } else {
            Ok(
                RevokedTokenV {
                    token_id: v.text_field("token_id"@)->0,
                    at: u64_or_zero(v, "at"@),
                },
            )
        }
    }

    /// Reading gives back what was encoded.
    pub proof fn lemma_read_back(self)
        ensures
            RevokedTokenV::read(self.value()) == Ok::<_, ErrV>(self),
            self.value().field("token_id"@) == Some(CborV::Text(self.token_id)),
            self.value().field("at"@) == Some(CborV::U64(self.at)),
    {
        reveal_strlit("token_id");
        reveal_strlit("at");
        assert("token_id"@.len() == 8);
        assert("at"@.len() == 2);
        reveal_with_fuel(lookup_from, 3);
        let m = self.value()->Pairs_0;
        assert(m[0].0 == CborV::Text("token_id"@));
        assert(m[1].0 == CborV::Text("at"@));
        assert(self.value().field("token_id"@) == Some(CborV::Text(self.token_id)));
        assert(self.value().field("at"@) == Some(CborV::U64(self.at)));
    }

}

impl RevokedToken {
    fn to_cbor(&self) -> (r: Cbor)
        ensures
            r@ == self.deep_view().value(),
    {
        let pairs = vec![
            ("token_id", Cbor::t(self.token_id.as_str())),
            ("at", Cbor::U64(self.at)),
        ];
        let ghost want = seq![
            ("token_id"@, CborV::Text(self.token_id@)),
            ("at"@, CborV::U64(self.at)),
        ];
        assert(Seq::new(pairs@.len(), |i: int| (pairs@[i].0@, pairs@[i].1@)) =~= want);
        Cbor::map(pairs)
    }

    fn from_cbor(c: &Cbor) -> (r: UcResult<RevokedToken>)
        ensures
            agrees(r, RevokedTokenV::read(c@)),
    {
        let token_id = match c.req_str("token_id") {
            Ok(x) => x,
            Err(e) => {
                return Err(e);
            },
        };
        let at: u64 = c.u64_or_zero("at");
        Ok(RevokedToken { token_id, at })
    }
}

impl Record for RevokedToken {
    open spec fn key_of(v: RevokedTokenV) -> Seq<char> {
        v.token_id
    }

    open spec fn value_of(v: RevokedTokenV) -> CborV {
        v.value()
    }

    open spec fn read_of(c: CborV) -> Result<RevokedTokenV, ErrV> {
        RevokedTokenV::read(c)
    }

    open spec fn valid(v: RevokedTokenV) -> bool {
        true
    }

    proof fn lemma_back(v: RevokedTokenV) {
        v.lemma_read_back();
    }

    fn key(&self) -> (r: String) {
        self.token_id.clone()
    }

    fn to_row(&self) -> (r: Cbor) {
        self.to_cbor()
    }

    fn from_row(c: &Cbor) -> (r: UcResult<RevokedToken>) {
        RevokedToken::from_cbor(c)
    }
}

/// The state of the registry.
#[verifier::ext_equal]
pub struct RegistryV {
    pub agents: Map<Seq<char>, AgentInfoV>,
    pub revoked: Map<Seq<char>, RevokedTokenV>,
    pub escalation: Set<Seq<char>>,
}

/// The row of an agent in a listing.
pub open spec fn agent_brief_row() -> spec_fn(Seq<char>, AgentInfoV) -> CborV {
    |k: Seq<char>, a: AgentInfoV| a.brief()
}

impl RegistryV {
    pub open spec fn empty() -> RegistryV {
        RegistryV { agents: Map::empty(), revoked: Map::empty(), escalation: Set::empty() }
    }

    /// Each agent and each token is under its own id.
    pub open spec fn wf(self) -> bool {
        keyed::<AgentInfo>(self.agents) && keyed::<RevokedToken>(self.revoked)
    }

    /// One agent more, active; an operator also receives every escalation.
    pub open spec fn register(self, at: u64, agent_id: Seq<char>, role: Seq<char>) -> RegistryV {
        RegistryV {
            agents: self.agents.insert(
                agent_id,
                AgentInfoV { agent_id, role, registered_at: at, active: true },
            ),
            escalation: if role == "operator"@ {
                self.escalation.insert(agent_id)
            } else {
                self.escalation
            },
            ..self
        }
    }

    /// One revoked token more.
    pub open spec fn revoke(self, at: u64, token_id: Seq<char>) -> RegistryV {
        RegistryV {
            revoked: self.revoked.insert(token_id, RevokedTokenV { token_id, at }),
            ..self
        }
    }

    /// An agent no longer active, where it is registered.
    pub open spec fn deactivate(self, agent_id: Seq<char>) -> RegistryV {
        if self.agents.contains_key(agent_id) {
            RegistryV {
                agents: self.agents.insert(
                    agent_id,
                    AgentInfoV { active: false, ..self.agents[agent_id] },
                ),
                ..self
            }
        } else {
            self
        }
    }

    /// The answer to a query.
    pub open spec fn answer(self, q: CborV) -> Result<CborV, ErrV> {
        let op = q.text_field("op"@);
        if op == Some("get"@) {
            match q.text_field("agent_id"@) {
                None => Err((ErrCode::Internal, missing_text("agent_id"@))),
                Some(id) => if self.agents.contains_key(id) {
                    Ok(self.agents[id].brief())
                } else {
                    Err((ErrCode::NotFound, "agent "@ + id))
                },
            }
        } else if op == Some("list"@) {
            Ok(map_value(seq![("agents"@, CborV::Array(rows(self.agents, agent_brief_row())))]))
        } else if op == Some("is_revoked"@) {
            match q.text_field("token_id"@) {
                None => Err((ErrCode::Internal, missing_text("token_id"@))),
                Some(t) => Ok(
                    map_value(seq![("revoked"@, CborV::Bool(self.revoked.contains_key(t)))]),
                ),
            }
        } else {
            Err((ErrCode::ContractViolation, "agent_registry: unknown op"@))
        }
    }

    /// The state after an update, and the reply.
    pub open spec fn update(self, at: u64, u: CborV) -> (RegistryV, Result<CborV, ErrV>) {
        let op = u.text_field("op"@);
        if op is None || op == Some("register"@) {
            match u.text_field("agent_id"@) {
                None => (self, Err((ErrCode::Internal, missing_text("agent_id"@)))),
                Some(id) => (
                    self.register(
                        at,
                        id,
                        match u.text_field("role"@) {
                            Some(s) => s,
                            None => "agent"@,
                        },
                    ),
                    Ok(map_value(seq![("registered"@, CborV::Text(id))])),
                ),
            }
        } else if op == Some("revoke_token"@) {
            match u.text_field("token_id"@) {
                None => (self, Err((ErrCode::Internal, missing_text("token_id"@)))),
                Some(t) => (
                    self.revoke(at, t),
                    Ok(map_value(seq![("revoked"@, CborV::Text(t))])),
                ),
            }
        } else if op == Some("deactivate"@) {
            match u.text_field("agent_id"@) {
                None => (self, Err((ErrCode::Internal, missing_text("agent_id"@)))),
                Some(id) => (
                    self.deactivate(id),
                    Ok(map_value(seq![("deactivated"@, CborV::Text(id))])),
                ),
            }
        } else {
            (self, Err((ErrCode::ContractViolation, "agent_registry: unknown update op"@)))
        }
    }

    /// The snapshot of the state.
    pub open spec fn image(self) -> CborV {
        map_value(
            seq![
                ("agents"@, CborV::Array(record_rows::<AgentInfo>(self.agents))),
                ("revoked_tokens"@, CborV::Array(record_rows::<RevokedToken>(self.revoked))),
                ("escalation_subscribers"@, texts_value(text_order(self.escalation))),
            ],
        )
    }

    /// What a snapshot restores to, part by part up to the first error.
    pub open spec fn from_image(v: CborV) -> (RegistryV, Option<ErrV>) {
        let (agents, e) = records_in::<AgentInfo>(v, "agents"@);
        if e is Some {
            (RegistryV { agents, ..RegistryV::empty() }, e)
        } else {
            let (revoked, e) = records_in::<RevokedToken>(v, "revoked_tokens"@);
            if e is Some {
                (RegistryV { agents, revoked, escalation: Set::empty() }, e)
            } else {
                (
                    RegistryV {
                        agents,
                        revoked,
                        escalation: texts_field(v, "escalation_subscribers"@).to_set(),
                    },
                    None,
                )
            }
        }
    }

    /// A snapshot restores to the same state.
    pub proof fn lemma_restore_snapshot(self)
        requires
            self.wf(),
            self.agents.dom().finite(),
            self.revoked.dom().finite(),
            self.escalation.finite(),
        ensures
            RegistryV::from_image(self.image()) == (self, None::<ErrV>),
    {
        let m = self.image()->Pairs_0;
        reveal_strlit("agents");
        reveal_strlit("revoked_tokens");
        reveal_strlit("escalation_subscribers");
        assert("agents"@.len() == 6);
        assert("revoked_tokens"@.len() == 14);
        assert("escalation_subscribers"@.len() == 22);
        reveal_with_fuel(lookup_from, 4);
        assert(m[0].0 == CborV::Text("agents"@));
        assert(m[1].0 == CborV::Text("revoked_tokens"@));
        assert(m[2].0 == CborV::Text("escalation_subscribers"@));
        assert(self.image().field("agents"@) == Some(CborV::Array(record_rows::<AgentInfo>(self.agents))));
        assert(self.image().field("revoked_tokens"@) == Some(CborV::Array(record_rows::<RevokedToken>(self.revoked))));
        assert(self.image().field("escalation_subscribers"@) == Some(texts_value(text_order(self.escalation))));
        lemma_records_back::<AgentInfo>(self.agents);
        lemma_records_back::<RevokedToken>(self.revoked);
        lemma_texts_back(text_order(self.escalation));
        lemma_finite_listed(self.escalation);
        assert(text_order(self.escalation).to_set() =~= self.escalation);
    }

    /// An agent that is registered is found under its id, with its role and active; an
    /// operator hears of every escalation from now on. Nobody else is touched, and no
    /// token is revoked or restored.
    pub proof fn lemma_registered(self, at: u64, u: CborV, id: Seq<char>, q: CborV, other: Seq<char>)
        requires
            u.text_field("op"@) is None || u.text_field("op"@) == Some("register"@),
            u.text_field("agent_id"@) == Some(id),
            q.text_field("op"@) == Some("get"@),
            q.text_field("agent_id"@) == Some(id),
            other != id,
        ensures
            ({
                let (st, r) = self.update(at, u);
                let a = st.answer(q)->Ok_0;
                &&& r is Ok && r->Ok_0.text_field("registered"@) == Some(id)
                &&& st.answer(q) is Ok
                &&& a.text_field("agent_id"@) == Some(id)
                &&& a.bool_field("active"@) == Some(true)
                &&& u.text_field("role"@) is Some ==> a.text_field("role"@) == u.text_field("role"@)
                &&& u.text_field("role"@) is None ==> a.text_field("role"@) == Some("agent"@)
                &&& st.agents[id].registered_at == at
                &&& u.text_field("role"@) == Some("operator"@) ==> st.escalation.contains(id)
                &&& u.text_field("role"@) != Some("operator"@) ==> (st.escalation.contains(id)
                    <==> self.escalation.contains(id))
                &&& st.escalation.contains(other) <==> self.escalation.contains(other)
                &&& st.agents.contains_key(other) <==> self.agents.contains_key(other)
                &&& self.agents.contains_key(other) ==> st.agents[other] == self.agents[other]
                &&& st.revoked == self.revoked
            }),
    {
        reveal_strlit("agent");
        reveal_strlit("operator");
        assert("agent"@.len() == 5 && "operator"@.len() == 8);
        lemma_one_field("registered"@, CborV::Text(id));
        self.update(at, u).0.agents[id].lemma_brief();
    }

    /// A token is revoked from the moment that it was, and no other is; and the registry
    /// says so.
    pub proof fn lemma_revoked(self, at: u64, u: CborV, t: Seq<char>, q: CborV, asked: Seq<char>)
        requires
            u.text_field("op"@) == Some("revoke_token"@),
            u.text_field("token_id"@) == Some(t),
            q.text_field("op"@) == Some("is_revoked"@),
            q.text_field("token_id"@) == Some(asked),
        ensures
            ({
                let (st, r) = self.update(at, u);
                &&& r is Ok && r->Ok_0.text_field("revoked"@) == Some(t)
                &&& st.answer(q) is Ok
                &&& st.answer(q)->Ok_0.bool_field("revoked"@) == Some(
                    asked == t || self.revoked.contains_key(asked),
                )
                &&& self.answer(q) is Ok
                &&& self.answer(q)->Ok_0.bool_field("revoked"@) == Some(
                    self.revoked.contains_key(asked),
                )
                &&& st.agents == self.agents && st.escalation == self.escalation
            }),
    {
        reveal_strlit("register");
        reveal_strlit("revoke_token");
        reveal_strlit("get");
        reveal_strlit("list");
        reveal_strlit("is_revoked");
        assert("register"@.len() == 8 && "revoke_token"@.len() == 12);
        assert("get"@.len() == 3 && "list"@.len() == 4 && "is_revoked"@.len() == 10);
        lemma_one_field("revoked"@, CborV::Text(t));
        lemma_one_field("revoked"@, CborV::Bool(asked == t || self.revoked.contains_key(asked)));
        lemma_one_field("revoked"@, CborV::Bool(self.revoked.contains_key(asked)));
    }

    /// An agent that is deactivated is active no more, keeps its role, and nobody else is
    /// touched.
    pub proof fn lemma_deactivated(self, at: u64, u: CborV, id: Seq<char>, other: Seq<char>)
        requires
            u.text_field("op"@) == Some("deactivate"@),
            u.text_field("agent_id"@) == Some(id),
            other != id,
        ensures
            ({
                let (st, r) = self.update(at, u);
                &&& r is Ok && r->Ok_0.text_field("deactivated"@) == Some(id)
                &&& st.agents.dom() == self.agents.dom()
                &&& self.agents.contains_key(id) ==> !st.agents[id].active && st.agents[id].role
                    == self.agents[id].role && st.agents[id].agent_id == self.agents[id].agent_id
                &&& self.agents.contains_key(other) ==> st.agents[other] == self.agents[other]
                &&& st.revoked == self.revoked && st.escalation == self.escalation
            }),
    {
        reveal_strlit("register");
        reveal_strlit("revoke_token");
        reveal_strlit("deactivate");
        assert("register"@.len() == 8 && "revoke_token"@.len() == 12 && "deactivate"@.len() == 10);
        lemma_one_field("deactivated"@, CborV::Text(id));
        assert(self.update(at, u).0.agents.dom() =~= self.agents.dom());
    }

    /// A revoked token stays revoked, whatever the registry is told next.
    pub proof fn lemma_stays_revoked(self, at: u64, u: CborV, token: Seq<char>)
        requires
            self.revoked.contains_key(token),
        ensures
            self.update(at, u).0.revoked.contains_key(token),
    {
    }
}

/// The registry.
#[derive(Debug)]
pub struct AgentRegistryCell {
    pub id: CellId,
    agents: TextMap<AgentInfo>,
    revoked_tokens: TextMap<RevokedToken>,
    escalation_subscribers: TextSet,
}

impl View for AgentRegistryCell {
    type V = RegistryV;

    closed spec fn view(&self) -> RegistryV {
        RegistryV {
            agents: self.agents@,
            revoked: self.revoked_tokens@,
            escalation: self.escalation_subscribers@,
        }
    }
}

impl AgentRegistryCell {
    /// The id of the cell.
    pub closed spec fn ident(&self) -> CellId {
        self.id
    }

    pub fn new(id: CellId) -> (r: Self)
        ensures
            r.ident() == id,
            r@ == RegistryV::empty(),
    {
        AgentRegistryCell {
            id,
            agents: TextMap::new(),
            revoked_tokens: TextMap::new(),
            escalation_subscribers: TextSet::new(),
        }
    }

    pub fn register(&mut self, at: u64, agent_id: &str, role: &str)
        ensures
            final(self).ident() == old(self).ident(),
            final(self)@ == old(self)@.register(at, agent_id@, role@),
            old(self)@.wf() ==> final(self)@.wf(),
    {
        self.agents.insert(
            agent_id.to_owned(),
            AgentInfo {
                agent_id: agent_id.to_owned(),
                role: role.to_owned(),
                registered_at: at,
                active: true,
            },
        );
        if str_eq(role, "operator") {
            self.escalation_subscribers.insert(agent_id);
        }
    }

    pub fn get(&self, agent_id: &str) -> (r: Option<&AgentInfo>)
        ensures
            match r {
                Some(a) => self@.agents.contains_key(agent_id@) && a.deep_view()
                    == self@.agents[agent_id@],
                None => !self@.agents.contains_key(agent_id@),
            },
    {
        self.agents.get(agent_id)
    }

    pub fn revoke_token(&mut self, at: u64, token_id: &str)
        ensures
            final(self).ident() == old(self).ident(),
            final(self)@ == old(self)@.revoke(at, token_id@),
            old(self)@.wf() ==> final(self)@.wf(),
    {
        self.revoked_tokens.insert(
            token_id.to_owned(),
            RevokedToken { token_id: token_id.to_owned(), at },
        );
    }

    pub fn is_revoked(&self, token_id: &str) -> (r: bool)
        ensures
            r == self@.revoked.contains_key(token_id@),
    {
        self.revoked_tokens.contains_key(token_id)
    }

    /// Those who receive every escalation, in ascending order.
    pub fn escalation_subscribers(&self) -> (r: Vec<String>)
        ensures
            text_views(r@) == text_order(self@.escalation),
            lists(text_views(r@), self@.escalation),
    {
        self.escalation_subscribers.to_vec()
    }

    pub fn add_escalation_subscriber(&mut self, agent_id: &str)
        ensures
            final(self).ident() == old(self).ident(),
            final(self)@ == (RegistryV {
                escalation: old(self)@.escalation.insert(agent_id@),
                ..old(self)@
            }),
    {
        self.escalation_subscribers.insert(agent_id);
    }

    fn deactivate(&mut self, agent_id: &str)
        ensures
            final(self).ident() == old(self).ident(),
            final(self)@ == old(self)@.deactivate(agent_id@),
            old(self)@.wf() ==> final(self)@.wf(),
    {
        let ghost was = self@;
        if let Some(a) = self.agents.remove(agent_id) {
            let mut a = a;
            a.active = false;
            self.agents.insert(agent_id.to_owned(), a);
            assert(self@.agents =~= was.deactivate(agent_id@).agents);
        } else {
            assert(self@.agents =~= was.agents);
        }
    }
}

impl CellBehavior for AgentRegistryCell {
    open spec fn wf(&self) -> bool {
        self@.wf()
    }

    open spec fn accepts(&self, logical_at: u64, update: CborV) -> bool {
        true
    }

    open spec fn restorable(state: CborV) -> bool {
        true
    }

    fn cell_id(&self) -> (r: CellId)
        ensures
            r == self.ident(),
    {
        self.id
    }

    fn cell_type(&self) -> (r: CellType)
        ensures
            r == CellType::AgentRegistry,
    {
        CellType::AgentRegistry
    }

    fn schema_id(&self) -> (r: SchemaId)
        ensures
            r.0@ == "agent_registry.v1"@,
    {
        SchemaId::new("agent_registry.v1")
    }

    fn on_query(&self, _at: u64, query: &Cbor) -> (r: UcResult<Cbor>)
        ensures
            agrees(r, self@.answer(query@)),
    {
        if let Some(op) = query.opt_str("op") {
            if str_eq(op.as_str(), "get") {
                let id = match query.req_str("agent_id") {
                    Ok(x) => x,
                    Err(e) => {
                        return Err(e);
                    },
                };
                return match self.agents.get(id.as_str()) {
                    Some(a) => Ok(a.to_brief()),
                    None => Err(UcError::not_found(cat2("agent ", id.as_str()).as_str())),
                };
            }
            if str_eq(op.as_str(), "list") {
                let mut items: Vec<Cbor> = Vec::new();
                let mut i: usize = 0;
                let n: usize = self.agents.len();
                let ghost want = rows(self.agents@, agent_brief_row());
                assert(views(items@) =~= want.take(0));
                while i < n
                    invariant
                        i <= n == self.agents.order().len(),
                        self.agents.order() == text_order(self.agents@.dom()),
                        want == rows(self.agents@, agent_brief_row()),
                        views(items@) == want.take(i as int),
                    decreases n - i,
                {
                    let ghost before = views(items@);
                    let v = self.agents.value_at(i);
                    let row = v.to_brief();
                    items.push(row);
                    assert(views(items@) =~= before.push(row@));
                    i += 1;
                    assert(want.take(i as int) =~= want.take(i - 1).push(want[i - 1]));
                }
                assert(want.take(n as int) =~= want);
                return Ok(Cbor::map1("agents", Cbor::arr(items)));
            }
            if str_eq(op.as_str(), "is_revoked") {
                let tid = match query.req_str("token_id") {
                    Ok(x) => x,
                    Err(e) => {
                        return Err(e);
                    },
                };
                return Ok(Cbor::map1("revoked", Cbor::Bool(self.is_revoked(tid.as_str()))));
            }
        }
        Err(UcError::schema("agent_registry: unknown op"))
    }

    fn on_update(&mut self, at: u64, update: &Cbor) -> (r: UcResult<Cbor>)
        ensures
            final(self).ident() == old(self).ident(),
            final(self)@ == old(self)@.update(at, update@).0,
            agrees(r, old(self)@.update(at, update@).1),
    {
        let op = update.opt_str("op");
        let plain: bool = match &op {
            None => true,
            Some(s) => str_eq(s.as_str(), "register"),
        };
        if plain {
            let id = match update.req_str("agent_id") {
                Ok(x) => x,
                Err(e) => {
                    return Err(e);
                },
            };
            let role = match update.opt_str("role") {
                Some(s) => s,
                None => "agent".to_owned(),
            };
            self.register(at, id.as_str(), role.as_str());
            return Ok(Cbor::map1("registered", Cbor::t(id.as_str())));
        }
        if let Some(op) = op {
            if str_eq(op.as_str(), "revoke_token") {
                let tid = match update.req_str("token_id") {
                    Ok(x) => x,
                    Err(e) => {
                        return Err(e);
                    },
                };
                self.revoke_token(at, tid.as_str());
                return Ok(Cbor::map1("revoked", Cbor::t(tid.as_str())));
            }
            if str_eq(op.as_str(), "deactivate") {
                let id = match update.req_str("agent_id") {
                    Ok(x) => x,
                    Err(e) => {
                        return Err(e);
                    },
                };
                self.deactivate(id.as_str());
                return Ok(Cbor::map1("deactivated", Cbor::t(id.as_str())));
            }
        }
        Err(UcError::schema("agent_registry: unknown update op"))
    }

    fn snapshot_state(&self) -> (r: Cbor)
        ensures
            r@ == self@.image(),
            self@.agents.dom().finite(),
            self@.revoked.dom().finite(),
            self@.escalation.finite(),
    {
        Cbor::map3(
            "agents",
            Cbor::arr(to_rows(&self.agents)),
            "revoked_tokens",
            Cbor::arr(to_rows(&self.revoked_tokens)),
            "escalation_subscribers",
            Cbor::text_array(self.escalation_subscribers.to_vec().as_slice()),
        )
    }

    fn restore_state(&mut self, state: &Cbor) -> (r: UcResult<()>)
        ensures
            final(self).ident() == old(self).ident(),
            final(self)@ == RegistryV::from_image(state@).0,
            agrees(r, done(RegistryV::from_image(state@).1)),
    {
        proof {
            lemma_records_keyed::<AgentInfo>(state@, "agents"@);
            lemma_records_keyed::<RevokedToken>(state@, "revoked_tokens"@);
        }
        let (agents, outcome) = rows_in::<AgentInfo>(state, "agents");
        self.agents = agents;
        self.revoked_tokens = TextMap::new();
        self.escalation_subscribers = TextSet::new();
        if outcome.is_err() {
            return outcome;
        }
        let (revoked, outcome) = rows_in::<RevokedToken>(state, "revoked_tokens");
        self.revoked_tokens = revoked;
        if outcome.is_err() {
            return outcome;
        }
        self.escalation_subscribers = TextSet::of(
            state.texts_or_empty("escalation_subscribers").as_slice(),
        );
        Ok(())
    }
}

} // verus!
