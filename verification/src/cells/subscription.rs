//! Subscriptions: which agents want which events.

use vstd::prelude::*;
use crate::cbor::{
    lemma_one_field, lemma_texts_back, lookup_from, map_value, missing_text, text_views,
    texts_field, texts_value, u64_or_zero, Cbor, CborV,
};
use crate::cells::{CellBehavior, CellType};
use crate::glob::{glob_match, glob_matches};
use crate::rows::{
    done, keyed, lemma_records_back, lemma_records_keyed, record_rows, records_in, rows_in,
    to_rows, Record,
};
use crate::text::{cat2, padded, padded_text, str_eq};
use crate::textmap::{lemma_finite_listed, lists, text_order, TextMap, TextSet};
use crate::vocab::{agrees, CellId, ErrCode, ErrV, SchemaId, UcError, UcResult};

verus! {

/// A subscription.
#[derive(Debug)]
pub struct Subscription {
    pub sub_id: String,
    pub agent_id: String,
    /// A glob over event names.
    pub pattern: String,
    pub since: u64,
}

/// A subscription as a mathematical object.
#[verifier::ext_equal]
pub struct SubscriptionV {
    pub sub_id: Seq<char>,
    pub agent_id: Seq<char>,
    pub pattern: Seq<char>,
    pub since: u64,
}

impl DeepView for Subscription {
    type V = SubscriptionV;

    open spec fn deep_view(&self) -> SubscriptionV {
        SubscriptionV {
            sub_id: self.sub_id@,
            agent_id: self.agent_id@,
            pattern: self.pattern@,
            since: self.since,
        }
    }
}

impl Clone for Subscription {
    fn clone(&self) -> (r: Subscription)
        ensures
            r.deep_view() == self.deep_view(),
    {
        Subscription {
            sub_id: self.sub_id.clone(),
            agent_id: self.agent_id.clone(),
            pattern: self.pattern.clone(),
            since: self.since,
        }
    }
}

impl SubscriptionV {
    /// The encoded form of a subscription.
    pub open spec fn value(self) -> CborV {
        map_value(
            seq![
                ("sub_id"@, CborV::Text(self.sub_id)),
                ("agent_id"@, CborV::Text(self.agent_id)),
                ("pattern"@, CborV::Text(self.pattern)),
                ("since"@, CborV::U64(self.since)),
            ],
        )
    }

    /// What an encoded form says; the first required field that is missing is the
    /// error.
    pub open spec fn read(v: CborV) -> Result<SubscriptionV, ErrV> {
        if v.text_field("sub_id"@) is None {
            Err((ErrCode::Internal, missing_text("sub_id"@)))
        } else if v.text_field("agent_id"@) is None {
            Err((ErrCode::Internal, missing_text("agent_id"@)))
        } else if v.text_field("pattern"@) is None {
            Err((ErrCode::Internal, missing_text("pattern"@)))
        } else {
            Ok(
                SubscriptionV {
                    sub_id: v.text_field("sub_id"@)->0,
                    agent_id: v.text_field("agent_id"@)->0,
                    pattern: v.text_field("pattern"@)->0,
                    since: u64_or_zero(v, "since"@),
                },
            )
        }
    }

    /// Reading gives back what was encoded.
    pub proof fn lemma_read_back(self)
        ensures
            SubscriptionV::read(self.value()) == Ok::<_, ErrV>(self),
            self.value().field("sub_id"@) == Some(CborV::Text(self.sub_id)),
            self.value().field("agent_id"@) == Some(CborV::Text(self.agent_id)),
            self.value().field("pattern"@) == Some(CborV::Text(self.pattern)),
            self.value().field("since"@) == Some(CborV::U64(self.since)),
    {
        reveal_strlit("sub_id");
        reveal_strlit("agent_id");
        reveal_strlit("pattern");
        reveal_strlit("since");
        assert("sub_id"@.len() == 6);
        assert("agent_id"@.len() == 8);
        assert("pattern"@.len() == 7);
        assert("since"@.len() == 5);
        reveal_with_fuel(lookup_from, 5);
        let m = self.value()->Pairs_0;
        assert(m[0].0 == CborV::Text("sub_id"@));
        assert(m[1].0 == CborV::Text("agent_id"@));
        assert(m[2].0 == CborV::Text("pattern"@));
        assert(m[3].0 == CborV::Text("since"@));
        assert(self.value().field("sub_id"@) == Some(CborV::Text(self.sub_id)));
        assert(self.value().field("agent_id"@) == Some(CborV::Text(self.agent_id)));
        assert(self.value().field("pattern"@) == Some(CborV::Text(self.pattern)));
        assert(self.value().field("since"@) == Some(CborV::U64(self.since)));
    }

}

impl Subscription {
    fn to_cbor(&self) -> (r: Cbor)
        ensures
            r@ == self.deep_view().value(),
    {
        let pairs = vec![
            ("sub_id", Cbor::t(self.sub_id.as_str())),
            ("agent_id", Cbor::t(self.agent_id.as_str())),
            ("pattern", Cbor::t(self.pattern.as_str())),
            ("since", Cbor::U64(self.since)),
        ];
        let ghost want = seq![
            ("sub_id"@, CborV::Text(self.sub_id@)),
            ("agent_id"@, CborV::Text(self.agent_id@)),
            ("pattern"@, CborV::Text(self.pattern@)),
            ("since"@, CborV::U64(self.since)),
        ];
        assert(Seq::new(pairs@.len(), |i: int| (pairs@[i].0@, pairs@[i].1@)) =~= want);
        Cbor::map(pairs)
    }

    fn from_cbor(c: &Cbor) -> (r: UcResult<Subscription>)
        ensures
            agrees(r, SubscriptionV::read(c@)),
    {
        let sub_id = match c.req_str("sub_id") {
            Ok(x) => x,
            Err(e) => {
                return Err(e);
            },
        };
        let agent_id = match c.req_str("agent_id") {
            Ok(x) => x,
            Err(e) => {
                return Err(e);
            },
        };
        let pattern = match c.req_str("pattern") {
            Ok(x) => x,
            Err(e) => {
                return Err(e);
            },
        };
        let since: u64 = c.u64_or_zero("since");
        Ok(Subscription { sub_id, agent_id, pattern, since })
    }
}

impl Record for Subscription {
    open spec fn key_of(v: SubscriptionV) -> Seq<char> {
        v.sub_id
    }

    open spec fn value_of(v: SubscriptionV) -> CborV {
        v.value()
    }

    open spec fn read_of(c: CborV) -> Result<SubscriptionV, ErrV> {
        SubscriptionV::read(c)
    }

    open spec fn valid(v: SubscriptionV) -> bool {
        true
    }

    proof fn lemma_back(v: SubscriptionV) {
        v.lemma_read_back();
    }

    fn key(&self) -> (r: String) {
        self.sub_id.clone()
    }

    fn to_row(&self) -> (r: Cbor) {
        self.to_cbor()
    }

    fn from_row(c: &Cbor) -> (r: UcResult<Subscription>) {
        Subscription::from_cbor(c)
    }
}

/// The state of the subscriptions.
#[verifier::ext_equal]
pub struct SubsV {
    pub subs: Map<Seq<char>, SubscriptionV>,
    pub seq: u64,
}

/// Some subscription of this agent matches the event.
pub open spec fn wants(
    subs: Map<Seq<char>, SubscriptionV>,
    event: Seq<char>,
    agent: Seq<char>,
) -> bool {
    exists|k: Seq<char>|
        #[trigger] subs.contains_key(k) && subs[k].agent_id == agent && glob_matches(
            subs[k].pattern,
            event,
        )
}

impl SubsV {
    /// Each subscription is under its own id.
    pub open spec fn wf(self) -> bool {
        keyed::<Subscription>(self.subs)
    }

    /// The id of the next subscription.
    pub open spec fn next_id(self) -> Seq<char> {
        "sub/"@ + padded((self.seq + 1) as nat, 16)
    }

    /// One subscription more.
    pub open spec fn subscribe(self, at: u64, agent_id: Seq<char>, pattern: Seq<char>) -> SubsV {
        SubsV {
            subs: self.subs.insert(
                self.next_id(),
                SubscriptionV { sub_id: self.next_id(), agent_id, pattern, since: at },
            ),
            seq: (self.seq + 1) as u64,
        }
    }

    /// The agents that want an event.
    pub open spec fn audience(self, event: Seq<char>) -> Set<Seq<char>> {
        Set::new(|a: Seq<char>| wants(self.subs, event, a))
    }

    /// The answer to a query.
    pub open spec fn answer(self, q: CborV) -> Result<CborV, ErrV> {
        match q.text_field("event"@) {
            None => Err((ErrCode::Internal, missing_text("event"@))),
            Some(e) => Ok(
                map_value(seq![("subscribers"@, texts_value(text_order(self.audience(e))))]),
            ),
        }
    }

    /// The state after an update, and the reply.
    pub open spec fn update(self, at: u64, u: CborV) -> (SubsV, Result<CborV, ErrV>) {
        let op = u.text_field("op"@);
        if op is None || op == Some("subscribe"@) {
            if u.text_field("agent_id"@) is None {
                (self, Err((ErrCode::Internal, missing_text("agent_id"@))))
            } else if u.text_field("pattern"@) is None {
                (self, Err((ErrCode::Internal, missing_text("pattern"@))))
            } else {
                (
                    self.subscribe(at, u.text_field("agent_id"@)->0, u.text_field("pattern"@)->0),
                    Ok(map_value(seq![("sub_id"@, CborV::Text(self.next_id()))])),
                )
            }
        } else if op == Some("unsubscribe"@) {
            match u.text_field("sub_id"@) {
                None => (self, Err((ErrCode::Internal, missing_text("sub_id"@)))),
                Some(s) => (
                    SubsV { subs: self.subs.remove(s), ..self },
                    Ok(map_value(seq![("removed"@, CborV::Bool(self.subs.contains_key(s)))])),
                ),
            }
        } else {
            (self, Err((ErrCode::ContractViolation, "subscription: unknown update op"@)))
        }
    }

    /// The snapshot of the state.
    pub open spec fn image(self) -> CborV {
        map_value(
            seq![
                ("seq"@, CborV::U64(self.seq)),
                ("subs"@, CborV::Array(record_rows::<Subscription>(self.subs))),
            ],
        )
    }

    /// What a snapshot restores to.
    pub open spec fn from_image(v: CborV) -> (SubsV, Option<ErrV>) {
        let (subs, e) = records_in::<Subscription>(v, "subs"@);
        (SubsV { subs, seq: u64_or_zero(v, "seq"@) }, e)
    }

    /// A snapshot restores to the same state.
    pub proof fn lemma_restore_snapshot(self)
        requires
            self.wf(),
            self.subs.dom().finite(),
        ensures
            SubsV::from_image(self.image()) == (self, None::<ErrV>),
    {
        let m = self.image()->Pairs_0;
        reveal_strlit("seq");
        reveal_strlit("subs");
        assert("seq"@.len() == 3);
        assert("subs"@.len() == 4);
        reveal_with_fuel(lookup_from, 3);
        assert(m[0].0 == CborV::Text("seq"@));
        assert(m[1].0 == CborV::Text("subs"@));
        assert(self.image().field("seq"@) == Some(CborV::U64(self.seq)));
        assert(self.image().field("subs"@) == Some(CborV::Array(record_rows::<Subscription>(self.subs))));
        lemma_records_back::<Subscription>(self.subs);
    }

    /// A subscription is kept for the agent and the pattern that asked for it, under the id
    /// that the reply names; taking it back takes that one away and no other. Nothing else
    /// is touched.
    pub proof fn lemma_update(self, at: u64, u: CborV, other: Seq<char>)
        ensures
            ({
                let (st, r) = self.update(at, u);
                let op = u.text_field("op"@);
                let asks = op is None || op == Some("subscribe"@);
                let (agent, pattern) = (u.text_field("agent_id"@), u.text_field("pattern"@));
                &&& asks ==> (r is Ok <==> agent is Some && pattern is Some)
                &&& op == Some("unsubscribe"@) ==> (r is Ok <==> u.text_field("sub_id"@) is Some)
                &&& !asks && op != Some("unsubscribe"@) ==> r is Err
                &&& r is Err ==> st == self
                &&& asks && r is Ok ==> {
                    let id = r->Ok_0.text_field("sub_id"@)->0;
                    &&& r->Ok_0.text_field("sub_id"@) is Some
                    &&& st.subs.contains_key(id)
                    &&& agent == Some(st.subs[id].agent_id)
                    &&& pattern == Some(st.subs[id].pattern)
                    &&& st.subs[id].sub_id == id && st.subs[id].since == at
                    &&& other != id ==> (st.subs.contains_key(other) <==> self.subs.contains_key(
                        other,
                    )) && (self.subs.contains_key(other) ==> st.subs[other] == self.subs[other])
                }
                &&& !asks && r is Ok ==> {
                    let id = u.text_field("sub_id"@)->0;
                    &&& !st.subs.contains_key(id)
                    &&& r->Ok_0.bool_field("removed"@) == Some(self.subs.contains_key(id))
                    &&& other != id ==> (st.subs.contains_key(other) <==> self.subs.contains_key(
                        other,
                    )) && (self.subs.contains_key(other) ==> st.subs[other] == self.subs[other])
                }
            }),
    {
        reveal_strlit("subscribe");
        reveal_strlit("unsubscribe");
        assert("subscribe"@.len() == 9 && "unsubscribe"@.len() == 11);
        lemma_one_field("sub_id"@, CborV::Text(self.next_id()));
        if u.text_field("sub_id"@) is Some {
            lemma_one_field(
                "removed"@,
                CborV::Bool(self.subs.contains_key(u.text_field("sub_id"@)->0)),
            );
        }
    }

    /// An event is told to exactly those agents that have a subscription whose pattern it
    /// matches.
    pub proof fn lemma_told(self, q: CborV, e: Seq<char>, agent: Seq<char>)
        requires
            q.text_field("event"@) == Some(e),
            self.audience(e).finite(),
        ensures
            self.answer(q) is Ok,
            texts_field(self.answer(q)->Ok_0, "subscribers"@).contains(agent) <==> exists|
                k: Seq<char>,
            | #[trigger]
                self.subs.contains_key(k) && self.subs[k].agent_id == agent && glob_matches(
                    self.subs[k].pattern,
                    e,
                ),
    {
        let a = self.audience(e);
        let o = text_order(a);
        lemma_one_field("subscribers"@, texts_value(o));
        lemma_texts_back(o);
        lemma_finite_listed(a);
        assert(a.contains(agent) <==> o.contains(agent));
    }

    /// Whoever subscribes to a pattern gets every event that it matches.
    pub proof fn lemma_subscribed(
        self,
        at: u64,
        agent: Seq<char>,
        pattern: Seq<char>,
        event: Seq<char>,
    )
        requires
            glob_matches(pattern, event),
        ensures
            self.subscribe(at, agent, pattern).audience(event).contains(agent),
    {
        let st = self.subscribe(at, agent, pattern);
        assert(st.subs.contains_key(self.next_id()));
    }
}

/// The subscriptions.
#[derive(Debug)]
pub struct SubscriptionCell {
    pub id: CellId,
    subs: TextMap<Subscription>,
    seq: u64,
}

impl View for SubscriptionCell {
    type V = SubsV;

    closed spec fn view(&self) -> SubsV {
        SubsV { subs: self.subs@, seq: self.seq }
    }
}

impl SubscriptionCell {
    /// The id of the cell.
    pub closed spec fn ident(&self) -> CellId {
        self.id
    }

    pub fn new(id: CellId) -> (r: Self)
        ensures
            r.ident() == id,
            r@ == (SubsV { subs: Map::empty(), seq: 0 }),
    {
        SubscriptionCell { id, subs: TextMap::new(), seq: 0 }
    }

    /// Subscribes an agent and returns the id of the subscription.
    pub fn subscribe(&mut self, at: u64, agent_id: &str, pattern: &str) -> (r: String)
        requires
            old(self)@.seq < u64::MAX,
        ensures
            final(self).ident() == old(self).ident(),
            final(self)@ == old(self)@.subscribe(at, agent_id@, pattern@),
            r@ == old(self)@.next_id(),
            old(self)@.wf() ==> final(self)@.wf(),
    {
        self.seq = self.seq + 1;
        let sid = cat2("sub/", padded_text(self.seq, 16).as_str());
        self.subs.insert(
            sid.clone(),
            Subscription {
                sub_id: sid.clone(),
                agent_id: agent_id.to_owned(),
                pattern: pattern.to_owned(),
                since: at,
            },
        );
        sid
    }

    /// Ends a subscription; says whether there was one.
    pub fn unsubscribe(&mut self, sid: &str) -> (r: bool)
        ensures
            final(self).ident() == old(self).ident(),
            r == old(self)@.subs.contains_key(sid@),
            final(self)@ == (SubsV { subs: old(self)@.subs.remove(sid@), ..old(self)@ }),
            old(self)@.wf() ==> final(self)@.wf(),
    {
        self.subs.remove(sid).is_some()
    }

    /// The agents that want an event, in ascending order, each once.
    pub fn matching(&self, event: &str) -> (r: Vec<String>)
        ensures
            text_views(r@) == text_order(self@.audience(event@)),
            lists(text_views(r@), self@.audience(event@)),
    {
        let n: usize = self.subs.len();
        let ghost m = self.subs@;
        let ghost o = self.subs.order();
        let mut found = TextSet::new();
        let mut i: usize = 0;
        while i < n
            invariant
                i <= n == o.len(),
                o == self.subs.order(),
                m == self.subs@,
                forall|j: int| 0 <= j < n ==> m.contains_key(#[trigger] o[j]),
                forall|a: Seq<char>|
                    #[trigger] found@.contains(a) ==> wants(m, event@, a),
                forall|j: int|
                    0 <= j < i && glob_matches(m[#[trigger] o[j]].pattern, event@)
                        ==> found@.contains(m[o[j]].agent_id),
            decreases n - i,
        {
            let s = self.subs.value_at(i);
            if glob_match(s.pattern.as_str(), event) {
                assert(m.contains_key(o[i as int]));
                assert(wants(m, event@, s.agent_id@));
                found.insert(s.agent_id.as_str());
            }
            i += 1;
        }
        proof {
            assert forall|a: Seq<char>| #[trigger] found@.contains(a) == self@.audience(event@).contains(a) by {
                if wants(m, event@, a) {
                    let k = choose|k: Seq<char>|
                        #[trigger] m.contains_key(k) && m[k].agent_id == a && glob_matches(
                            m[k].pattern,
                            event@,
                        );
                    assert(m.dom().contains(k));
                    assert(o.contains(k));
                    let j = choose|j: int| 0 <= j < o.len() && o[j] == k;
                    assert(glob_matches(m[o[j]].pattern, event@));
                }
            }
            assert(found@ =~= self@.audience(event@));
        }
        found.to_vec()
    }
}

impl CellBehavior for SubscriptionCell {
    open spec fn wf(&self) -> bool {
        self@.wf()
    }

    open spec fn accepts(&self, logical_at: u64, update: CborV) -> bool {
        (update.text_field("op"@) is None || update.text_field("op"@) == Some("subscribe"@))
            && update.text_field("agent_id"@) is Some && update.text_field("pattern"@) is Some
            ==> self@.seq < u64::MAX
    }

    open spec fn restorable(state: CborV) -> bool {
        true
    }

    fn cell_id(&self) -> (r: CellId)
        ensures
            r == self.ident(),
    {
        self.id
    }

    fn cell_type(&self) -> (r: CellType)
        ensures
            r == CellType::Subscription,
    {
        CellType::Subscription
    }

    fn schema_id(&self) -> (r: SchemaId)
        ensures
            r.0@ == "subscription.v1"@,
    {
        SchemaId::new("subscription.v1")
    }

    fn on_query(&self, _at: u64, query: &Cbor) -> (r: UcResult<Cbor>)
        ensures
            agrees(r, self@.answer(query@)),
    {
        let event = match query.req_str("event") {
            Ok(x) => x,
            Err(e) => {
                return Err(e);
            },
        };
        Ok(
            Cbor::map1(
                "subscribers",
                Cbor::text_array(self.matching(event.as_str()).as_slice()),
            ),
        )
    }

    fn on_update(&mut self, at: u64, update: &Cbor) -> (r: UcResult<Cbor>)
        ensures
            final(self).ident() == old(self).ident(),
            final(self)@ == old(self)@.update(at, update@).0,
            agrees(r, old(self)@.update(at, update@).1),
    {
        let op = update.opt_str("op");
        let plain: bool = match &op {
            None => true,
            Some(s) => str_eq(s.as_str(), "subscribe"),
        };
        if plain {
            let agent = match update.req_str("agent_id") {
                Ok(x) => x,
                Err(e) => {
                    return Err(e);
                },
            };
            let pattern = match update.req_str("pattern") {
                Ok(x) => x,
                Err(e) => {
                    return Err(e);
                },
            };
            let sid = self.subscribe(at, agent.as_str(), pattern.as_str());
            return Ok(Cbor::map1("sub_id", Cbor::t(sid.as_str())));
        }
        if let Some(op) = op {
            if str_eq(op.as_str(), "unsubscribe") {
                let sid = match update.req_str("sub_id") {
                    Ok(x) => x,
                    Err(e) => {
                        return Err(e);
                    },
                };
                let removed: bool = self.unsubscribe(sid.as_str());
                return Ok(Cbor::map1("removed", Cbor::Bool(removed)));
            }
        }
        Err(UcError::schema("subscription: unknown update op"))
    }

    fn snapshot_state(&self) -> (r: Cbor)
        ensures
            r@ == self@.image(),
            self@.subs.dom().finite(),
    {
        Cbor::map2("seq", Cbor::U64(self.seq), "subs", Cbor::arr(to_rows(&self.subs)))
    }

    fn restore_state(&mut self, state: &Cbor) -> (r: UcResult<()>)
        ensures
            final(self).ident() == old(self).ident(),
            final(self)@ == SubsV::from_image(state@).0,
            agrees(r, done(SubsV::from_image(state@).1)),
    {
        self.seq = state.u64_or_zero("seq");
        let (subs, outcome) = rows_in::<Subscription>(state, "subs");
        proof {
            lemma_records_keyed::<Subscription>(state@, "subs"@);
        }
        self.subs = subs;
        outcome
    }
}

} // verus!
