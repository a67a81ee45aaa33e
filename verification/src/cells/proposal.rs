//! Proposals: decisions that two agents besides the proposer have to approve.

use vstd::prelude::*;
use crate::cbor::{
    lemma_field_at, lemma_one_field, lemma_texts_back, lookup_from, map_value, missing_text, text_or_empty, texts_field,
    texts_value, u64_or_zero, value_or_null, Cbor, CborV,
};
use crate::cells::{CellBehavior, CellType};
use crate::rows::{
    done, keyed, lemma_records_back, lemma_records_keyed, record_rows, records_in, rows_in,
    to_rows, Record,
};
use crate::text::{cat2, cat3, padded, padded_text, str_eq};
use crate::textmap::{lemma_finite_listed, text_order, TextMap, TextSet};
use crate::vocab::{agrees, CellId, ErrCode, ErrV, SchemaId, UcError, UcResult};

verus! {

/// How many votes decide.
pub const PROPOSAL_QUORUM: usize = 2;

/// Where a proposal stands.
#[derive(Clone, Copy, Debug, PartialEq, Eq, Structural)]
pub enum ProposalStatus {
    Open,
    Accepted,
    Rejected,
}

impl DeepView for ProposalStatus {
    type V = ProposalStatus;

    open spec fn deep_view(&self) -> ProposalStatus {
        *self
    }
}

impl ProposalStatus {
    /// The text that stands for a status.
    pub open spec fn name(self) -> Seq<char> {
        match self {
            ProposalStatus::Open => "open"@,
            ProposalStatus::Accepted => "accepted"@,
            ProposalStatus::Rejected => "rejected"@,
        }
    }

    /// The status with that name.
    pub open spec fn named(s: Seq<char>) -> Option<ProposalStatus> {
        if s == "open"@ {
            Some(ProposalStatus::Open)
        } else if s == "accepted"@ {
            Some(ProposalStatus::Accepted)
        } else if s == "rejected"@ {
            Some(ProposalStatus::Rejected)
        } else {
            None
        }
    }

    pub fn as_str(self) -> (r: &'static str)
        ensures
            r@ == self.name(),
    {
        match self {
            ProposalStatus::Open => "open",
            ProposalStatus::Accepted => "accepted",
            ProposalStatus::Rejected => "rejected",
        }
    }

    /// The status with that name.
    pub fn parse(s: &str) -> (r: Option<ProposalStatus>)
        ensures
            r == ProposalStatus::named(s@),
    {
        if str_eq(s, "open") {
            Some(ProposalStatus::Open)
        } else if str_eq(s, "accepted") {
            Some(ProposalStatus::Accepted)
        } else if str_eq(s, "rejected") {
            Some(ProposalStatus::Rejected)
        } else {
            None
        }
    }

    /// Every status is found again by its name, and no two share one.
    pub proof fn lemma_named(a: ProposalStatus, b: ProposalStatus)
        ensures
            ProposalStatus::named(a.name()) == Some(a),
            a.name() == b.name() ==> a == b,
    {
        reveal_strlit("open");
        reveal_strlit("accepted");
        reveal_strlit("rejected");
        assert("open"@.len() == 4);
        assert("accepted"@.len() == 8);
        assert("rejected"@.len() == 8);
        assert("accepted"@[0] != "rejected"@[0]);
    }
}

/// A proposal and the votes on it.
#[derive(Debug)]
pub struct Proposal {
    pub proposal_id: String,
    pub proposer: String,
    pub body: Cbor,
    pub approvals: TextSet,
    pub rejections: TextSet,
    pub status: ProposalStatus,
    pub opened_at: u64,
}

/// A proposal as a mathematical object.
#[verifier::ext_equal]
pub struct ProposalV {
    pub proposal_id: Seq<char>,
    pub proposer: Seq<char>,
    pub body: CborV,
    pub approvals: Set<Seq<char>>,
    pub rejections: Set<Seq<char>>,
    pub status: ProposalStatus,
    pub opened_at: u64,
}

impl DeepView for Proposal {
    type V = ProposalV;

    open spec fn deep_view(&self) -> ProposalV {
        ProposalV {
            proposal_id: self.proposal_id@,
            proposer: self.proposer@,
            body: self.body@,
            approvals: self.approvals@,
            rejections: self.rejections@,
            status: self.status,
            opened_at: self.opened_at,
        }
    }
}

impl Clone for Proposal {
    fn clone(&self) -> (r: Proposal)
        ensures
            r.deep_view() == self.deep_view(),
    {
        Proposal {
            proposal_id: self.proposal_id.clone(),
            proposer: self.proposer.clone(),
            body: self.body.dup(),
            approvals: self.approvals.dup(),
            rejections: self.rejections.dup(),
            status: self.status,
            opened_at: self.opened_at,
        }
    }
}

impl ProposalV {
    /// The encoded form of a proposal.
    pub open spec fn value(self) -> CborV {
        map_value(
            seq![
                ("proposal_id"@, CborV::Text(self.proposal_id)),
                ("proposer"@, CborV::Text(self.proposer)),
                ("body"@, self.body),
                ("approvals"@, texts_value(text_order(self.approvals))),
                ("rejections"@, texts_value(text_order(self.rejections))),
                ("status"@, CborV::Text(self.status.name())),
                ("opened_at"@, CborV::U64(self.opened_at)),
            ],
        )
    }

    /// What an encoded form says; the first required field that is missing is the
    /// error.
    pub open spec fn read(v: CborV) -> Result<ProposalV, ErrV> {
        if v.text_field("proposal_id"@) is None {
            Err((ErrCode::Internal, missing_text("proposal_id"@)))
        } else {
            Ok(
                ProposalV {
                    proposal_id: v.text_field("proposal_id"@)->0,
                    proposer: text_or_empty(v, "proposer"@),
                    body: value_or_null(v, "body"@),
                    approvals: texts_field(v, "approvals"@).to_set(),
                    rejections: texts_field(v, "rejections"@).to_set(),
                    status: match ProposalStatus::named(text_or_empty(v, "status"@)) {
                        Some(x) => x,
                        None => ProposalStatus::Open,
                    },
                    opened_at: u64_or_zero(v, "opened_at"@),
                },
            )
        }
    }

    /// Reading gives back what was encoded.
    pub proof fn lemma_read_back(self)
        requires
            self.approvals.finite(),
            self.rejections.finite(),
        ensures
            ProposalV::read(self.value()) == Ok::<_, ErrV>(self),
            self.value().field("proposal_id"@) == Some(CborV::Text(self.proposal_id)),
            self.value().field("proposer"@) == Some(CborV::Text(self.proposer)),
            self.value().field("body"@) == Some(self.body),
            self.value().field("approvals"@) == Some(texts_value(text_order(self.approvals))),
            self.value().field("rejections"@) == Some(texts_value(text_order(self.rejections))),
            self.value().field("status"@) == Some(CborV::Text(self.status.name())),
            self.value().field("opened_at"@) == Some(CborV::U64(self.opened_at)),
    {
        reveal_strlit("proposal_id");
        reveal_strlit("proposer");
        reveal_strlit("body");
        reveal_strlit("approvals");
        reveal_strlit("rejections");
        reveal_strlit("status");
        reveal_strlit("opened_at");
        assert("proposal_id"@.len() == 11);
        assert("proposer"@.len() == 8);
        assert("body"@.len() == 4);
        assert("approvals"@.len() == 9);
        assert("rejections"@.len() == 10);
        assert("status"@.len() == 6);
        assert("opened_at"@.len() == 9);
        assert("approvals"@[0] != "opened_at"@[0]);
        reveal_with_fuel(lookup_from, 8);
        lemma_texts_back(text_order(self.approvals));
        lemma_finite_listed(self.approvals);
        assert(text_order(self.approvals).to_set() =~= self.approvals);
        lemma_texts_back(text_order(self.rejections));
        lemma_finite_listed(self.rejections);
        assert(text_order(self.rejections).to_set() =~= self.rejections);
        ProposalStatus::lemma_named(self.status, self.status);
        let m = self.value()->Pairs_0;
        assert(m[0].0 == CborV::Text("proposal_id"@));
        assert(m[1].0 == CborV::Text("proposer"@));
        assert(m[2].0 == CborV::Text("body"@));
        assert(m[3].0 == CborV::Text("approvals"@));
        assert(m[4].0 == CborV::Text("rejections"@));
        assert(m[5].0 == CborV::Text("status"@));
        assert(m[6].0 == CborV::Text("opened_at"@));
        assert(self.value().field("proposal_id"@) == Some(CborV::Text(self.proposal_id)));
        assert(self.value().field("proposer"@) == Some(CborV::Text(self.proposer)));
        assert(self.value().field("body"@) == Some(self.body));
        assert(self.value().field("approvals"@) == Some(texts_value(text_order(self.approvals))));
        assert(self.value().field("rejections"@) == Some(texts_value(text_order(self.rejections))));
        assert(self.value().field("status"@) == Some(CborV::Text(self.status.name())));
        assert(self.value().field("opened_at"@) == Some(CborV::U64(self.opened_at)));
    }

}

impl Proposal {
    fn to_cbor(&self) -> (r: Cbor)
        ensures
            r@ == self.deep_view().value(),
    {
        let pairs = vec![
            ("proposal_id", Cbor::t(self.proposal_id.as_str())),
            ("proposer", Cbor::t(self.proposer.as_str())),
            ("body", self.body.dup()),
            ("approvals", Cbor::text_array(self.approvals.to_vec().as_slice())),
            ("rejections", Cbor::text_array(self.rejections.to_vec().as_slice())),
            ("status", Cbor::t(self.status.as_str())),
            ("opened_at", Cbor::U64(self.opened_at)),
        ];
        let ghost want = seq![
            ("proposal_id"@, CborV::Text(self.proposal_id@)),
            ("proposer"@, CborV::Text(self.proposer@)),
            ("body"@, self.body@),
            ("approvals"@, texts_value(text_order(self.approvals@))),
            ("rejections"@, texts_value(text_order(self.rejections@))),
            ("status"@, CborV::Text(self.status.name())),
            ("opened_at"@, CborV::U64(self.opened_at)),
        ];
        assert(Seq::new(pairs@.len(), |i: int| (pairs@[i].0@, pairs@[i].1@)) =~= want);
        Cbor::map(pairs)
    }

    fn from_cbor(c: &Cbor) -> (r: UcResult<Proposal>)
        ensures
            agrees(r, ProposalV::read(c@)),
    {
        let proposal_id = match c.req_str("proposal_id") {
            Ok(x) => x,
            Err(e) => {
                return Err(e);
            },
        };
        let proposer = c.str_or_empty("proposer");
        let body = c.value_or_null("body");
        let approvals = TextSet::of(c.texts_or_empty("approvals").as_slice());
        let rejections = TextSet::of(c.texts_or_empty("rejections").as_slice());
        let status = match ProposalStatus::parse(c.str_or_empty("status").as_str()) {
            Some(x) => x,
            None => ProposalStatus::Open,
        };
        let opened_at: u64 = c.u64_or_zero("opened_at");
        Ok(Proposal { proposal_id, proposer, body, approvals, rejections, status, opened_at })
    }
}

impl Record for Proposal {
    open spec fn key_of(v: ProposalV) -> Seq<char> {
        v.proposal_id
    }

    open spec fn value_of(v: ProposalV) -> CborV {
        v.value()
    }

    open spec fn read_of(c: CborV) -> Result<ProposalV, ErrV> {
        ProposalV::read(c)
    }

    open spec fn valid(v: ProposalV) -> bool {
        v.approvals.finite() && v.rejections.finite()
    }

    proof fn lemma_back(v: ProposalV) {
        v.lemma_read_back();
    }

    fn key(&self) -> (r: String) {
        self.proposal_id.clone()
    }

    fn to_row(&self) -> (r: Cbor) {
        self.to_cbor()
    }

    fn from_row(c: &Cbor) -> (r: UcResult<Proposal>) {
        Proposal::from_cbor(c)
    }
}

impl ProposalV {
    /// The answer about a proposal: the votes are counted, not listed.
    pub open spec fn summary(self) -> CborV {
        map_value(
            seq![
                ("proposal_id"@, CborV::Text(self.proposal_id)),
                ("proposer"@, CborV::Text(self.proposer)),
                ("status"@, CborV::Text(self.status.name())),
                ("approvals"@, CborV::U64(self.approvals.len() as u64)),
                ("rejections"@, CborV::U64(self.rejections.len() as u64)),
                ("body"@, self.body),
            ],
        )
    }

    /// The answer names the proposal, its proposer, how it stands, how many voted either
    /// way, and what is proposed.
    pub proof fn lemma_summary(self)
        ensures
            self.summary().text_field("proposal_id"@) == Some(self.proposal_id),
            self.summary().text_field("proposer"@) == Some(self.proposer),
            self.summary().text_field("status"@) == Some(self.status.name()),
            self.summary().u64_field("approvals"@) == Some(self.approvals.len() as u64),
            self.summary().u64_field("rejections"@) == Some(self.rejections.len() as u64),
            self.summary().field("body"@) == Some(self.body),
    {
        let p = seq![
            ("proposal_id"@, CborV::Text(self.proposal_id)),
            ("proposer"@, CborV::Text(self.proposer)),
            ("status"@, CborV::Text(self.status.name())),
            ("approvals"@, CborV::U64(self.approvals.len() as u64)),
            ("rejections"@, CborV::U64(self.rejections.len() as u64)),
            ("body"@, self.body),
        ];
        reveal_strlit("proposal_id");
        reveal_strlit("proposer");
        reveal_strlit("status");
        reveal_strlit("approvals");
        reveal_strlit("rejections");
        reveal_strlit("body");
        assert("proposal_id"@.len() == 11 && "proposer"@.len() == 8 && "status"@.len() == 6);
        assert("approvals"@.len() == 9 && "rejections"@.len() == 10 && "body"@.len() == 4);
        lemma_field_at(p, 0);
        lemma_field_at(p, 1);
        lemma_field_at(p, 2);
        lemma_field_at(p, 3);
        lemma_field_at(p, 4);
        lemma_field_at(p, 5);
    }

    /// The proposal with one vote more. A proposer's approval is not counted;
    /// two approvals accept, else two rejections reject.
    pub open spec fn voted(self, voter: Seq<char>, approve: bool) -> ProposalV {
        let approvals = if approve && voter != self.proposer {
            self.approvals.insert(voter)
        } else {
            self.approvals
        };
        let rejections = if approve {
            self.rejections
        } else {
            self.rejections.insert(voter)
        };
        ProposalV {
            approvals,
            rejections,
            status: if approvals.len() >= PROPOSAL_QUORUM {
                ProposalStatus::Accepted
            } else if rejections.len() >= PROPOSAL_QUORUM {
                ProposalStatus::Rejected
            } else {
                self.status
            },
            ..self
        }
    }

    /// The status says how the votes stand, and the proposer is not among
    /// those who approved.
    pub open spec fn sound(self) -> bool {
        &&& self.approvals.finite()
        &&& self.rejections.finite()
        &&& !self.approvals.contains(self.proposer)
        &&& self.status == if self.approvals.len() >= PROPOSAL_QUORUM {
            ProposalStatus::Accepted
        } else if self.rejections.len() >= PROPOSAL_QUORUM {
            ProposalStatus::Rejected
        } else {
            ProposalStatus::Open
        }
    }

    /// A vote on an open proposal keeps it sound: it is accepted exactly when
    /// two agents other than the proposer have approved it.
    pub proof fn lemma_vote_sound(self, voter: Seq<char>, approve: bool)
        requires
            self.sound(),
            self.status is Open,
        ensures
            self.voted(voter, approve).sound(),
            self.voted(voter, approve).status is Accepted <==> self.voted(
                voter,
                approve,
            ).approvals.len() >= 2,
            approve && voter == self.proposer ==> self.voted(voter, approve) == self,
    {
        if approve && voter == self.proposer {
            assert(self.voted(voter, approve) =~= self);
        }
    }
}

/// The state of the proposals.
#[verifier::ext_equal]
pub struct ProposalsV {
    pub proposals: Map<Seq<char>, ProposalV>,
    pub seq: u64,
}

impl ProposalsV {
    /// Each proposal is under its own id.
    pub open spec fn wf(self) -> bool {
        keyed::<Proposal>(self.proposals)
    }

    /// Every proposal is sound.
    pub open spec fn sound(self) -> bool {
        forall|k: Seq<char>|
            #[trigger] self.proposals.contains_key(k) ==> self.proposals[k].sound()
    }

    /// The id of the next proposal.
    pub open spec fn next_id(self) -> Seq<char> {
        "proposal/"@ + padded((self.seq + 1) as nat, 16)
    }

    /// One open proposal more, without votes.
    pub open spec fn open_one(self, at: u64, proposer: Seq<char>, body: CborV) -> ProposalsV {
        ProposalsV {
            proposals: self.proposals.insert(
                self.next_id(),
                ProposalV {
                    proposal_id: self.next_id(),
                    proposer,
                    body,
                    approvals: Set::empty(),
                    rejections: Set::empty(),
                    status: ProposalStatus::Open,
                    opened_at: at,
                },
            ),
            seq: (self.seq + 1) as u64,
        }
    }

    /// Why a proposal cannot be voted on, if it cannot.
    pub open spec fn vote_error(self, pid: Seq<char>) -> Option<ErrV> {
        if !self.proposals.contains_key(pid) {
            Some((ErrCode::NotFound, "proposal "@ + pid))
        } else if !(self.proposals[pid].status is Open) {
            Some((ErrCode::ContractViolation, "proposal "@ + pid + " already closed"@))
        } else {
            None
        }
    }

    /// The state after a vote.
    pub open spec fn vote(self, pid: Seq<char>, voter: Seq<char>, approve: bool) -> ProposalsV {
        ProposalsV {
            proposals: self.proposals.insert(pid, self.proposals[pid].voted(voter, approve)),
            ..self
        }
    }

    /// The answer to a query.
    pub open spec fn answer(self, q: CborV) -> Result<CborV, ErrV> {
        match q.text_field("proposal_id"@) {
            None => Err((ErrCode::Internal, missing_text("proposal_id"@))),
            Some(p) => if self.proposals.contains_key(p) {
                Ok(self.proposals[p].summary())
            } else {
                Err((ErrCode::NotFound, "proposal "@ + p))
            },
        }
    }

    /// The state after an update, and the reply.
    pub open spec fn update(self, at: u64, u: CborV) -> (ProposalsV, Result<CborV, ErrV>) {
        let op = u.text_field("op"@);
        if op is None || op == Some("open"@) {
            match u.text_field("proposer"@) {
                None => (self, Err((ErrCode::Internal, missing_text("proposer"@)))),
                Some(p) => (
                    self.open_one(at, p, value_or_null(u, "body"@)),
                    Ok(map_value(seq![("proposal_id"@, CborV::Text(self.next_id()))])),
                ),
            }
        } else if op == Some("vote"@) {
            if u.text_field("proposal_id"@) is None {
                (self, Err((ErrCode::Internal, missing_text("proposal_id"@))))
            } else if u.text_field("voter"@) is None {
                (self, Err((ErrCode::Internal, missing_text("voter"@))))
            } else {
                let pid = u.text_field("proposal_id"@)->0;
                let approve = match u.bool_field("approve"@) {
                    Some(b) => b,
                    None => true,
                };
                match self.vote_error(pid) {
                    Some(e) => (self, Err(e)),
                    None => {
                        let st = self.vote(pid, u.text_field("voter"@)->0, approve);
                        (
                            st,
                            Ok(
                                map_value(
                                    seq![
                                        (
                                            "status"@,
                                            CborV::Text(st.proposals[pid].status.name()),
                                        ),
                                    ],
                                ),
                            ),
                        )
                    },
                }
            }
        } else {
            (self, Err((ErrCode::ContractViolation, "proposal: unknown update op"@)))
        }
    }

    /// The snapshot of the state.
    pub open spec fn image(self) -> CborV {
        map_value(
            seq![
                ("seq"@, CborV::U64(self.seq)),
                ("proposals"@, CborV::Array(record_rows::<Proposal>(self.proposals))),
            ],
        )
    }

    /// What a snapshot restores to.
    pub open spec fn from_image(v: CborV) -> (ProposalsV, Option<ErrV>) {
        let (proposals, e) = records_in::<Proposal>(v, "proposals"@);
        (ProposalsV { proposals, seq: u64_or_zero(v, "seq"@) }, e)
    }

    /// A snapshot restores to the same state.
    pub proof fn lemma_restore_snapshot(self)
        requires
            self.wf(),
            self.proposals.dom().finite(),
        ensures
            ProposalsV::from_image(self.image()) == (self, None::<ErrV>),
    {
        let m = self.image()->Pairs_0;
        reveal_strlit("seq");
        reveal_strlit("proposals");
        assert("seq"@.len() == 3);
        assert("proposals"@.len() == 9);
        reveal_with_fuel(lookup_from, 3);
        assert(m[0].0 == CborV::Text("seq"@));
        assert(m[1].0 == CborV::Text("proposals"@));
        assert(self.image().field("seq"@) == Some(CborV::U64(self.seq)));
        assert(self.image().field("proposals"@) == Some(CborV::Array(record_rows::<Proposal>(self.proposals))));
        lemma_records_back::<Proposal>(self.proposals);
    }

    /// A proposal that is opened is found under the id that the reply names: it is its
    /// proposer's, says what was proposed, is open, and nobody voted on it. Every other
    /// proposal stays as it was.
    pub proof fn lemma_opened(self, at: u64, u: CborV, p: Seq<char>, q: CborV, other: Seq<char>)
        requires
            u.text_field("op"@) is None || u.text_field("op"@) == Some("open"@),
            u.text_field("proposer"@) == Some(p),
            self.update(at, u).1 is Ok,
            q.text_field("proposal_id"@) == self.update(at, u).1->Ok_0.text_field("proposal_id"@),
        ensures
            ({
                let (st, r) = self.update(at, u);
                let pid = r->Ok_0.text_field("proposal_id"@)->0;
                let a = st.answer(q)->Ok_0;
                &&& r->Ok_0.text_field("proposal_id"@) is Some
                &&& st.proposals.contains_key(pid)
                &&& st.proposals[pid].opened_at == at
                &&& st.answer(q) is Ok
                &&& a.text_field("proposal_id"@) == Some(pid)
                &&& a.text_field("proposer"@) == Some(p)
                &&& a.text_field("status"@) == Some(ProposalStatus::Open.name())
                &&& a.u64_field("approvals"@) == Some(0u64)
                &&& a.u64_field("rejections"@) == Some(0u64)
                &&& u.field("body"@) is Some ==> a.field("body"@) == u.field("body"@)
                &&& other != pid ==> (st.proposals.contains_key(other)
                    <==> self.proposals.contains_key(other)) && (self.proposals.contains_key(other)
                    ==> st.proposals[other] == self.proposals[other])
            }),
    {
        let st = self.update(at, u).0;
        let pid = self.next_id();
        lemma_one_field("proposal_id"@, CborV::Text(pid));
        st.proposals[pid].lemma_summary();
    }

    /// A vote is counted exactly where the proposal is there and open. Then the voter is
    /// among those who approved, unless it is the proposer, or among those who rejected;
    /// nobody else is. Two approvals accept the proposal; without them two rejections
    /// reject it; and else it stays open. The reply says how it stands.
    pub proof fn lemma_voted(self, at: u64, u: CborV, pid: Seq<char>, voter: Seq<char>, x: Seq<char>)
        requires
            u.text_field("op"@) == Some("vote"@),
            u.text_field("proposal_id"@) == Some(pid),
            u.text_field("voter"@) == Some(voter),
        ensures
            ({
                let (st, r) = self.update(at, u);
                let approve = u.bool_field("approve"@) != Some(false);
                let counts = self.proposals.contains_key(pid) && self.proposals[pid].status is Open;
                &&& r is Ok <==> counts
                &&& !counts ==> st == self
                &&& counts ==> {
                    let (was, now) = (self.proposals[pid], st.proposals[pid]);
                    &&& st.proposals.dom() == self.proposals.dom() && st.seq == self.seq
                    &&& now.approvals.contains(x) <==> was.approvals.contains(x) || (x == voter
                        && approve && voter != was.proposer)
                    &&& now.rejections.contains(x) <==> was.rejections.contains(x) || (x == voter
                        && !approve)
                    &&& now.status is Accepted <==> now.approvals.len() >= 2
                    &&& now.status is Rejected <==> now.approvals.len() < 2 && now.rejections.len() >= 2
                    &&& now.status is Open <==> now.approvals.len() < 2 && now.rejections.len() < 2
                    &&& now.proposer == was.proposer && now.body == was.body && now.proposal_id
                        == was.proposal_id && now.opened_at == was.opened_at
                    &&& r->Ok_0.text_field("status"@) == Some(now.status.name())
                    &&& x != pid && self.proposals.contains_key(x) ==> st.proposals[x]
                        == self.proposals[x]
                }
            }),
    {
        reveal_strlit("open");
        reveal_strlit("vote");
        assert("open"@[0] != "vote"@[0]);
        let (st, r) = self.update(at, u);
        if r is Ok {
            lemma_one_field("status"@, CborV::Text(st.proposals[pid].status.name()));
            assert(st.proposals.dom() =~= self.proposals.dom());
        }
    }

    /// Opening and voting keep every proposal sound, so no proposal is ever
    /// accepted without two approvals from others, and a closed one keeps its
    /// status: a vote on it is an error that changes nothing.
    pub proof fn lemma_update_sound(self, at: u64, u: CborV, pid: Seq<char>)
        requires
            self.sound(),
            self.seq < u64::MAX,
            !self.proposals.contains_key(self.next_id()),
        ensures
            self.update(at, u).0.sound(),
            self.proposals.contains_key(pid) && !(self.proposals[pid].status is Open)
                ==> self.update(at, u).0.proposals[pid] == self.proposals[pid],
    {
        let st = self.update(at, u).0;
        assert forall|k: Seq<char>| #[trigger] st.proposals.contains_key(k) implies st.proposals[k].sound() by {
            if self.proposals.contains_key(k) && self.proposals[k].status is Open {
                if u.text_field("voter"@) is Some {
                    self.proposals[k].lemma_vote_sound(u.text_field("voter"@)->0, true);
                    self.proposals[k].lemma_vote_sound(u.text_field("voter"@)->0, false);
                }
            }
        }
    }
}

/// The proposals.
#[derive(Debug)]
pub struct ProposalCell {
    pub id: CellId,
    proposals: TextMap<Proposal>,
    seq: u64,
}

impl View for ProposalCell {
    type V = ProposalsV;

    closed spec fn view(&self) -> ProposalsV {
        ProposalsV { proposals: self.proposals@, seq: self.seq }
    }
}

impl ProposalCell {
    /// The id of the cell.
    pub closed spec fn ident(&self) -> CellId {
        self.id
    }

    pub fn new(id: CellId) -> (r: Self)
        ensures
            r.ident() == id,
            r@ == (ProposalsV { proposals: Map::empty(), seq: 0 }),
    {
        ProposalCell { id, proposals: TextMap::new(), seq: 0 }
    }

    /// Opens a proposal and returns its id.
    pub fn open(&mut self, at: u64, proposer: &str, body: Cbor) -> (r: String)
        requires
            old(self)@.seq < u64::MAX,
        ensures
            final(self).ident() == old(self).ident(),
            final(self)@ == old(self)@.open_one(at, proposer@, body@),
            r@ == old(self)@.next_id(),
            old(self)@.wf() ==> final(self)@.wf(),
    {
        self.seq = self.seq + 1;
        let pid = cat2("proposal/", padded_text(self.seq, 16).as_str());
        self.proposals.insert(
            pid.clone(),
            Proposal {
                proposal_id: pid.clone(),
                proposer: proposer.to_owned(),
                body,
                approvals: TextSet::new(),
                rejections: TextSet::new(),
                status: ProposalStatus::Open,
                opened_at: at,
            },
        );
        pid
    }

    /// Votes on an open proposal and returns its status.
    pub fn vote(&mut self, pid: &str, voter: &str, approve: bool) -> (r: UcResult<ProposalStatus>)
        ensures
            final(self).ident() == old(self).ident(),
            old(self)@.wf() ==> final(self)@.wf(),
            match old(self)@.vote_error(pid@) {
                Some(e) => final(self)@ == old(self)@ && agrees(r, Err(e)),
                None => final(self)@ == old(self)@.vote(pid@, voter@, approve) && agrees(
                    r,
                    Ok(final(self)@.proposals[pid@].status),
                ),
            },
    {
        let ghost was = self@;
        match self.proposals.get(pid) {
            None => {
                return Err(UcError::not_found(cat2("proposal ", pid).as_str()));
            },
            Some(p) => {
                if p.status != ProposalStatus::Open {
                    return Err(UcError::schema(cat3("proposal ", pid, " already closed").as_str()));
                }
            },
        }
        match self.proposals.remove(pid) {
            Some(p) => {
                let mut p = p;
                let ghost before = p.deep_view();
                if approve {
                    if !str_eq(voter, p.proposer.as_str()) {
                        p.approvals.insert(voter);
                    }
                } else {
                    p.rejections.insert(voter);
                }
                if p.approvals.len() >= PROPOSAL_QUORUM {
                    p.status = ProposalStatus::Accepted;
                } else if p.rejections.len() >= PROPOSAL_QUORUM {
                    p.status = ProposalStatus::Rejected;
                }
                let status = p.status;
                assert(p.deep_view() =~= before.voted(voter@, approve));
                self.proposals.insert(pid.to_owned(), p);
                assert(self@.proposals =~= was.vote(pid@, voter@, approve).proposals);
                Ok(status)
            },
            None => Err(UcError::not_found(cat2("proposal ", pid).as_str())),
        }
    }

    pub fn get(&self, pid: &str) -> (r: Option<&Proposal>)
        ensures
            match r {
                Some(p) => self@.proposals.contains_key(pid@) && p.deep_view()
                    == self@.proposals[pid@],
                None => !self@.proposals.contains_key(pid@),
            },
    {
        self.proposals.get(pid)
    }
}

impl CellBehavior for ProposalCell {
    open spec fn wf(&self) -> bool {
        self@.wf()
    }

    open spec fn accepts(&self, logical_at: u64, update: CborV) -> bool {
        (update.text_field("op"@) is None || update.text_field("op"@) == Some("open"@))
            && update.text_field("proposer"@) is Some ==> self@.seq < u64::MAX
    }

    open spec fn restorable(state: CborV) -> bool {
        true
    }

    fn cell_id(&self) -> (r: CellId)
        ensures
            r == self.ident(),
    {
        self.id
    }

    fn cell_type(&self) -> (r: CellType)
        ensures
            r == CellType::Proposal,
    {
        CellType::Proposal
    }

    fn schema_id(&self) -> (r: SchemaId)
        ensures
            r.0@ == "proposal.v1"@,
    {
        SchemaId::new("proposal.v1")
    }

    fn on_query(&self, _at: u64, query: &Cbor) -> (r: UcResult<Cbor>)
        ensures
            agrees(r, self@.answer(query@)),
    {
        let pid = match query.req_str("proposal_id") {
            Ok(x) => x,
            Err(e) => {
                return Err(e);
            },
        };
        match self.proposals.get(pid.as_str()) {
            Some(p) => {
                let pairs = vec![
                    ("proposal_id", Cbor::t(p.proposal_id.as_str())),
                    ("proposer", Cbor::t(p.proposer.as_str())),
                    ("status", Cbor::t(p.status.as_str())),
                    ("approvals", Cbor::U64(p.approvals.len() as u64)),
                    ("rejections", Cbor::U64(p.rejections.len() as u64)),
                    ("body", p.body.dup()),
                ];
                let ghost v = p.deep_view();
                assert(Seq::new(pairs@.len(), |i: int| (pairs@[i].0@, pairs@[i].1@)) =~= seq![
                    ("proposal_id"@, CborV::Text(v.proposal_id)),
                    ("proposer"@, CborV::Text(v.proposer)),
                    ("status"@, CborV::Text(v.status.name())),
                    ("approvals"@, CborV::U64(v.approvals.len() as u64)),
                    ("rejections"@, CborV::U64(v.rejections.len() as u64)),
                    ("body"@, v.body),
                ]);
                Ok(Cbor::map(pairs))
            },
            None => Err(UcError::not_found(cat2("proposal ", pid.as_str()).as_str())),
        }
    }

    fn on_update(&mut self, at: u64, update: &Cbor) -> (r: UcResult<Cbor>)
        ensures
            final(self).ident() == old(self).ident(),
            final(self)@ == old(self)@.update(at, update@).0,
            agrees(r, old(self)@.update(at, update@).1),
    {
        let op = update.opt_str("op");
        let plain: bool = match &op {
            None => true,
            Some(s) => str_eq(s.as_str(), "open"),
        };
        if plain {
            let proposer = match update.req_str("proposer") {
                Ok(x) => x,
                Err(e) => {
                    return Err(e);
                },
            };
            let body = update.value_or_null("body");
            let pid = self.open(at, proposer.as_str(), body);
            return Ok(Cbor::map1("proposal_id", Cbor::t(pid.as_str())));
        }
        if let Some(op) = op {
            if str_eq(op.as_str(), "vote") {
                let pid = match update.req_str("proposal_id") {
                    Ok(x) => x,
                    Err(e) => {
                        return Err(e);
                    },
                };
                let voter = match update.req_str("voter") {
                    Ok(x) => x,
                    Err(e) => {
                        return Err(e);
                    },
                };
                let approve: bool = match update.opt_bool("approve") {
                    Some(b) => b,
                    None => true,
                };
                return match self.vote(pid.as_str(), voter.as_str(), approve) {
                    Ok(s) => Ok(Cbor::map1("status", Cbor::t(s.as_str()))),
                    Err(e) => Err(e),
                };
            }
        }
        Err(UcError::schema("proposal: unknown update op"))
    }

    fn snapshot_state(&self) -> (r: Cbor)
        ensures
            r@ == self@.image(),
            self@.proposals.dom().finite(),
    {
        Cbor::map2("seq", Cbor::U64(self.seq), "proposals", Cbor::arr(to_rows(&self.proposals)))
    }

    fn restore_state(&mut self, state: &Cbor) -> (r: UcResult<()>)
        ensures
            final(self).ident() == old(self).ident(),
            final(self)@ == ProposalsV::from_image(state@).0,
            agrees(r, done(ProposalsV::from_image(state@).1)),
    {
        self.seq = state.u64_or_zero("seq");
        let (proposals, outcome) = rows_in::<Proposal>(state, "proposals");
        proof {
            lemma_records_keyed::<Proposal>(state@, "proposals"@);
        }
        self.proposals = proposals;
        outcome
    }
}

} // verus!
