//! The adjudicator: it settles disputes between the librarian and the warden.
//!
//! A table of policies decides what the substrate itself can tell. What it
//! cannot goes to a judge out of a pool, chosen by the seed; where the judge is
//! uncertain a human decides. Nothing here looks at the ledger: past agreement
//! has no bearing on a dispute.

use vstd::prelude::*;
use crate::cbor::{
    dup_text, lemma_texts_back, lookup_from, map_value, missing_text, opt_text_value, text_or_empty,
    text_views, texts_field, texts_value, u64_or_zero, Cbor, CborV,
};
use crate::cells::{CellBehavior, CellType};
use crate::curator::backend::{count_marked, DeterministicBackend, Exchange, Worker};
use crate::curator::librarian::{count_known, known_among, lemma_count_known};
use crate::curator::warden::among;
use crate::curator::{
    mint, minted, CuratorBackend, CuratorOperation, CuratorPublic, CuratorPublicV, SubstrateView,
    Verdict,
};
use crate::lists::{drop_text, lemma_without, without};
use crate::rows::{
    done, keyed, lemma_records_back, record_rows, records_in, rows_in, to_rows, Record,
};
use crate::sorting::{lemma_sorted_reordered, sort_texts, sorted_texts};
use crate::text::{cat2, cat3, cat5, starts, str_eq};
use crate::textmap::TextMap;
use crate::ulid::seeded;
use crate::vocab::{
    agrees, fnv1a64, fnv_of, CellId, ErrCode, ErrV, SchemaId, UcError, UcResult,
};
use vstd::multiset::Multiset;
use vstd::string::StringSliceAdditionalSpecFns;
use vstd::utf8::encode_utf8;

verus! {

/// How a dispute was settled: for the producer, for the flag, or not yet.
#[derive(Clone, Copy, Debug, PartialEq, Eq, Structural)]
pub enum Resolution {
    InitiatorUpheld,
    AuditorUpheld,
    HumanEscalation,
}

impl Resolution {
    /// The text that stands for a resolution.
    pub open spec fn name(self) -> Seq<char> {
        match self {
            Resolution::InitiatorUpheld => "initiator_upheld"@,
            Resolution::AuditorUpheld => "auditor_upheld"@,
            Resolution::HumanEscalation => "human_escalation"@,
        }
    }

    /// The resolution with that name.
    pub open spec fn named(s: Seq<char>) -> Option<Resolution> {
        if s == "initiator_upheld"@ {
            Some(Resolution::InitiatorUpheld)
        } else if s == "auditor_upheld"@ {
            Some(Resolution::AuditorUpheld)
        } else if s == "human_escalation"@ {
            Some(Resolution::HumanEscalation)
        } else {
            None
        }
    }

    pub fn as_str(self) -> (r: &'static str)
        ensures
            r@ == self.name(),
    {
        match self {
            Resolution::InitiatorUpheld => "initiator_upheld",
            Resolution::AuditorUpheld => "auditor_upheld",
            Resolution::HumanEscalation => "human_escalation",
        }
    }

    /// The resolution with that name.
    pub fn parse(s: &str) -> (r: Option<Resolution>)
        ensures
            r == Resolution::named(s@),
    {
        if str_eq(s, "initiator_upheld") {
            Some(Resolution::InitiatorUpheld)
        } else if str_eq(s, "auditor_upheld") {
            Some(Resolution::AuditorUpheld)
        } else if str_eq(s, "human_escalation") {
            Some(Resolution::HumanEscalation)
        } else {
            None
        }
    }

    /// Every resolution is found again by its name, and no two share one.
    pub proof fn lemma_named(a: Resolution, b: Resolution)
        ensures
            Resolution::named(a.name()) == Some(a),
            a.name() == b.name() ==> a == b,
    {
        reveal_strlit("initiator_upheld");
        reveal_strlit("auditor_upheld");
        reveal_strlit("human_escalation");
        assert("initiator_upheld"@.len() == 16);
        assert("auditor_upheld"@.len() == 14);
        assert("human_escalation"@.len() == 16);
        assert("initiator_upheld"@[0] != "human_escalation"@[0]);
    }
}

/// Who settled a dispute.
#[derive(Clone, Copy, Debug, PartialEq, Eq, Structural)]
pub enum ResolutionPath {
    Policy,
    Pool,
    Human,
}

impl ResolutionPath {
    /// The text that stands for a path.
    pub open spec fn name(self) -> Seq<char> {
        match self {
            ResolutionPath::Policy => "policy"@,
            ResolutionPath::Pool => "pool"@,
            ResolutionPath::Human => "human"@,
        }
    }

    /// The path with that name.
    pub open spec fn named(s: Seq<char>) -> Option<ResolutionPath> {
        if s == "policy"@ {
            Some(ResolutionPath::Policy)
        } else if s == "pool"@ {
            Some(ResolutionPath::Pool)
        } else if s == "human"@ {
            Some(ResolutionPath::Human)
        } else {
            None
        }
    }

    pub fn as_str(self) -> (r: &'static str)
        ensures
            r@ == self.name(),
    {
        match self {
            ResolutionPath::Policy => "policy",
            ResolutionPath::Pool => "pool",
            ResolutionPath::Human => "human",
        }
    }

    /// The path with that name.
    pub fn parse(s: &str) -> (r: Option<ResolutionPath>)
        ensures
            r == ResolutionPath::named(s@),
    {
        if str_eq(s, "policy") {
            Some(ResolutionPath::Policy)
        } else if str_eq(s, "pool") {
            Some(ResolutionPath::Pool)
        } else if str_eq(s, "human") {
            Some(ResolutionPath::Human)
        } else {
            None
        }
    }

    /// Every path is found again by its name, and no two share one.
    pub proof fn lemma_named(a: ResolutionPath, b: ResolutionPath)
        ensures
            ResolutionPath::named(a.name()) == Some(a),
            a.name() == b.name() ==> a == b,
    {
        reveal_strlit("policy");
        reveal_strlit("pool");
        reveal_strlit("human");
        assert("policy"@.len() == 6);
        assert("pool"@.len() == 4);
        assert("human"@.len() == 5);
    }
}

/// A settled dispute, or one that awaits a human.
#[derive(Debug)]
pub struct Adjudication {
    pub handle: String,
    pub initiator_output: String,
    pub auditor_flag: String,
    pub kind: CuratorOperation,
    pub resolution: Resolution,
    pub path: ResolutionPath,
    /// The member of the pool that judged, if one did.
    pub judge: Option<String>,
    pub logical_at: u64,
    pub human_resolved: bool,
}

/// An adjudication as a mathematical object.
#[verifier::ext_equal]
pub struct AdjudicationV {
    pub handle: Seq<char>,
    pub initiator_output: Seq<char>,
    pub auditor_flag: Seq<char>,
    pub kind: CuratorOperation,
    pub resolution: Resolution,
    pub path: ResolutionPath,
    pub judge: Option<Seq<char>>,
    pub logical_at: u64,
    pub human_resolved: bool,
}

impl DeepView for Adjudication {
    type V = AdjudicationV;

    open spec fn deep_view(&self) -> AdjudicationV {
        AdjudicationV {
            handle: self.handle@,
            initiator_output: self.initiator_output@,
            auditor_flag: self.auditor_flag@,
            kind: self.kind,
            resolution: self.resolution,
            path: self.path,
            judge: self.judge.deep_view(),
            logical_at: self.logical_at,
            human_resolved: self.human_resolved,
        }
    }
}

impl Clone for Adjudication {
    fn clone(&self) -> (r: Adjudication)
        ensures
            r.deep_view() == self.deep_view(),
    {
        Adjudication {
            handle: self.handle.clone(),
            initiator_output: self.initiator_output.clone(),
            auditor_flag: self.auditor_flag.clone(),
            kind: self.kind,
            resolution: self.resolution,
            path: self.path,
            judge: dup_text(&self.judge),
            logical_at: self.logical_at,
            human_resolved: self.human_resolved,
        }
    }
}

impl AdjudicationV {
    /// The encoded form of an adjudication.
    pub open spec fn value(self) -> CborV {
        map_value(
            seq![
                ("handle"@, CborV::Text(self.handle)),
                ("initiator_output"@, CborV::Text(self.initiator_output)),
                ("auditor_flag"@, CborV::Text(self.auditor_flag)),
                ("kind"@, CborV::Text(self.kind.name())),
                ("resolution"@, CborV::Text(self.resolution.name())),
                ("path"@, CborV::Text(self.path.name())),
                ("judge"@, opt_text_value(self.judge)),
                ("logical_at"@, CborV::U64(self.logical_at)),
                ("human_resolved"@, CborV::Bool(self.human_resolved)),
            ],
        )
    }

    /// What an encoded form says; the first required field that is missing is the
    /// error.
    pub open spec fn read(v: CborV) -> Result<AdjudicationV, ErrV> {
        if v.text_field("handle"@) is None {
            Err((ErrCode::Internal, missing_text("handle"@)))
        } else {
            Ok(
                AdjudicationV {
                    handle: v.text_field("handle"@)->0,
                    initiator_output: text_or_empty(v, "initiator_output"@),
                    auditor_flag: text_or_empty(v, "auditor_flag"@),
                    kind: match CuratorOperation::named(text_or_empty(v, "kind"@)) {
                        Some(x) => x,
                        None => CuratorOperation::FlagDrift,
                    },
                    resolution: match Resolution::named(text_or_empty(v, "resolution"@)) {
                        Some(x) => x,
                        None => Resolution::HumanEscalation,
                    },
                    path: match ResolutionPath::named(text_or_empty(v, "path"@)) {
                        Some(x) => x,
                        None => ResolutionPath::Human,
                    },
                    judge: v.text_field("judge"@),
                    logical_at: u64_or_zero(v, "logical_at"@),
                    human_resolved: match v.bool_field("human_resolved"@) {
                        Some(b) => b,
                        None => false,
                    },
                },
            )
        }
    }

    /// Reading gives back what was encoded.
    pub proof fn lemma_read_back(self)
        ensures
            AdjudicationV::read(self.value()) == Ok::<_, ErrV>(self),
            self.value().field("handle"@) == Some(CborV::Text(self.handle)),
            self.value().field("initiator_output"@) == Some(CborV::Text(self.initiator_output)),
            self.value().field("auditor_flag"@) == Some(CborV::Text(self.auditor_flag)),
            self.value().field("kind"@) == Some(CborV::Text(self.kind.name())),
            self.value().field("resolution"@) == Some(CborV::Text(self.resolution.name())),
            self.value().field("path"@) == Some(CborV::Text(self.path.name())),
            self.value().field("judge"@) == Some(opt_text_value(self.judge)),
            self.value().field("logical_at"@) == Some(CborV::U64(self.logical_at)),
            self.value().field("human_resolved"@) == Some(CborV::Bool(self.human_resolved)),
    {
        reveal_strlit("handle");
        reveal_strlit("initiator_output");
        reveal_strlit("auditor_flag");
        reveal_strlit("kind");
        reveal_strlit("resolution");
        reveal_strlit("path");
        reveal_strlit("judge");
        reveal_strlit("logical_at");
        reveal_strlit("human_resolved");
        assert("handle"@.len() == 6);
        assert("initiator_output"@.len() == 16);
        assert("auditor_flag"@.len() == 12);
        assert("kind"@.len() == 4);
        assert("resolution"@.len() == 10);
        assert("path"@.len() == 4);
        assert("judge"@.len() == 5);
        assert("logical_at"@.len() == 10);
        assert("human_resolved"@.len() == 14);
        assert("kind"@[0] != "path"@[0]);
        assert("resolution"@[0] != "logical_at"@[0]);
        reveal_with_fuel(lookup_from, 10);
        CuratorOperation::lemma_named(self.kind, self.kind);
        Resolution::lemma_named(self.resolution, self.resolution);
        ResolutionPath::lemma_named(self.path, self.path);
        let m = self.value()->Pairs_0;
        assert(m[0].0 == CborV::Text("handle"@));
        assert(m[1].0 == CborV::Text("initiator_output"@));
        assert(m[2].0 == CborV::Text("auditor_flag"@));
        assert(m[3].0 == CborV::Text("kind"@));
        assert(m[4].0 == CborV::Text("resolution"@));
        assert(m[5].0 == CborV::Text("path"@));
        assert(m[6].0 == CborV::Text("judge"@));
        assert(m[7].0 == CborV::Text("logical_at"@));
        assert(m[8].0 == CborV::Text("human_resolved"@));
        assert(self.value().field("handle"@) == Some(CborV::Text(self.handle)));
        assert(self.value().field("initiator_output"@) == Some(CborV::Text(self.initiator_output)));
        assert(self.value().field("auditor_flag"@) == Some(CborV::Text(self.auditor_flag)));
        assert(self.value().field("kind"@) == Some(CborV::Text(self.kind.name())));
        assert(self.value().field("resolution"@) == Some(CborV::Text(self.resolution.name())));
        assert(self.value().field("path"@) == Some(CborV::Text(self.path.name())));
        assert(self.value().field("judge"@) == Some(opt_text_value(self.judge)));
        assert(self.value().field("logical_at"@) == Some(CborV::U64(self.logical_at)));
        assert(self.value().field("human_resolved"@) == Some(CborV::Bool(self.human_resolved)));
    }

}

impl Adjudication {
    pub fn to_cbor(&self) -> (r: Cbor)
        ensures
            r@ == self.deep_view().value(),
    {
        let pairs = vec![
            ("handle", Cbor::t(self.handle.as_str())),
            ("initiator_output", Cbor::t(self.initiator_output.as_str())),
            ("auditor_flag", Cbor::t(self.auditor_flag.as_str())),
            ("kind", Cbor::t(self.kind.as_str())),
            ("resolution", Cbor::t(self.resolution.as_str())),
            ("path", Cbor::t(self.path.as_str())),
            ("judge", Cbor::opt_text(&self.judge)),
            ("logical_at", Cbor::U64(self.logical_at)),
            ("human_resolved", Cbor::Bool(self.human_resolved)),
        ];
        let ghost want = seq![
            ("handle"@, CborV::Text(self.handle@)),
            ("initiator_output"@, CborV::Text(self.initiator_output@)),
            ("auditor_flag"@, CborV::Text(self.auditor_flag@)),
            ("kind"@, CborV::Text(self.kind.name())),
            ("resolution"@, CborV::Text(self.resolution.name())),
            ("path"@, CborV::Text(self.path.name())),
            ("judge"@, opt_text_value(self.judge.deep_view())),
            ("logical_at"@, CborV::U64(self.logical_at)),
            ("human_resolved"@, CborV::Bool(self.human_resolved)),
        ];
        assert(Seq::new(pairs@.len(), |i: int| (pairs@[i].0@, pairs@[i].1@)) =~= want);
        Cbor::map(pairs)
    }

    pub fn from_cbor(c: &Cbor) -> (r: UcResult<Adjudication>)
        ensures
            agrees(r, AdjudicationV::read(c@)),
    {
        let handle = match c.req_str("handle") {
            Ok(x) => x,
            Err(e) => {
                return Err(e);
            },
        };
        let initiator_output = c.str_or_empty("initiator_output");
        let auditor_flag = c.str_or_empty("auditor_flag");
        let kind = match CuratorOperation::parse(c.str_or_empty("kind").as_str()) {
            Some(x) => x,
            None => CuratorOperation::FlagDrift,
        };
        let resolution = match Resolution::parse(c.str_or_empty("resolution").as_str()) {
            Some(x) => x,
            None => Resolution::HumanEscalation,
        };
        let path = match ResolutionPath::parse(c.str_or_empty("path").as_str()) {
            Some(x) => x,
            None => ResolutionPath::Human,
        };
        let judge = c.opt_str("judge");
        let logical_at: u64 = c.u64_or_zero("logical_at");
        let human_resolved: bool = match c.opt_bool("human_resolved") {
            Some(b) => b,
            None => false,
        };
        Ok(Adjudication { handle, initiator_output, auditor_flag, kind, resolution, path, judge, logical_at, human_resolved })
    }
}

impl Record for Adjudication {
    open spec fn key_of(v: AdjudicationV) -> Seq<char> {
        v.handle
    }

    open spec fn value_of(v: AdjudicationV) -> CborV {
        v.value()
    }

    open spec fn read_of(c: CborV) -> Result<AdjudicationV, ErrV> {
        AdjudicationV::read(c)
    }

    open spec fn valid(v: AdjudicationV) -> bool {
        true
    }

    proof fn lemma_back(v: AdjudicationV) {
        v.lemma_read_back();
    }

    fn key(&self) -> (r: String) {
        self.handle.clone()
    }

    fn to_row(&self) -> (r: Cbor) {
        self.to_cbor()
    }

    fn from_row(c: &Cbor) -> (r: UcResult<Adjudication>) {
        Adjudication::from_cbor(c)
    }
}

/// A dispute: the warden flagged an output, and the librarian disagrees.
#[derive(Debug)]
pub struct Dispute<'a> {
    pub initiator_output: &'a CuratorPublic,
    pub auditor_flag: &'a CuratorPublic,
    pub logical_at: u64,
    pub seed: u64,
}

/// A dispute as a mathematical object.
#[verifier::ext_equal]
pub struct DisputeV {
    pub initiator_output: CuratorPublicV,
    pub auditor_flag: CuratorPublicV,
    pub logical_at: u64,
    pub seed: u64,
}

impl<'a> DeepView for Dispute<'a> {
    type V = DisputeV;

    open spec fn deep_view(&self) -> DisputeV {
        DisputeV {
            initiator_output: self.initiator_output.deep_view(),
            auditor_flag: self.auditor_flag.deep_view(),
            logical_at: self.logical_at,
            seed: self.seed,
        }
    }
}

/// What policy says of a flag. A flag for a hallucination is right where a
/// disputed handle is absent; one for drift where two are there. One that names
/// too little, and any other, is left to a judge.
pub open spec fn policy<V: SubstrateView>(view: &V, flag: CuratorPublicV) -> Option<Resolution> {
    let live = count_known(view, flag.grounded_in);
    match flag.operation {
        CuratorOperation::FlagHallucination => if flag.grounded_in.len() == 0 {
            None
        } else if live < flag.grounded_in.len() {
            Some(Resolution::AuditorUpheld)
        } else {
            Some(Resolution::InitiatorUpheld)
        },
        CuratorOperation::FlagDrift => if flag.grounded_in.len() < 2 {
            None
        } else if live >= 2 {
            Some(Resolution::AuditorUpheld)
        } else {
            Some(Resolution::InitiatorUpheld)
        },
        _ => None,
    }
}

/// What a cited handle is evidence of.
pub open spec fn cited_line<V: SubstrateView>(view: &V, h: Seq<char>) -> Seq<char> {
    if view.known(h) {
        "supports_initiator: cited "@ + h + " exists"@
    } else {
        "supports_auditor: cited "@ + h + " absent"@
    }
}

/// What a flagged handle is evidence of.
pub open spec fn flagged_line<V: SubstrateView>(view: &V, h: Seq<char>) -> Seq<char> {
    if view.known(h) {
        "supports_auditor: flagged evidence "@ + h + " live"@
    } else {
        "supports_initiator: flagged evidence "@ + h + " gone"@
    }
}

/// The evidence of a dispute, in order.
pub open spec fn evidence_for<V: SubstrateView>(view: &V, d: DisputeV) -> Seq<Seq<char>> {
    sorted_texts(
        d.initiator_output.grounded_in.map_values(|h: Seq<char>| cited_line(view, h))
            + d.auditor_flag.grounded_in.map_values(|h: Seq<char>| flagged_line(view, h)),
    )
}

/// A dispute in one line.
pub open spec fn summary_line(d: DisputeV) -> Seq<char> {
    d.initiator_output.output_handle + " vs "@ + d.auditor_flag.output_handle + " over "@
        + d.auditor_flag.operation.name()
}

/// What a judge's verdict settles.
pub open spec fn settled(v: Verdict) -> (Resolution, ResolutionPath) {
    match v {
        Verdict::InitiatorCorrect => (Resolution::InitiatorUpheld, ResolutionPath::Pool),
        Verdict::AuditorCorrect => (Resolution::AuditorUpheld, ResolutionPath::Pool),
        Verdict::Uncertain => (Resolution::HumanEscalation, ResolutionPath::Human),
    }
}

/// The record of a dispute that policy settles, or else a judge with this name
/// and verdict.
pub open spec fn record_with<V: SubstrateView>(
    view: &V,
    d: DisputeV,
    judge: Seq<char>,
    verdict: Verdict,
) -> AdjudicationV {
    let p = policy(view, d.auditor_flag);
    AdjudicationV {
        handle: "adjudication/"@ + minted(
            d.logical_at,
            seeded(d.seed ^ d.logical_at ^ 0xAD5),
        ),
        initiator_output: d.initiator_output.output_handle,
        auditor_flag: d.auditor_flag.output_handle,
        kind: d.auditor_flag.operation,
        resolution: match p {
            Some(r) => r,
            None => settled(verdict).0,
        },
        path: match p {
            Some(_) => ResolutionPath::Policy,
            None => settled(verdict).1,
        },
        judge: match p {
            Some(_) => None,
            None => Some(judge),
        },
        logical_at: d.logical_at,
        human_resolved: false,
    }
}

/// How a pool of judges settles a dispute. The record follows from the substrate,
/// the pool and the dispute alone.
pub open spec fn adjudicated<V: SubstrateView, B: CuratorBackend>(
    view: &V,
    pool: Seq<(String, B)>,
    d: DisputeV,
) -> AdjudicationV {
    let judge = pool[d.seed as int % pool.len() as int];
    record_with(
        view,
        d,
        judge.0@,
        judge.1.verdict_of(
            d.seed ^ fnv_of(encode_utf8(judge.0@)),
            summary_line(d),
            evidence_for(view, d),
        ),
    )
}

/// A dispute over a hallucination that cites handles is settled by policy: for the
/// auditor exactly where some cited handle does not exist, and else for the
/// initiator.
pub proof fn lemma_hallucination_settled<V: SubstrateView, B: CuratorBackend>(
    view: &V,
    pool: Seq<(String, B)>,
    d: DisputeV,
)
    requires
        d.auditor_flag.operation is FlagHallucination,
        d.auditor_flag.grounded_in.len() > 0,
    ensures
        ({
            let rec = adjudicated(view, pool, d);
            let cited = d.auditor_flag.grounded_in;
            &&& rec.path is Policy
            &&& rec.judge is None
            &&& rec.resolution is AuditorUpheld <==> exists|i: int|
                0 <= i < cited.len() && !view.known(#[trigger] cited[i])
            &&& rec.resolution is InitiatorUpheld <==> forall|i: int|
                0 <= i < cited.len() ==> view.known(#[trigger] cited[i])
        }),
{
    lemma_count_known(view, d.auditor_flag.grounded_in);
}

/// A dispute over drift that cites two handles or more is settled by policy: for the
/// auditor exactly where two of the cited handles exist, so that both sides of the
/// conflict are live, and else for the initiator.
pub proof fn lemma_drift_settled<V: SubstrateView, B: CuratorBackend>(
    view: &V,
    pool: Seq<(String, B)>,
    d: DisputeV,
)
    requires
        d.auditor_flag.operation is FlagDrift,
        d.auditor_flag.grounded_in.len() >= 2,
    ensures
        ({
            let rec = adjudicated(view, pool, d);
            let cited = d.auditor_flag.grounded_in;
            let both = exists|i: int, j: int|
                0 <= i < j < cited.len() && view.known(#[trigger] cited[i]) && view.known(
                    #[trigger] cited[j],
                );
            &&& rec.path is Policy
            &&& rec.judge is None
            &&& rec.resolution is AuditorUpheld <==> both
            &&& rec.resolution is InitiatorUpheld <==> !both
        }),
{
    lemma_count_known(view, d.auditor_flag.grounded_in);
}

/// Every other dispute goes to the judge that its seed names, who is named in the record and
/// whose word stands: whoever is right is upheld, and where the judge cannot say, a human has
/// to.
pub proof fn lemma_judge_settles<V: SubstrateView, B: CuratorBackend>(
    view: &V,
    pool: Seq<(String, B)>,
    d: DisputeV,
)
    requires
        match d.auditor_flag.operation {
            CuratorOperation::FlagHallucination => d.auditor_flag.grounded_in.len() == 0,
            CuratorOperation::FlagDrift => d.auditor_flag.grounded_in.len() < 2,
            _ => true,
        },
    ensures
        ({
            let rec = adjudicated(view, pool, d);
            let judge = pool[d.seed as int % pool.len() as int];
            let verdict = judge.1.verdict_of(
                d.seed ^ fnv_of(encode_utf8(judge.0@)),
                summary_line(d),
                evidence_for(view, d),
            );
            &&& rec.judge == Some(judge.0@)
            &&& !(rec.path is Policy)
            &&& rec.resolution is InitiatorUpheld <==> verdict is InitiatorCorrect
            &&& rec.resolution is AuditorUpheld <==> verdict is AuditorCorrect
            &&& rec.resolution is HumanEscalation <==> verdict is Uncertain
            &&& rec.path is Human <==> verdict is Uncertain
            &&& rec.path is Pool <==> !(verdict is Uncertain)
        }),
{
}

/// Whoever settles a dispute, the record says what it was about: the output, the
/// flag and its kind, and the time; and no human has decided yet.
pub proof fn lemma_record_names_dispute<V: SubstrateView, B: CuratorBackend>(
    view: &V,
    pool: Seq<(String, B)>,
    d: DisputeV,
)
    ensures
        ({
            let rec = adjudicated(view, pool, d);
            &&& rec.initiator_output == d.initiator_output.output_handle
            &&& rec.auditor_flag == d.auditor_flag.output_handle
            &&& rec.kind == d.auditor_flag.operation
            &&& rec.logical_at == d.logical_at
            &&& !rec.human_resolved
            &&& starts(rec.handle, "adjudication/"@)
        }),
{
    let h = adjudicated(view, pool, d).handle;
    assert(h.subrange(0, "adjudication/"@.len() as int) =~= "adjudication/"@);
}

proof fn lemma_marked_multiset(lines: Seq<Seq<char>>, mark: Seq<char>)
    ensures
        count_marked(lines, mark) == lines.to_multiset().filter(|l: Seq<char>| starts(l, mark)).len(),
    decreases lines.len(),
{
    let f = |l: Seq<char>| starts(l, mark);
    lines.to_multiset_ensures();
    if lines.len() == 0 {
        assert(lines.to_multiset() =~= Multiset::empty());
        assert(lines.to_multiset().filter(f) =~= Multiset::empty());
    } else {
        let t = lines.drop_last();
        let x = lines.last();
        lemma_marked_multiset(t, mark);
        assert(t.push(x) =~= lines);
        vstd::seq_lib::to_multiset_build(t, x);
        let m = t.to_multiset();
        assert(lines.to_multiset() == m.insert(x));
        if f(x) {
            assert(m.insert(x).filter(f) =~= m.filter(f).insert(x));
        } else {
            assert(m.insert(x).filter(f) =~= m.filter(f));
        }
    }
}

proof fn lemma_marked_sorted(lines: Seq<Seq<char>>, mark: Seq<char>)
    ensures
        count_marked(sorted_texts(lines), mark) == count_marked(lines, mark),
{
    lemma_marked_multiset(lines, mark);
    lemma_marked_multiset(sorted_texts(lines), mark);
    lemma_sorted_reordered(lines);
}

proof fn lemma_marked_joined(a: Seq<Seq<char>>, b: Seq<Seq<char>>, mark: Seq<char>)
    ensures
        count_marked(a + b, mark) == count_marked(a, mark) + count_marked(b, mark),
    decreases b.len(),
{
    if b.len() == 0 {
        assert(a + b =~= a);
    } else {
        lemma_marked_joined(a, b.drop_last(), mark);
        assert((a + b).drop_last() =~= a + b.drop_last());
        assert((a + b).last() == b.last());
    }
}

proof fn lemma_line_sides<V: SubstrateView>(view: &V, h: Seq<char>)
    ensures
        starts(cited_line(view, h), "supports_initiator"@) == view.known(h),
        starts(cited_line(view, h), "supports_auditor"@) == !view.known(h),
        starts(flagged_line(view, h), "supports_initiator"@) == !view.known(h),
        starts(flagged_line(view, h), "supports_auditor"@) == view.known(h),
{
    reveal_strlit("supports_initiator");
    reveal_strlit("supports_auditor");
    reveal_strlit("supports_initiator: cited ");
    reveal_strlit("supports_auditor: cited ");
    reveal_strlit("supports_auditor: flagged evidence ");
    reveal_strlit("supports_initiator: flagged evidence ");
    let (i, a) = ("supports_initiator"@, "supports_auditor"@);
    assert(i.len() == 18 && a.len() == 16);
    assert("supports_initiator: cited "@.subrange(0, 18) =~= i);
    assert("supports_auditor: cited "@.subrange(0, 16) =~= a);
    assert("supports_auditor: flagged evidence "@.subrange(0, 16) =~= a);
    assert("supports_initiator: flagged evidence "@.subrange(0, 18) =~= i);
    assert(i[9] == 'i' && a[9] == 'a');
    let (c, f) = (cited_line(view, h), flagged_line(view, h));
    if view.known(h) {
        assert(c.subrange(0, 18) =~= i);
        assert(f.subrange(0, 16) =~= a);
        assert(c.subrange(0, 16)[9] == 'i');
        assert(f.len() >= 18 ==> f.subrange(0, 18)[9] == 'a');
    } else {
        assert(c.subrange(0, 16) =~= a);
        assert(f.subrange(0, 18) =~= i);
        assert(c.len() >= 18 ==> c.subrange(0, 18)[9] == 'a');
        assert(f.subrange(0, 16)[9] == 'i');
    }
}

proof fn lemma_cited_marks<V: SubstrateView>(view: &V, hs: Seq<Seq<char>>)
    ensures
        ({
            let c = hs.map_values(|h: Seq<char>| cited_line(view, h));
            let f = hs.map_values(|h: Seq<char>| flagged_line(view, h));
            let live = count_known(view, hs);
            &&& count_marked(c, "supports_initiator"@) == live
            &&& count_marked(c, "supports_auditor"@) == hs.len() - live
            &&& count_marked(f, "supports_initiator"@) == hs.len() - live
            &&& count_marked(f, "supports_auditor"@) == live
        }),
    decreases hs.len(),
{
    let c = hs.map_values(|h: Seq<char>| cited_line(view, h));
    let f = hs.map_values(|h: Seq<char>| flagged_line(view, h));
    if hs.len() > 0 {
        let t = hs.drop_last();
        lemma_cited_marks(view, t);
        assert(c.drop_last() =~= t.map_values(|h: Seq<char>| cited_line(view, h)));
        assert(f.drop_last() =~= t.map_values(|h: Seq<char>| flagged_line(view, h)));
        lemma_line_sides(view, hs.last());
        assert(c.last() == cited_line(view, hs.last()));
        assert(f.last() == flagged_line(view, hs.last()));
    }
}

/// Where policy is silent and the judge goes by the evidence alone, each side is
/// upheld that has more of it: what the output cites and exists, and what the flag
/// cites and is gone, speak for the initiator; what the output cites and is absent,
/// and what the flag cites and is live, for the auditor.
pub proof fn lemma_evidence_decides<V: SubstrateView>(
    view: &V,
    pool: Seq<(String, DeterministicBackend)>,
    d: DisputeV,
)
    requires
        match d.auditor_flag.operation {
            CuratorOperation::FlagHallucination => d.auditor_flag.grounded_in.len() == 0,
            CuratorOperation::FlagDrift => d.auditor_flag.grounded_in.len() < 2,
            _ => true,
        },
    ensures
        ({
            let (cited, flagged) = (d.initiator_output.grounded_in, d.auditor_flag.grounded_in);
            let (live, shown) = (count_known(view, cited), count_known(view, flagged));
            let (with, against) = (live + flagged.len() - shown, cited.len() - live + shown);
            let r = adjudicated(view, pool, d).resolution;
            &&& with > against ==> r is InitiatorUpheld
            &&& against > with ==> r is AuditorUpheld
            &&& r is HumanEscalation ==> with == against
        }),
{
    let (cited, flagged) = (d.initiator_output.grounded_in, d.auditor_flag.grounded_in);
    let c = cited.map_values(|h: Seq<char>| cited_line(view, h));
    let f = flagged.map_values(|h: Seq<char>| flagged_line(view, h));
    lemma_cited_marks(view, cited);
    lemma_cited_marks(view, flagged);
    lemma_marked_sorted(c + f, "supports_initiator"@);
    lemma_marked_sorted(c + f, "supports_auditor"@);
    lemma_marked_joined(c, f, "supports_initiator"@);
    lemma_marked_joined(c, f, "supports_auditor"@);
    assert(evidence_for(view, d) == sorted_texts(c + f));
}

/// The state of the adjudicator.
#[verifier::ext_equal]
pub struct AdjudicatorV {
    pub records: Map<Seq<char>, AdjudicationV>,
    /// What awaits a human.
    pub queue: Seq<Seq<char>>,
    pub policy_count: u64,
    pub pool_count: u64,
    pub human_count: u64,
}

impl AdjudicatorV {
    /// How many disputes were counted.
    pub open spec fn total(self) -> int {
        self.policy_count + self.pool_count + self.human_count
    }

    pub open spec fn wf(self) -> bool {
        keyed::<Adjudication>(self.records) && self.total() * 100 <= u64::MAX
    }

    /// There is room for one more dispute.
    pub open spec fn has_room(self) -> bool {
        (self.total() + 1) * 100 <= u64::MAX
    }

    pub open spec fn empty() -> AdjudicatorV {
        AdjudicatorV {
            records: Map::empty(),
            queue: Seq::empty(),
            policy_count: 0,
            pool_count: 0,
            human_count: 0,
        }
    }

    /// The state with a dispute counted.
    pub open spec fn counted(self, path: ResolutionPath) -> AdjudicatorV {
        match path {
            ResolutionPath::Policy => AdjudicatorV {
                policy_count: (self.policy_count + 1) as u64,
                ..self
            },
            ResolutionPath::Pool => AdjudicatorV {
                pool_count: (self.pool_count + 1) as u64,
                ..self
            },
            ResolutionPath::Human => AdjudicatorV {
                human_count: (self.human_count + 1) as u64,
                ..self
            },
        }
    }

    /// The state with a new record, queued where a human has to decide.
    pub open spec fn taken(self, rec: AdjudicationV) -> AdjudicatorV {
        let st = self.counted(rec.path);
        AdjudicatorV {
            records: st.records.insert(rec.handle, rec),
            queue: if rec.resolution is HumanEscalation {
                st.queue.push(rec.handle)
            } else {
                st.queue
            },
            ..st
        }
    }

    /// The state with a record that was made before; one that is already there
    /// changes nothing.
    pub open spec fn replayed(self, rec: AdjudicationV) -> AdjudicatorV {
        if self.records.contains_key(rec.handle) {
            self
        } else {
            let st = self.counted(rec.path);
            AdjudicatorV {
                records: st.records.insert(rec.handle, rec),
                queue: if rec.resolution is HumanEscalation && !rec.human_resolved
                    && !st.queue.contains(rec.handle) {
                    st.queue.push(rec.handle)
                } else {
                    st.queue
                },
                ..st
            }
        }
    }

    /// Why a human cannot settle a dispute, if so.
    pub open spec fn not_awaited(self, h: Seq<char>) -> Option<ErrV> {
        if !self.records.contains_key(h) {
            Some((ErrCode::NotFound, "adjudication "@ + h))
        } else if !(self.records[h].resolution is HumanEscalation)
            || self.records[h].human_resolved {
            Some(
                (
                    ErrCode::ContractViolation,
                    "adjudication "@ + h + " is not awaiting human resolution"@,
                ),
            )
        } else {
            None
        }
    }

    /// The record that a human's decision gives.
    pub open spec fn human_record(self, h: Seq<char>, uphold_auditor: bool) -> AdjudicationV {
        AdjudicationV {
            resolution: if uphold_auditor {
                Resolution::AuditorUpheld
            } else {
                Resolution::InitiatorUpheld
            },
            human_resolved: true,
            ..self.records[h]
        }
    }

    /// The state after a human decided.
    pub open spec fn resolved(self, h: Seq<char>, uphold_auditor: bool) -> AdjudicatorV {
        if self.not_awaited(h) is Some {
            self
        } else {
            AdjudicatorV {
                records: self.records.insert(h, self.human_record(h, uphold_auditor)),
                queue: without(self.queue, h),
                ..self
            }
        }
    }

    /// What a query answers.
    pub open spec fn answer(self, q: CborV, names: Seq<Seq<char>>) -> Result<CborV, ErrV> {
        let op = q.text_field("op"@);
        if op == Some("stats"@) || op is None {
            let total = if self.total() == 0 {
                1
            } else {
                self.total()
            };
            Ok(
                map_value(
                    seq![
                        ("policy"@, CborV::U64(self.policy_count)),
                        ("pool"@, CborV::U64(self.pool_count)),
                        ("human"@, CborV::U64(self.human_count)),
                        ("queued"@, CborV::U64(self.queue.len() as u64)),
                        (
                            "policy_share_pct"@,
                            CborV::U64((self.policy_count * 100 / total) as u64),
                        ),
                        ("pool_members"@, texts_value(names)),
                    ],
                ),
            )
        } else if op == Some("get"@) {
            match q.text_field("handle"@) {
                None => Err((ErrCode::Internal, missing_text("handle"@))),
                Some(h) => if self.records.contains_key(h) {
                    Ok(self.records[h].value())
                } else {
                    Err((ErrCode::NotFound, "adjudication "@ + h))
                },
            }
        } else {
            Err((ErrCode::ContractViolation, "adjudicator: unknown op"@))
        }
    }

    /// What an update does, and what it answers: it carries a human's decision.
    pub open spec fn update(self, u: CborV) -> (AdjudicatorV, Result<CborV, ErrV>) {
        match u.text_field("handle"@) {
            None => (self, Err((ErrCode::Internal, missing_text("handle"@)))),
            Some(h) => {
                let uphold = match u.bool_field("uphold_auditor"@) {
                    Some(b) => b,
                    None => false,
                };
                match self.not_awaited(h) {
                    Some(e) => (self, Err(e)),
                    None => (
                        self.resolved(h, uphold),
                        Ok(self.human_record(h, uphold).value()),
                    ),
                }
            },
        }
    }

    /// The state as one value.
    pub open spec fn image(self) -> CborV {
        map_value(
            seq![
                ("records"@, CborV::Array(record_rows::<Adjudication>(self.records))),
                ("escalation_queue"@, texts_value(self.queue)),
                ("policy_count"@, CborV::U64(self.policy_count)),
                ("pool_count"@, CborV::U64(self.pool_count)),
                ("human_count"@, CborV::U64(self.human_count)),
            ],
        )
    }

    /// What a snapshot says, and the error that ended its reading.
    pub open spec fn from_image(v: CborV) -> (AdjudicatorV, Option<ErrV>) {
        let (records, e) = records_in::<Adjudication>(v, "records"@);
        (
            AdjudicatorV {
                records,
                queue: if e is Some {
                    Seq::empty()
                } else {
                    texts_field(v, "escalation_queue"@)
                },
                policy_count: u64_or_zero(v, "policy_count"@),
                pool_count: u64_or_zero(v, "pool_count"@),
                human_count: u64_or_zero(v, "human_count"@),
            },
            e,
        )
    }

    /// Taking up a snapshot gives the state back.
    pub proof fn lemma_restore_snapshot(self)
        requires
            self.wf(),
            self.records.dom().finite(),
        ensures
            AdjudicatorV::from_image(self.image()) == (self, None::<ErrV>),
    {
        let v = self.image();
        let m = v->Pairs_0;
        reveal_strlit("records");
        reveal_strlit("escalation_queue");
        reveal_strlit("policy_count");
        reveal_strlit("pool_count");
        reveal_strlit("human_count");
        assert("records"@.len() == 7);
        assert("escalation_queue"@.len() == 16);
        assert("policy_count"@.len() == 12);
        assert("pool_count"@.len() == 10);
        assert("human_count"@.len() == 11);
        reveal_with_fuel(lookup_from, 6);
        assert(m[0].0 == CborV::Text("records"@));
        assert(m[1].0 == CborV::Text("escalation_queue"@));
        assert(m[2].0 == CborV::Text("policy_count"@));
        assert(m[3].0 == CborV::Text("pool_count"@));
        assert(m[4].0 == CborV::Text("human_count"@));
        assert(v.field("records"@) == Some(CborV::Array(record_rows::<Adjudication>(self.records))));
        assert(v.field("escalation_queue"@) == Some(texts_value(self.queue)));
        assert(v.field("policy_count"@) == Some(CborV::U64(self.policy_count)));
        assert(v.field("pool_count"@) == Some(CborV::U64(self.pool_count)));
        assert(v.field("human_count"@) == Some(CborV::U64(self.human_count)));
        lemma_records_back::<Adjudication>(self.records);
        lemma_texts_back(self.queue);
    }

    /// Replaying a record twice is replaying it once, and replaying a new record
    /// is what making it did.
    pub proof fn lemma_replay(self, rec: AdjudicationV)
        ensures
            self.replayed(rec).replayed(rec) == self.replayed(rec),
            !self.records.contains_key(rec.handle) && !self.queue.contains(rec.handle)
                && !rec.human_resolved ==> self.replayed(rec) == self.taken(rec),
    {
    }

    /// A record is kept under its handle, and counted once, by who settled it; it
    /// waits for a human exactly where it was left to one. Nothing else changes.
    pub proof fn lemma_taken(self, rec: AdjudicationV, other: Seq<char>)
        requires
            self.wf(),
            self.has_room(),
        ensures
            ({
                let st = self.taken(rec);
                &&& st.records.contains_key(rec.handle) && st.records[rec.handle] == rec
                &&& other != rec.handle ==> (st.records.contains_key(other)
                    <==> self.records.contains_key(other)) && (self.records.contains_key(other)
                    ==> st.records[other] == self.records[other])
                &&& st.total() == self.total() + 1
                &&& st.policy_count == self.policy_count + if rec.path is Policy {
                    1int
                } else {
                    0
                }
                &&& st.pool_count == self.pool_count + if rec.path is Pool {
                    1int
                } else {
                    0
                }
                &&& st.human_count == self.human_count + if rec.path is Human {
                    1int
                } else {
                    0
                }
                &&& rec.resolution is HumanEscalation ==> st.queue == self.queue.push(rec.handle)
                &&& !(rec.resolution is HumanEscalation) ==> st.queue == self.queue
            }),
    {
    }

    /// A human's decision is taken exactly for a dispute that waits for one. It
    /// settles the dispute for the side that was chosen, for the initiator where
    /// none was, leaves everything else of the record as it was, and takes it off
    /// the queue; every other dispute stays as it was.
    pub proof fn lemma_human_decides(self, u: CborV, h: Seq<char>, other: Seq<char>)
        requires
            u.text_field("handle"@) == Some(h),
            other != h,
        ensures
            ({
                let (st, r) = self.update(u);
                let waits = self.records.contains_key(h) && self.records[h].resolution
                    is HumanEscalation && !self.records[h].human_resolved;
                &&& r is Ok <==> waits
                &&& !waits ==> st == self
                &&& waits ==> {
                    let (was, now) = (self.records[h], st.records[h]);
                    &&& st.records.dom() == self.records.dom()
                    &&& now.human_resolved
                    &&& now.resolution is AuditorUpheld <==> u.bool_field("uphold_auditor"@) == Some(
                        true,
                    )
                    &&& now.resolution is InitiatorUpheld <==> u.bool_field("uphold_auditor"@)
                        != Some(true)
                    &&& now.handle == was.handle && now.initiator_output == was.initiator_output
                    &&& now.auditor_flag == was.auditor_flag && now.kind == was.kind
                    &&& now.path == was.path && now.judge == was.judge
                    &&& now.logical_at == was.logical_at
                    &&& AdjudicationV::read(r->Ok_0) == Ok::<_, ErrV>(now)
                    &&& self.records.contains_key(other) ==> st.records[other]
                        == self.records[other]
                    &&& !st.queue.contains(h)
                    &&& st.queue.contains(other) <==> self.queue.contains(other)
                    &&& st.total() == self.total()
                }
            }),
    {
        let (st, r) = self.update(u);
        if r is Ok {
            let uphold = u.bool_field("uphold_auditor"@) == Some(true);
            self.human_record(h, uphold).lemma_read_back();
            lemma_without(self.queue, h, h);
            lemma_without(self.queue, h, other);
            assert(st.records.dom() =~= self.records.dom());
        }
    }

    /// A human's decision takes the dispute off the queue, and it can be taken
    /// only once.
    pub proof fn lemma_resolved_once(self, h: Seq<char>, uphold: bool)
        requires
            self.not_awaited(h) is None,
        ensures
            !self.resolved(h, uphold).queue.contains(h),
            self.resolved(h, uphold).not_awaited(h) == Some(
                (
                    ErrCode::ContractViolation,
                    "adjudication "@ + h + " is not awaiting human resolution"@,
                ),
            ),
    {
        lemma_without(self.queue, h, h);
    }
}

/// The adjudicator, with the judges of its pool by name.
#[derive(Debug)]
pub struct AdjudicatorCell<B: CuratorBackend> {
    id: CellId,
    pool: Vec<(String, B)>,
    records: TextMap<Adjudication>,
    escalation_queue: Vec<String>,
    policy_count: u64,
    pool_count: u64,
    human_count: u64,
}

impl<B: CuratorBackend> View for AdjudicatorCell<B> {
    type V = AdjudicatorV;

    closed spec fn view(&self) -> AdjudicatorV {
        AdjudicatorV {
            records: self.records@,
            queue: text_views(self.escalation_queue@),
            policy_count: self.policy_count,
            pool_count: self.pool_count,
            human_count: self.human_count,
        }
    }
}

/// What a judge is asked.
#[derive(Debug)]
pub struct Question {
    /// The judge's place in the pool.
    pub judge: usize,
    pub seed: u64,
    pub summary: String,
    pub evidence: Vec<String>,
}

/// The names of a pool's judges.
pub open spec fn names_of<B>(pool: Seq<(String, B)>) -> Seq<Seq<char>> {
    Seq::new(pool.len(), |i: int| pool[i].0@)
}

/// What policy says of a flag.
pub fn policy_table<V: SubstrateView>(view: &V, d: &Dispute<'_>) -> (r: Option<Resolution>)
    ensures
        r == policy(view, d.deep_view().auditor_flag),
{
    let n: usize = d.auditor_flag.grounded_in.len();
    match d.auditor_flag.operation {
        CuratorOperation::FlagHallucination => {
            if n == 0 {
                return None;
            }
            if known_among(view, &d.auditor_flag.grounded_in) < n {
                Some(Resolution::AuditorUpheld)
            } else {
                Some(Resolution::InitiatorUpheld)
            }
        },
        CuratorOperation::FlagDrift => {
            if n < 2 {
                return None;
            }
            if known_among(view, &d.auditor_flag.grounded_in) >= 2 {
                Some(Resolution::AuditorUpheld)
            } else {
                Some(Resolution::InitiatorUpheld)
            }
        },
        _ => None,
    }
}

/// The evidence of a dispute, in order.
pub fn assemble_evidence<V: SubstrateView>(view: &V, d: &Dispute<'_>) -> (r: Vec<String>)
    ensures
        text_views(r@) == evidence_for(view, d.deep_view()),
{
    let ghost cited = d.deep_view().initiator_output.grounded_in;
    let ghost flagged = d.deep_view().auditor_flag.grounded_in;
    let ghost a = cited.map_values(|h: Seq<char>| cited_line(view, h));
    let ghost b = flagged.map_values(|h: Seq<char>| flagged_line(view, h));
    let mut ev: Vec<String> = Vec::new();
    let mut i: usize = 0;
    assert(text_views(ev@) =~= a.take(0));
    while i < d.initiator_output.grounded_in.len()
        invariant
            i <= d.initiator_output.grounded_in@.len(),
            cited == text_views(d.initiator_output.grounded_in@),
            a == cited.map_values(|h: Seq<char>| cited_line(view, h)),
            text_views(ev@) == a.take(i as int),
        decreases d.initiator_output.grounded_in.len() - i,
    {
        let h = d.initiator_output.grounded_in[i].as_str();
        assert(cited[i as int] == h@);
        let line = if view.handle_exists(h) {
            cat3("supports_initiator: cited ", h, " exists")
        } else {
            cat3("supports_auditor: cited ", h, " absent")
        };
        let ghost before = text_views(ev@);
        ev.push(line);
        assert(text_views(ev@) =~= before.push(line@));
        i += 1;
        assert(a.take(i as int) =~= a.take(i - 1).push(a[i - 1]));
    }
    assert(text_views(ev@) =~= a + b.take(0));
    i = 0;
    while i < d.auditor_flag.grounded_in.len()
        invariant
            i <= d.auditor_flag.grounded_in@.len(),
            flagged == text_views(d.auditor_flag.grounded_in@),
            b == flagged.map_values(|h: Seq<char>| flagged_line(view, h)),
            text_views(ev@) == a + b.take(i as int),
        decreases d.auditor_flag.grounded_in.len() - i,
    {
        let h = d.auditor_flag.grounded_in[i].as_str();
        assert(flagged[i as int] == h@);
        let line = if view.handle_exists(h) {
            cat3("supports_auditor: flagged evidence ", h, " live")
        } else {
            cat3("supports_initiator: flagged evidence ", h, " gone")
        };
        let ghost before = text_views(ev@);
        ev.push(line);
        assert(text_views(ev@) =~= before.push(line@));
        i += 1;
        assert(b.take(i as int) =~= b.take(i - 1).push(b[i - 1]));
        assert(text_views(ev@) =~= a + b.take(i as int));
    }
    assert(b.take(i as int) =~= b);
    sort_texts(&ev)
}

/// The record of a dispute that policy settles, or else a judge with this name
/// and verdict.
pub fn settle<V: SubstrateView>(view: &V, d: &Dispute<'_>, judge: &str, verdict: Verdict) -> (r:
    Adjudication)
    ensures
        r.deep_view() == record_with(view, d.deep_view(), judge@, verdict),
{
    let (handle, _rng) = mint(
        "adjudication/",
        d.logical_at,
        d.seed ^ d.logical_at ^ 0xAD5,
    );
    let (resolution, path, judge) = match policy_table(view, d) {
        Some(r) => (r, ResolutionPath::Policy, None),
        None => match verdict {
            Verdict::InitiatorCorrect => (
                Resolution::InitiatorUpheld,
                ResolutionPath::Pool,
                Some(judge.to_string()),
            ),
            Verdict::AuditorCorrect => (
                Resolution::AuditorUpheld,
                ResolutionPath::Pool,
                Some(judge.to_string()),
            ),
            Verdict::Uncertain => (
                Resolution::HumanEscalation,
                ResolutionPath::Human,
                Some(judge.to_string()),
            ),
        },
    };
    Adjudication {
        handle,
        initiator_output: d.initiator_output.output_handle.clone(),
        auditor_flag: d.auditor_flag.output_handle.clone(),
        kind: d.auditor_flag.operation,
        resolution,
        path,
        judge,
        logical_at: d.logical_at,
        human_resolved: false,
    }
}

impl<B: CuratorBackend> AdjudicatorCell<B> {
    /// The id of the cell.
    pub closed spec fn ident(&self) -> CellId {
        self.id
    }

    /// The pool.
    pub closed spec fn judges(&self) -> Seq<(String, B)> {
        self.pool@
    }

    pub fn new(id: CellId, pool: Vec<(String, B)>) -> (r: Self)
        requires
            pool@.len() > 0,
        ensures
            r.ident() == id,
            r.judges() == pool@,
            r@ == AdjudicatorV::empty(),
    {
        let r = AdjudicatorCell {
            id,
            pool,
            records: TextMap::new(),
            escalation_queue: Vec::new(),
            policy_count: 0,
            pool_count: 0,
            human_count: 0,
        };
        assert(r@ =~= AdjudicatorV::empty());
        r
    }

    pub fn pool_names(&self) -> (r: Vec<String>)
        ensures
            text_views(r@) == names_of(self.judges()),
    {
        let ghost want = names_of(self.pool@);
        let mut out: Vec<String> = Vec::new();
        let mut i: usize = 0;
        assert(text_views(out@) =~= want.take(0));
        while i < self.pool.len()
            invariant
                i <= self.pool@.len(),
                want == names_of(self.pool@),
                text_views(out@) == want.take(i as int),
            decreases self.pool.len() - i,
        {
            let ghost before = text_views(out@);
            let n = self.pool[i].0.as_str().to_string();
            out.push(n);
            assert(text_views(out@) =~= before.push(n@));
            i += 1;
            assert(want.take(i as int) =~= want.take(i - 1).push(want[i - 1]));
        }
        assert(want.take(want.len() as int) =~= want);
        out
    }

    /// What the judge of a dispute is asked; nothing where policy settles it.
    pub fn question<V: SubstrateView>(&self, view: &V, d: &Dispute<'_>) -> (r: Option<Question>)
        requires
            self.judges().len() > 0,
        ensures
            match r {
                None => policy(view, d.deep_view().auditor_flag) is Some,
                Some(q) => {
                    let i = d.seed as int % self.judges().len() as int;
                    &&& policy(view, d.deep_view().auditor_flag) is None
                    &&& q.judge == i
                    &&& q.seed == d.seed ^ fnv_of(encode_utf8(self.judges()[i].0@))
                    &&& q.summary@ == summary_line(d.deep_view())
                    &&& text_views(q.evidence@) == evidence_for(view, d.deep_view())
                },
            },
    {
        if policy_table(view, d).is_some() {
            return None;
        }
        let judge: usize = (d.seed % self.pool.len() as u64) as usize;
        let salt: u64 = fnv1a64(self.pool[judge].0.as_str().as_bytes());
        Some(
            Question {
                judge,
                seed: d.seed ^ salt,
                summary: cat5(
                    d.initiator_output.output_handle.as_str(),
                    " vs ",
                    d.auditor_flag.output_handle.as_str(),
                    " over ",
                    d.auditor_flag.operation.as_str(),
                ),
                evidence: assemble_evidence(view, d),
            },
        )
    }

    /// Settles a dispute without keeping the record.
    pub fn adjudicate_preview<V: SubstrateView>(&self, view: &V, d: &Dispute<'_>) -> (r:
        Adjudication)
        requires
            self.judges().len() > 0,
        ensures
            r.deep_view() == adjudicated(view, self.judges(), d.deep_view()),
            d.deep_view().auditor_flag.operation is FlagDrift
                && d.deep_view().auditor_flag.grounded_in.len() >= 2 ==> (r.resolution
                is AuditorUpheld <==> exists|i: int, j: int|
                0 <= i < j < d.deep_view().auditor_flag.grounded_in.len() && view.known(
                    #[trigger] d.deep_view().auditor_flag.grounded_in[i],
                ) && view.known(#[trigger] d.deep_view().auditor_flag.grounded_in[j])),
            d.deep_view().auditor_flag.operation is FlagHallucination
                && d.deep_view().auditor_flag.grounded_in.len() > 0 ==> (r.resolution
                is AuditorUpheld <==> exists|i: int|
                0 <= i < d.deep_view().auditor_flag.grounded_in.len() && !view.known(
                    #[trigger] d.deep_view().auditor_flag.grounded_in[i],
                )),
    {
        proof {
            lemma_count_known(view, d.deep_view().auditor_flag.grounded_in);
        }
        match self.question(view, d) {
            None => settle(view, d, "", Verdict::Uncertain),
            Some(q) => {
                let verdict = self.pool[q.judge].1.adjudicate(
                    q.seed,
                    q.summary.as_str(),
                    &q.evidence,
                );
                settle(view, d, self.pool[q.judge].0.as_str(), verdict)
            },
        }
    }

    /// Settles a dispute and keeps the record.
    pub fn adjudicate<V: SubstrateView>(&mut self, view: &V, d: &Dispute<'_>) -> (r: Adjudication)
        requires
            old(self).judges().len() > 0,
            old(self)@.wf(),
            old(self)@.has_room(),
        ensures
            final(self).ident() == old(self).ident(),
            final(self).judges() == old(self).judges(),
            r.deep_view() == adjudicated(view, old(self).judges(), d.deep_view()),
            d.deep_view().auditor_flag.operation is FlagDrift
                && d.deep_view().auditor_flag.grounded_in.len() >= 2 ==> (r.resolution
                is AuditorUpheld <==> exists|i: int, j: int|
                0 <= i < j < d.deep_view().auditor_flag.grounded_in.len() && view.known(
                    #[trigger] d.deep_view().auditor_flag.grounded_in[i],
                ) && view.known(#[trigger] d.deep_view().auditor_flag.grounded_in[j])),
            d.deep_view().auditor_flag.operation is FlagHallucination
                && d.deep_view().auditor_flag.grounded_in.len() > 0 ==> (r.resolution
                is AuditorUpheld <==> exists|i: int|
                0 <= i < d.deep_view().auditor_flag.grounded_in.len() && !view.known(
                    #[trigger] d.deep_view().auditor_flag.grounded_in[i],
                )),
            final(self)@ == old(self)@.taken(r.deep_view()),
            final(self)@.wf(),
    {
        let rec = self.adjudicate_preview(view, d);
        self.take(rec.clone());
        rec
    }

    /// Keeps a record that was just made.
    pub fn take(&mut self, rec: Adjudication)
        requires
            old(self)@.wf(),
            old(self)@.has_room(),
        ensures
            final(self).ident() == old(self).ident(),
            final(self).judges() == old(self).judges(),
            final(self)@ == old(self)@.taken(rec.deep_view()),
            final(self)@.wf(),
    {
        let ghost was = self@;
        self.count(rec.path);
        if rec.resolution == Resolution::HumanEscalation {
            let ghost before = text_views(self.escalation_queue@);
            let h = rec.handle.clone();
            self.escalation_queue.push(h);
            assert(text_views(self.escalation_queue@) =~= before.push(h@));
        }
        let key = rec.handle.clone();
        self.records.insert(key, rec);
        assert(self@ =~= was.taken(rec.deep_view()));
    }

    fn count(&mut self, path: ResolutionPath)
        requires
            old(self)@.has_room(),
        ensures
            final(self).ident() == old(self).ident(),
            final(self).judges() == old(self).judges(),
            final(self)@ == old(self)@.counted(path),
    {
        match path {
            ResolutionPath::Policy => {
                self.policy_count = self.policy_count + 1;
            },
            ResolutionPath::Pool => {
                self.pool_count = self.pool_count + 1;
            },
            ResolutionPath::Human => {
                self.human_count = self.human_count + 1;
            },
        }
    }

    /// Keeps a record that was made before; one that is already there changes
    /// nothing.
    pub fn replay_adjudication(&mut self, rec: Adjudication)
        requires
            old(self)@.wf(),
            old(self)@.has_room(),
        ensures
            final(self).ident() == old(self).ident(),
            final(self).judges() == old(self).judges(),
            final(self)@ == old(self)@.replayed(rec.deep_view()),
            final(self)@.wf(),
    {
        if self.records.contains_key(rec.handle.as_str()) {
            return ;
        }
        let ghost was = self@;
        self.count(rec.path);
        if rec.resolution == Resolution::HumanEscalation && !rec.human_resolved && !among(
            &self.escalation_queue,
            rec.handle.as_str(),
        ) {
            let ghost before = text_views(self.escalation_queue@);
            let h = rec.handle.clone();
            self.escalation_queue.push(h);
            assert(text_views(self.escalation_queue@) =~= before.push(h@));
        }
        let key = rec.handle.clone();
        self.records.insert(key, rec);
        assert(self@ =~= was.replayed(rec.deep_view()));
    }

    /// The record that awaits a human's decision.
    pub fn validate_human_resolution(&self, handle: &str) -> (r: UcResult<&Adjudication>)
        ensures
            match (r, self@.not_awaited(handle@)) {
                (Ok(a), None) => a.deep_view() == self@.records[handle@],
                (Err(e), Some(w)) => e.plain(w.0, w.1),
                _ => false,
            },
    {
        match self.records.get(handle) {
            None => Err(UcError::not_found(cat2("adjudication ", handle).as_str())),
            Some(rec) => {
                if rec.resolution != Resolution::HumanEscalation || rec.human_resolved {
                    Err(
                        UcError::schema(
                            cat3(
                                "adjudication ",
                                handle,
                                " is not awaiting human resolution",
                            ).as_str(),
                        ),
                    )
                } else {
                    Ok(rec)
                }
            },
        }
    }

    /// Takes a human's decision; gives the record.
    pub fn resolve_human(&mut self, handle: &str, uphold_auditor: bool) -> (r: UcResult<
        Adjudication,
    >)
        requires
            old(self)@.wf(),
        ensures
            final(self).ident() == old(self).ident(),
            final(self).judges() == old(self).judges(),
            final(self)@ == old(self)@.resolved(handle@, uphold_auditor),
            final(self)@.wf(),
            agrees(
                r,
                match old(self)@.not_awaited(handle@) {
                    Some(e) => Err(e),
                    None => Ok(old(self)@.human_record(handle@, uphold_auditor)),
                },
            ),
    {
        let ghost was = self@;
        let mut rec = match self.validate_human_resolution(handle) {
            Ok(r) => r.clone(),
            Err(e) => {
                return Err(e);
            },
        };
        rec.resolution = if uphold_auditor {
            Resolution::AuditorUpheld
        } else {
            Resolution::InitiatorUpheld
        };
        rec.human_resolved = true;
        let ghost v = rec.deep_view();
        assert(v =~= was.human_record(handle@, uphold_auditor));
        self.records.insert(handle.to_string(), rec.clone());
        let rest = drop_text(&self.escalation_queue, handle);
        self.escalation_queue = rest;
        assert(self@ =~= was.resolved(handle@, uphold_auditor));
        Ok(rec)
    }

    /// How many disputes went each way, and how many await a human.
    pub fn stats(&self) -> (r: (u64, u64, u64, usize))
        ensures
            r.0 == self@.policy_count,
            r.1 == self@.pool_count,
            r.2 == self@.human_count,
            r.3 == self@.queue.len(),
    {
        (self.policy_count, self.pool_count, self.human_count, self.escalation_queue.len())
    }

    pub fn get(&self, handle: &str) -> (r: Option<&Adjudication>)
        ensures
            match r {
                Some(a) => self@.records.contains_key(handle@) && a.deep_view()
                    == self@.records[handle@],
                None => !self@.records.contains_key(handle@),
            },
    {
        self.records.get(handle)
    }

    pub fn escalations(&self) -> (r: &Vec<String>)
        ensures
            text_views(r@) == self@.queue,
    {
        &self.escalation_queue
    }
}

/// A snapshot whose counts leave room for percentages.
pub open spec fn counts_fit(v: CborV) -> bool {
    AdjudicatorV::from_image(v).0.total() * 100 <= u64::MAX
}

/// Tells whether the counts of a snapshot fit.
pub fn counts_stand(state: &Cbor) -> (r: bool)
    ensures
        r == counts_fit(state@),
{
    let total: u128 = state.u64_or_zero("policy_count") as u128 + state.u64_or_zero(
        "pool_count",
    ) as u128 + state.u64_or_zero("human_count") as u128;
    total * 100 <= u64::MAX as u128
}

/// What the model of a dispute's judge is asked; nothing where policy settles the
/// dispute, or the judge has no model.
pub open spec fn asked_over<V: SubstrateView>(
    pool: Seq<(String, Worker)>,
    view: &V,
    d: DisputeV,
) -> Option<Seq<Seq<char>>> {
    let judge = pool[d.seed as int % pool.len() as int];
    match judge.1.model {
        Some(m) => if policy(view, d.auditor_flag) is None {
            Some(
                m.asks_verdict(
                    d.seed ^ fnv_of(encode_utf8(judge.0@)),
                    summary_line(d),
                    evidence_for(view, d),
                ),
            )
        } else {
            None
        },
        None => None,
    }
}

impl AdjudicatorCell<Worker> {
    /// The judge whose external model has to be asked before a dispute is settled,
    /// and the arguments for it, if one has to be.
    pub fn asks<V: SubstrateView>(&self, view: &V, d: &Dispute<'_>) -> (r: Option<
        (usize, Vec<String>),
    >)
        requires
            self.judges().len() > 0,
        ensures
            match r {
                Some((i, a)) => i == d.seed as int % self.judges().len() as int && asked_over(
                    self.judges(),
                    view,
                    d.deep_view(),
                ) == Some(text_views(a@)),
                None => asked_over(self.judges(), view, d.deep_view()) is None,
            },
    {
        match self.question(view, d) {
            None => None,
            Some(q) => match &self.pool[q.judge].1.model {
                Some(m) => Some(
                    (q.judge, m.adjudicate_args(q.seed, q.summary.as_str(), &q.evidence)),
                ),
                None => None,
            },
        }
    }

    /// Takes up an exchange with the external model of a judge.
    pub fn hear(&mut self, i: usize, heard: Exchange)
        requires
            i < old(self).judges().len(),
        ensures
            final(self).ident() == old(self).ident(),
            final(self)@ == old(self)@,
            final(self).judges() == old(self).judges().update(
                i as int,
                (
                    old(self).judges()[i as int].0,
                    Worker { heard: Some(heard), ..old(self).judges()[i as int].1 },
                ),
            ),
    {
        self.pool[i].1.heard = Some(heard);
    }
}

impl<B: CuratorBackend> CellBehavior for AdjudicatorCell<B> {
    open spec fn wf(&self) -> bool {
        self@.wf()
    }

    open spec fn accepts(&self, logical_at: u64, update: CborV) -> bool {
        true
    }

    open spec fn restorable(state: CborV) -> bool {
        counts_fit(state)
    }

    fn cell_id(&self) -> (r: CellId)
        ensures
            r == self.ident(),
    {
        self.id
    }

    fn cell_type(&self) -> (r: CellType)
        ensures
            r == CellType::Adjudicator,
    {
        CellType::Adjudicator
    }

    fn schema_id(&self) -> (r: SchemaId)
        ensures
            r.0@ == "curator.adjudicator.v1"@,
    {
        SchemaId::new("curator.adjudicator.v1")
    }

    fn on_query(&self, _at: u64, query: &Cbor) -> (r: UcResult<Cbor>)
        ensures
            agrees(r, self@.answer(query@, names_of(self.judges()))),
    {
        let op = query.opt_str("op");
        let (stats, get) = match &op {
            Some(t) => (str_eq(t.as_str(), "stats"), str_eq(t.as_str(), "get")),
            None => (true, false),
        };
        if stats {
            let sum: u64 = self.policy_count + self.pool_count + self.human_count;
            let total: u64 = if sum == 0 { 1 } else { sum };
            let names = self.pool_names();
            let pairs = vec![
                ("policy", Cbor::U64(self.policy_count)),
                ("pool", Cbor::U64(self.pool_count)),
                ("human", Cbor::U64(self.human_count)),
                ("queued", Cbor::U64(self.escalation_queue.len() as u64)),
                ("policy_share_pct", Cbor::U64(self.policy_count * 100 / total)),
                ("pool_members", Cbor::text_array(names.as_slice())),
            ];
            let ghost got = Seq::new(pairs@.len(), |i: int| (pairs@[i].0@, pairs@[i].1@));
            let r = Cbor::map(pairs);
            assert(r@ == map_value(got));
            assert(r@->Pairs_0 =~= self@.answer(
                query@,
                names_of(self.judges()),
            )->Ok_0->Pairs_0);
            Ok(r)
        } else if get {
            let h: String = match query.req_str("handle") {
                Ok(x) => x,
                Err(e) => {
                    return Err(e);
                },
            };
            match self.records.get(h.as_str()) {
                Some(a) => Ok(a.to_cbor()),
                None => Err(UcError::not_found(cat2("adjudication ", h.as_str()).as_str())),
            }
        } else {
            Err(UcError::schema("adjudicator: unknown op"))
        }
    }

    fn on_update(&mut self, _at: u64, update: &Cbor) -> (r: UcResult<Cbor>)
        ensures
            final(self).ident() == old(self).ident(),
            final(self).judges() == old(self).judges(),
            final(self)@ == old(self)@.update(update@).0,
            agrees(r, old(self)@.update(update@).1),
    {
        let h: String = match update.req_str("handle") {
            Ok(x) => x,
            Err(e) => {
                return Err(e);
            },
        };
        let uphold: bool = match update.opt_bool("uphold_auditor") {
            Some(b) => b,
            None => false,
        };
        match self.resolve_human(h.as_str(), uphold) {
            Ok(rec) => Ok(rec.to_cbor()),
            Err(e) => Err(e),
        }
    }

    fn snapshot_state(&self) -> (r: Cbor)
        ensures
            r@ == self@.image(),
            self@.records.dom().finite(),
    {
        let pairs = vec![
            ("records", Cbor::arr(to_rows(&self.records))),
            ("escalation_queue", Cbor::text_array(self.escalation_queue.as_slice())),
            ("policy_count", Cbor::U64(self.policy_count)),
            ("pool_count", Cbor::U64(self.pool_count)),
            ("human_count", Cbor::U64(self.human_count)),
        ];
        let ghost got = Seq::new(pairs@.len(), |i: int| (pairs@[i].0@, pairs@[i].1@));
        let r = Cbor::map(pairs);
        assert(r@ == map_value(got));
        assert(r@->Pairs_0 =~= self@.image()->Pairs_0);
        r
    }

    fn restore_state(&mut self, state: &Cbor) -> (r: UcResult<()>)
        ensures
            final(self).ident() == old(self).ident(),
            final(self).judges() == old(self).judges(),
            final(self)@ == AdjudicatorV::from_image(state@).0,
            agrees(r, done(AdjudicatorV::from_image(state@).1)),
    {
        let (records, outcome) = rows_in::<Adjudication>(state, "records");
        proof {
            crate::rows::lemma_records_keyed::<Adjudication>(state@, "records"@);
        }
        self.records = records;
        self.policy_count = state.u64_or_zero("policy_count");
        self.pool_count = state.u64_or_zero("pool_count");
        self.human_count = state.u64_or_zero("human_count");
        if let Err(e) = outcome {
            self.escalation_queue = Vec::new();
            assert(self@ =~= AdjudicatorV::from_image(state@).0);
            return Err(e);
        }
        self.escalation_queue = state.texts_or_empty("escalation_queue");
        assert(self@ =~= AdjudicatorV::from_image(state@).0);
        Ok(())
    }
}

} // verus!
