//! The curators: what they put out, what of it their peers may see, and how they
//! judge.
//!
//! The librarian organises, the warden audits, the adjudicator settles their
//! disputes, and the ledger records every exchange. Every output has a public
//! part, which peers may read, and a private part, which lies behind handles
//! that a peer's scope leaves out.

use vstd::prelude::*;
use crate::cbor::{
    dup_texts, lemma_texts_back, lookup_from, map_value, missing_text, text_or_empty, text_views,
    texts_field, texts_value, u64_or_zero, Cbor, CborV,
};
use crate::fixed::{below, less};
use crate::glob::{any_matches, lemma_excluded_anywhere, plain};
use crate::text::{cat2, cat3, ends, holds, str_ends, str_eq, str_holds};
use crate::ulid::{base32, draw, next_state, seeded, ulid_int, DetRng, Ulid};
use crate::vocab::{agrees, ErrCode, ErrV, UcError, UcResult};

pub mod adjudicator;
pub mod backend;
pub mod frozen;
pub mod guardrails;
pub mod ledger;
pub mod librarian;
pub mod warden;

verus! {

/// The bits of 0.45, where the medium band begins.
pub const MEDIUM_FROM: u64 = 0x3FDC_CCCC_CCCC_CCCD;

/// The bits of 0.8, where the high band begins.
pub const HIGH_FROM: u64 = 0x3FE9_9999_9999_999A;

/// How sure a curator is, as its peers may know it.
#[derive(Clone, Copy, Debug, PartialEq, Eq, Structural)]
pub enum ConfidenceBand {
    Low,
    Medium,
    High,
}

impl ConfidenceBand {
    /// The text that stands for a band.
    pub open spec fn name(self) -> Seq<char> {
        match self {
            ConfidenceBand::Low => "low"@,
            ConfidenceBand::Medium => "medium"@,
            ConfidenceBand::High => "high"@,
        }
    }

    /// The band with that name.
    pub open spec fn named(s: Seq<char>) -> Option<ConfidenceBand> {
        if s == "low"@ {
            Some(ConfidenceBand::Low)
        } else if s == "medium"@ {
            Some(ConfidenceBand::Medium)
        } else if s == "high"@ {
            Some(ConfidenceBand::High)
        } else {
            None
        }
    }

    pub fn as_str(self) -> (r: &'static str)
        ensures
            r@ == self.name(),
    {
        match self {
            ConfidenceBand::Low => "low",
            ConfidenceBand::Medium => "medium",
            ConfidenceBand::High => "high",
        }
    }

    /// The band with that name.
    pub fn parse(s: &str) -> (r: Option<ConfidenceBand>)
        ensures
            r == ConfidenceBand::named(s@),
    {
        if str_eq(s, "low") {
            Some(ConfidenceBand::Low)
        } else if str_eq(s, "medium") {
            Some(ConfidenceBand::Medium)
        } else if str_eq(s, "high") {
            Some(ConfidenceBand::High)
        } else {
            None
        }
    }

    /// Every band is found again by its name, and no two share one.
    pub proof fn lemma_named(a: ConfidenceBand, b: ConfidenceBand)
        ensures
            ConfidenceBand::named(a.name()) == Some(a),
            a.name() == b.name() ==> a == b,
    {
        reveal_strlit("low");
        reveal_strlit("medium");
        reveal_strlit("high");
        assert("low"@.len() == 3);
        assert("medium"@.len() == 6);
        assert("high"@.len() == 4);
    }

    /// The band of a precise confidence, which is given as the bits of a double.
    pub open spec fn band_of(bits: u64) -> ConfidenceBand {
        if below(bits, MEDIUM_FROM) {
            ConfidenceBand::Low
        } else if below(bits, HIGH_FROM) {
            ConfidenceBand::Medium
        } else {
            ConfidenceBand::High
        }
    }

    /// A confidence below 0.45 is low, one below 0.8 is medium, and every other is high.
    pub proof fn lemma_band_of(bits: u64)
        ensures
            ConfidenceBand::band_of(bits) is Low <==> below(bits, 0x3FDC_CCCC_CCCC_CCCD),
            ConfidenceBand::band_of(bits) is Medium <==> !below(bits, 0x3FDC_CCCC_CCCC_CCCD)
                && below(bits, 0x3FE9_9999_9999_999A),
            ConfidenceBand::band_of(bits) is High <==> !below(bits, 0x3FDC_CCCC_CCCC_CCCD)
                && !below(bits, 0x3FE9_9999_9999_999A),
    {
    }

    pub fn from_precise(bits: u64) -> (r: ConfidenceBand)
        ensures
            r == ConfidenceBand::band_of(bits),
    {
        if less(bits, MEDIUM_FROM) {
            ConfidenceBand::Low
        } else if less(bits, HIGH_FROM) {
            ConfidenceBand::Medium
        } else {
            ConfidenceBand::High
        }
    }
}

/// What a curator did.
#[derive(Clone, Copy, Debug, PartialEq, Eq, Structural)]
pub enum CuratorOperation {
    Skeleton,
    SupersedeProposal,
    ArchiveTag,
    FlagHallucination,
    FlagDrift,
    AuditPass,
    AuditFail,
    SanityAgree,
    SanityDisagree,
    Adjudication,
}

impl CuratorOperation {
    /// The text that stands for an operation.
    pub open spec fn name(self) -> Seq<char> {
        match self {
            CuratorOperation::Skeleton => "skeleton"@,
            CuratorOperation::SupersedeProposal => "supersede_proposal"@,
            CuratorOperation::ArchiveTag => "archive_tag"@,
            CuratorOperation::FlagHallucination => "flag_hallucination"@,
            CuratorOperation::FlagDrift => "flag_drift"@,
            CuratorOperation::AuditPass => "audit_pass"@,
            CuratorOperation::AuditFail => "audit_fail"@,
            CuratorOperation::SanityAgree => "sanity_agree"@,
            CuratorOperation::SanityDisagree => "sanity_disagree"@,
            CuratorOperation::Adjudication => "adjudication"@,
        }
    }

    /// The operation with that name.
    pub open spec fn named(s: Seq<char>) -> Option<CuratorOperation> {
        if s == "skeleton"@ {
            Some(CuratorOperation::Skeleton)
        } else if s == "supersede_proposal"@ {
            Some(CuratorOperation::SupersedeProposal)
        } else if s == "archive_tag"@ {
            Some(CuratorOperation::ArchiveTag)
        } else if s == "flag_hallucination"@ {
            Some(CuratorOperation::FlagHallucination)
        } else if s == "flag_drift"@ {
            Some(CuratorOperation::FlagDrift)
        } else if s == "audit_pass"@ {
            Some(CuratorOperation::AuditPass)
        } else if s == "audit_fail"@ {
            Some(CuratorOperation::AuditFail)
        } else if s == "sanity_agree"@ {
            Some(CuratorOperation::SanityAgree)
        } else if s == "sanity_disagree"@ {
            Some(CuratorOperation::SanityDisagree)
        } else if s == "adjudication"@ {
            Some(CuratorOperation::Adjudication)
        } else {
            None
        }
    }

    pub fn as_str(self) -> (r: &'static str)
        ensures
            r@ == self.name(),
    {
        match self {
            CuratorOperation::Skeleton => "skeleton",
            CuratorOperation::SupersedeProposal => "supersede_proposal",
            CuratorOperation::ArchiveTag => "archive_tag",
            CuratorOperation::FlagHallucination => "flag_hallucination",
            CuratorOperation::FlagDrift => "flag_drift",
            CuratorOperation::AuditPass => "audit_pass",
            CuratorOperation::AuditFail => "audit_fail",
            CuratorOperation::SanityAgree => "sanity_agree",
            CuratorOperation::SanityDisagree => "sanity_disagree",
            CuratorOperation::Adjudication => "adjudication",
        }
    }

    /// The operation with that name.
    pub fn parse(s: &str) -> (r: Option<CuratorOperation>)
        ensures
            r == CuratorOperation::named(s@),
    {
        if str_eq(s, "skeleton") {
            Some(CuratorOperation::Skeleton)
        } else if str_eq(s, "supersede_proposal") {
            Some(CuratorOperation::SupersedeProposal)
        } else if str_eq(s, "archive_tag") {
            Some(CuratorOperation::ArchiveTag)
        } else if str_eq(s, "flag_hallucination") {
            Some(CuratorOperation::FlagHallucination)
        } else if str_eq(s, "flag_drift") {
            Some(CuratorOperation::FlagDrift)
        } else if str_eq(s, "audit_pass") {
            Some(CuratorOperation::AuditPass)
        } else if str_eq(s, "audit_fail") {
            Some(CuratorOperation::AuditFail)
        } else if str_eq(s, "sanity_agree") {
            Some(CuratorOperation::SanityAgree)
        } else if str_eq(s, "sanity_disagree") {
            Some(CuratorOperation::SanityDisagree)
        } else if str_eq(s, "adjudication") {
            Some(CuratorOperation::Adjudication)
        } else {
            None
        }
    }

    /// Every operation is found again by its name, and no two share one.
    pub proof fn lemma_named(a: CuratorOperation, b: CuratorOperation)
        ensures
            CuratorOperation::named(a.name()) == Some(a),
            a.name() == b.name() ==> a == b,
    {
        reveal_strlit("skeleton");
        reveal_strlit("supersede_proposal");
        reveal_strlit("archive_tag");
        reveal_strlit("flag_hallucination");
        reveal_strlit("flag_drift");
        reveal_strlit("audit_pass");
        reveal_strlit("audit_fail");
        reveal_strlit("sanity_agree");
        reveal_strlit("sanity_disagree");
        reveal_strlit("adjudication");
        assert("skeleton"@.len() == 8);
        assert("supersede_proposal"@.len() == 18);
        assert("archive_tag"@.len() == 11);
        assert("flag_hallucination"@.len() == 18);
        assert("flag_drift"@.len() == 10);
        assert("audit_pass"@.len() == 10);
        assert("audit_fail"@.len() == 10);
        assert("sanity_agree"@.len() == 12);
        assert("sanity_disagree"@.len() == 15);
        assert("adjudication"@.len() == 12);
        assert("supersede_proposal"@[0] != "flag_hallucination"@[0]);
        assert("flag_drift"@[0] != "audit_pass"@[0]);
        assert("flag_drift"@[0] != "audit_fail"@[0]);
        assert("audit_pass"@[6] != "audit_fail"@[6]);
        assert("sanity_agree"@[0] != "adjudication"@[0]);
    }
}

/// Everything that a peer may see of an output.
#[derive(Debug)]
pub struct CuratorPublic {
    /// The output's own handle, such as `librarian/output/<ulid>`.
    pub output_handle: String,
    pub operation: CuratorOperation,
    pub target_handle: String,
    /// The handles that the output rests on: its auditable claim.
    pub grounded_in: Vec<String>,
    pub confidence_band: ConfidenceBand,
    pub schema_id: String,
    pub spec_anchor: String,
    pub logical_at: u64,
    /// The skeleton text or the summary of a flag.
    pub body: String,
}

/// The public part of an output as a mathematical object.
#[verifier::ext_equal]
pub struct CuratorPublicV {
    pub output_handle: Seq<char>,
    pub operation: CuratorOperation,
    pub target_handle: Seq<char>,
    pub grounded_in: Seq<Seq<char>>,
    pub confidence_band: ConfidenceBand,
    pub schema_id: Seq<char>,
    pub spec_anchor: Seq<char>,
    pub logical_at: u64,
    pub body: Seq<char>,
}

impl DeepView for CuratorPublic {
    type V = CuratorPublicV;

    open spec fn deep_view(&self) -> CuratorPublicV {
        CuratorPublicV {
            output_handle: self.output_handle@,
            operation: self.operation,
            target_handle: self.target_handle@,
            grounded_in: text_views(self.grounded_in@),
            confidence_band: self.confidence_band,
            schema_id: self.schema_id@,
            spec_anchor: self.spec_anchor@,
            logical_at: self.logical_at,
            body: self.body@,
        }
    }
}

impl Clone for CuratorPublic {
    fn clone(&self) -> (r: CuratorPublic)
        ensures
            r.deep_view() == self.deep_view(),
    {
        CuratorPublic {
            output_handle: self.output_handle.clone(),
            operation: self.operation,
            target_handle: self.target_handle.clone(),
            grounded_in: dup_texts(&self.grounded_in),
            confidence_band: self.confidence_band,
            schema_id: self.schema_id.clone(),
            spec_anchor: self.spec_anchor.clone(),
            logical_at: self.logical_at,
            body: self.body.clone(),
        }
    }
}

impl CuratorPublicV {
    /// The encoded form of a public part.
    pub open spec fn value(self) -> CborV {
        map_value(
            seq![
                ("output_handle"@, CborV::Text(self.output_handle)),
                ("operation"@, CborV::Text(self.operation.name())),
                ("target_handle"@, CborV::Text(self.target_handle)),
                ("grounded_in"@, texts_value(self.grounded_in)),
                ("confidence_band"@, CborV::Text(self.confidence_band.name())),
                ("schema_id"@, CborV::Text(self.schema_id)),
                ("spec_anchor"@, CborV::Text(self.spec_anchor)),
                ("logical_at"@, CborV::U64(self.logical_at)),
                ("body"@, CborV::Text(self.body)),
            ],
        )
    }

    /// What an encoded form says; the first required field that is missing is the
    /// error.
    pub open spec fn read(v: CborV) -> Result<CuratorPublicV, ErrV> {
        if v.text_field("output_handle"@) is None {
            Err((ErrCode::Internal, missing_text("output_handle"@)))
        } else if v.text_field("operation"@) is None {
            Err((ErrCode::Internal, missing_text("operation"@)))
        } else if CuratorOperation::named(v.text_field("operation"@)->0) is None {
            Err((ErrCode::ContractViolation, "bad curator operation"@))
        } else {
            Ok(
                CuratorPublicV {
                    output_handle: v.text_field("output_handle"@)->0,
                    operation: CuratorOperation::named(v.text_field("operation"@)->0)->0,
                    target_handle: text_or_empty(v, "target_handle"@),
                    grounded_in: texts_field(v, "grounded_in"@),
                    confidence_band: match ConfidenceBand::named(text_or_empty(v, "confidence_band"@)) {
                        Some(x) => x,
                        None => ConfidenceBand::Low,
                    },
                    schema_id: text_or_empty(v, "schema_id"@),
                    spec_anchor: text_or_empty(v, "spec_anchor"@),
                    logical_at: u64_or_zero(v, "logical_at"@),
                    body: text_or_empty(v, "body"@),
                },
            )
        }
    }

    /// Reading gives back what was encoded.
    pub proof fn lemma_read_back(self)
        ensures
            CuratorPublicV::read(self.value()) == Ok::<_, ErrV>(self),
            self.value().field("output_handle"@) == Some(CborV::Text(self.output_handle)),
            self.value().field("operation"@) == Some(CborV::Text(self.operation.name())),
            self.value().field("target_handle"@) == Some(CborV::Text(self.target_handle)),
            self.value().field("grounded_in"@) == Some(texts_value(self.grounded_in)),
            self.value().field("confidence_band"@) == Some(CborV::Text(self.confidence_band.name())),
            self.value().field("schema_id"@) == Some(CborV::Text(self.schema_id)),
            self.value().field("spec_anchor"@) == Some(CborV::Text(self.spec_anchor)),
            self.value().field("logical_at"@) == Some(CborV::U64(self.logical_at)),
            self.value().field("body"@) == Some(CborV::Text(self.body)),
    {
        reveal_strlit("output_handle");
        reveal_strlit("operation");
        reveal_strlit("target_handle");
        reveal_strlit("grounded_in");
        reveal_strlit("confidence_band");
        reveal_strlit("schema_id");
        reveal_strlit("spec_anchor");
        reveal_strlit("logical_at");
        reveal_strlit("body");
        assert("output_handle"@.len() == 13);
        assert("operation"@.len() == 9);
        assert("target_handle"@.len() == 13);
        assert("grounded_in"@.len() == 11);
        assert("confidence_band"@.len() == 15);
        assert("schema_id"@.len() == 9);
        assert("spec_anchor"@.len() == 11);
        assert("logical_at"@.len() == 10);
        assert("body"@.len() == 4);
        assert("output_handle"@[0] != "target_handle"@[0]);
        assert("operation"@[0] != "schema_id"@[0]);
        assert("grounded_in"@[0] != "spec_anchor"@[0]);
        reveal_with_fuel(lookup_from, 10);
        CuratorOperation::lemma_named(self.operation, self.operation);
        lemma_texts_back(self.grounded_in);
        ConfidenceBand::lemma_named(self.confidence_band, self.confidence_band);
        let m = self.value()->Pairs_0;
        assert(m[0].0 == CborV::Text("output_handle"@));
        assert(m[1].0 == CborV::Text("operation"@));
        assert(m[2].0 == CborV::Text("target_handle"@));
        assert(m[3].0 == CborV::Text("grounded_in"@));
        assert(m[4].0 == CborV::Text("confidence_band"@));
        assert(m[5].0 == CborV::Text("schema_id"@));
        assert(m[6].0 == CborV::Text("spec_anchor"@));
        assert(m[7].0 == CborV::Text("logical_at"@));
        assert(m[8].0 == CborV::Text("body"@));
        assert(self.value().field("output_handle"@) == Some(CborV::Text(self.output_handle)));
        assert(self.value().field("operation"@) == Some(CborV::Text(self.operation.name())));
        assert(self.value().field("target_handle"@) == Some(CborV::Text(self.target_handle)));
        assert(self.value().field("grounded_in"@) == Some(texts_value(self.grounded_in)));
        assert(self.value().field("confidence_band"@) == Some(CborV::Text(self.confidence_band.name())));
        assert(self.value().field("schema_id"@) == Some(CborV::Text(self.schema_id)));
        assert(self.value().field("spec_anchor"@) == Some(CborV::Text(self.spec_anchor)));
        assert(self.value().field("logical_at"@) == Some(CborV::U64(self.logical_at)));
        assert(self.value().field("body"@) == Some(CborV::Text(self.body)));
    }

}

impl CuratorPublic {
    pub fn to_cbor(&self) -> (r: Cbor)
        ensures
            r@ == self.deep_view().value(),
    {
        let pairs = vec![
            ("output_handle", Cbor::t(self.output_handle.as_str())),
            ("operation", Cbor::t(self.operation.as_str())),
            ("target_handle", Cbor::t(self.target_handle.as_str())),
            ("grounded_in", Cbor::text_array(self.grounded_in.as_slice())),
            ("confidence_band", Cbor::t(self.confidence_band.as_str())),
            ("schema_id", Cbor::t(self.schema_id.as_str())),
            ("spec_anchor", Cbor::t(self.spec_anchor.as_str())),
            ("logical_at", Cbor::U64(self.logical_at)),
            ("body", Cbor::t(self.body.as_str())),
        ];
        let ghost want = seq![
            ("output_handle"@, CborV::Text(self.output_handle@)),
            ("operation"@, CborV::Text(self.operation.name())),
            ("target_handle"@, CborV::Text(self.target_handle@)),
            ("grounded_in"@, texts_value(text_views(self.grounded_in@))),
            ("confidence_band"@, CborV::Text(self.confidence_band.name())),
            ("schema_id"@, CborV::Text(self.schema_id@)),
            ("spec_anchor"@, CborV::Text(self.spec_anchor@)),
            ("logical_at"@, CborV::U64(self.logical_at)),
            ("body"@, CborV::Text(self.body@)),
        ];
        assert(Seq::new(pairs@.len(), |i: int| (pairs@[i].0@, pairs@[i].1@)) =~= want);
        Cbor::map(pairs)
    }

    pub fn from_cbor(c: &Cbor) -> (r: UcResult<CuratorPublic>)
        ensures
            agrees(r, CuratorPublicV::read(c@)),
    {
        let output_handle = match c.req_str("output_handle") {
            Ok(x) => x,
            Err(e) => {
                return Err(e);
            },
        };
        let operation = match c.req_str("operation") {
            Ok(x) => match CuratorOperation::parse(x.as_str()) {
                Some(y) => y,
                None => {
                    return Err(UcError::schema("bad curator operation"));
                },
            },
            Err(e) => {
                return Err(e);
            },
        };
        let target_handle = c.str_or_empty("target_handle");
        let grounded_in = c.texts_or_empty("grounded_in");
        let confidence_band = match ConfidenceBand::parse(c.str_or_empty("confidence_band").as_str()) {
            Some(x) => x,
            None => ConfidenceBand::Low,
        };
        let schema_id = c.str_or_empty("schema_id");
        let spec_anchor = c.str_or_empty("spec_anchor");
        let logical_at: u64 = c.u64_or_zero("logical_at");
        let body = c.str_or_empty("body");
        Ok(CuratorPublic { output_handle, operation, target_handle, grounded_in, confidence_band, schema_id, spec_anchor, logical_at, body })
    }
}

/// What peers never see of an output. The precise confidence is the bits of a
/// double.
#[derive(Debug)]
pub struct CuratorPrivate {
    pub rationale: String,
    pub considered_alts: Vec<String>,
    pub confidence_precise: u64,
    pub reasoning_trace: String,
    pub private_seed: u64,
}

/// The private part of an output as a mathematical object.
#[verifier::ext_equal]
pub struct CuratorPrivateV {
    pub rationale: Seq<char>,
    pub considered_alts: Seq<Seq<char>>,
    pub confidence_precise: u64,
    pub reasoning_trace: Seq<char>,
    pub private_seed: u64,
}

impl DeepView for CuratorPrivate {
    type V = CuratorPrivateV;

    open spec fn deep_view(&self) -> CuratorPrivateV {
        CuratorPrivateV {
            rationale: self.rationale@,
            considered_alts: text_views(self.considered_alts@),
            confidence_precise: self.confidence_precise,
            reasoning_trace: self.reasoning_trace@,
            private_seed: self.private_seed,
        }
    }
}

/// An output of a curator.
#[derive(Debug)]
pub struct CuratorOutput {
    pub public: CuratorPublic,
    pub private: CuratorPrivate,
}

/// An output as a mathematical object.
#[verifier::ext_equal]
pub struct CuratorOutputV {
    pub public: CuratorPublicV,
    pub private: CuratorPrivateV,
}

impl DeepView for CuratorOutput {
    type V = CuratorOutputV;

    open spec fn deep_view(&self) -> CuratorOutputV {
        CuratorOutputV { public: self.public.deep_view(), private: self.private.deep_view() }
    }
}

/// The names of the private facets.
pub open spec fn private_facets() -> Seq<Seq<char>> {
    seq!["rationale"@, "considered_alts"@, "reasoning_trace"@, "confidence_precise"@]
}

/// The names of the private facets.
pub const PRIVATE_FACETS: [&'static str; 4] = [
    "rationale",
    "considered_alts",
    "reasoning_trace",
    "confidence_precise",
];

/// The handle of a facet.
pub open spec fn facet_of(output: Seq<char>, facet: Seq<char>) -> Seq<char> {
    output + "/"@ + facet
}

pub fn facet_handle(output_handle: &str, facet: &str) -> (r: String)
    ensures
        r@ == facet_of(output_handle@, facet@),
{
    cat3(output_handle, "/", facet)
}

/// The handle ends in that facet, or lies below it.
pub open spec fn in_facet(handle: Seq<char>, facet: Seq<char>) -> bool {
    ends(handle, "/"@ + facet) || holds(handle, "/"@ + facet + "/"@)
}

/// The handle lies in a private facet.
pub open spec fn private_handle(handle: Seq<char>) -> bool {
    ||| in_facet(handle, "rationale"@)
    ||| in_facet(handle, "considered_alts"@)
    ||| in_facet(handle, "reasoning_trace"@)
    ||| in_facet(handle, "confidence_precise"@)
}

fn facet_match(handle: &str, facet: &str) -> (r: bool)
    ensures
        r == in_facet(handle@, facet@),
{
    str_ends(handle, cat2("/", facet).as_str()) || str_holds(handle, cat3("/", facet, "/").as_str())
}

pub fn is_private_facet(handle: &str) -> (r: bool)
    ensures
        r == private_handle(handle@),
{
    facet_match(handle, "rationale") || facet_match(handle, "considered_alts") || facet_match(
        handle,
        "reasoning_trace",
    ) || facet_match(handle, "confidence_precise")
}

/// Every private facet of an output has a private handle.
pub proof fn lemma_facets_private(output: Seq<char>, i: int)
    requires
        0 <= i < 4,
    ensures
        private_handle(facet_of(output, private_facets()[i])),
{
    let f = private_facets()[i];
    let h = facet_of(output, f);
    assert(h.skip(h.len() - ("/"@ + f).len()) =~= "/"@ + f);
    assert(in_facet(h, f));
}

/// A scope that excludes a private facet between double stars never allows it, of
/// whichever output.
pub proof fn lemma_facet_excluded(
    excludes: Seq<Seq<char>>,
    j: int,
    output: Seq<char>,
    i: int,
    below: Seq<char>,
)
    requires
        0 <= i < 4,
        0 <= j < excludes.len(),
        excludes[j] == "**"@ + ("/"@ + private_facets()[i]) + "**"@,
    ensures
        any_matches(excludes, facet_of(output, private_facets()[i]) + below),
{
    let f = private_facets()[i];
    reveal_strlit("/");
    reveal_strlit("rationale");
    reveal_strlit("considered_alts");
    reveal_strlit("reasoning_trace");
    reveal_strlit("confidence_precise");
    assert(plain("/"@ + f));
    lemma_excluded_anywhere(excludes, j, output, "/"@ + f, below);
    assert(output + ("/"@ + f) + below =~= facet_of(output, f) + below);
}

/// What curators may consult: which handles there are, the facts that stand for
/// a subject and predicate, and the public text of a handle. Nothing private
/// can be asked for.
pub trait SubstrateView {
    spec fn known(&self, handle: Seq<char>) -> bool;

    spec fn facts(&self, subject: Seq<char>, predicate: Seq<char>) -> Seq<(Seq<char>, Seq<char>)>;

    spec fn text(&self, handle: Seq<char>) -> Option<Seq<char>>;

    fn handle_exists(&self, handle: &str) -> (r: bool)
        ensures
            r == self.known(handle@),
    ;

    /// The active facts for a subject and predicate, as handle and object.
    fn active_sp(&self, subject: &str, predicate: &str) -> (r: Vec<(String, String)>)
        ensures
            r.deep_view() == self.facts(subject@, predicate@),
    ;

    /// The public text of a handle.
    fn public_text(&self, handle: &str) -> (r: Option<String>)
        ensures
            r.deep_view() == self.text(handle@),
    ;
}

/// The identifier that a time and the state of a generator give.
pub open spec fn minted(at: u64, s: u64) -> Seq<char> {
    base32(ulid_int(at, draw(next_state(s)), draw(next_state(next_state(s)))) as u128)
}

/// A handle under a prefix, and the generator that made it.
pub fn mint(prefix: &str, at: u64, seed: u64) -> (r: (String, DetRng))
    ensures
        r.0@ == prefix@ + minted(at, seeded(seed)),
        r.1@ == next_state(next_state(seeded(seed))),
{
    let mut rng = DetRng::new(seed);
    let ghost s = seeded(seed);
    let ulid = Ulid::from_parts(at, &mut rng);
    assert(ulid.0 == ulid_int(at, draw(next_state(s)), draw(next_state(next_state(s)))));
    (cat2(prefix, ulid.to_base32().as_str()), rng)
}

/// How a dispute is judged.
#[derive(Clone, Copy, Debug, PartialEq, Eq, Structural)]
pub enum Verdict {
    InitiatorCorrect,
    AuditorCorrect,
    Uncertain,
}

/// What judges for a curator. The same inputs give the same answers.
pub trait CuratorBackend {
    spec fn skeleton_of(&self, text: Seq<char>, max_tokens: nat) -> Seq<char>;

    spec fn verdict_of(&self, seed: u64, dispute: Seq<char>, evidence: Seq<Seq<char>>) -> Verdict;

    spec fn name(&self) -> Seq<char>;

    fn backend_id(&self) -> (r: String)
        ensures
            r@ == self.name(),
    ;

    /// A summary of a text that rests on nothing else.
    fn skeleton(&self, text: &str, max_tokens: usize) -> (r: String)
        ensures
            r@ == self.skeleton_of(text@, max_tokens as nat),
    ;

    /// Judges a dispute by public evidence.
    fn adjudicate(&self, seed: u64, dispute_summary: &str, evidence: &Vec<String>) -> (r: Verdict)
        ensures
            r == self.verdict_of(seed, dispute_summary@, text_views(evidence@)),
    ;
}

} // verus!
