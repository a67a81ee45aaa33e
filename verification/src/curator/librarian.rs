//! The librarian: it summarises what is written and proposes to supersede what
//! a new fact replaces. Every output is pending until the warden has audited it.

use vstd::prelude::*;
use crate::cbor::{
    dup_text, lemma_texts_back, lookup_from, map_value, missing_text, text_or_empty, text_views,
    texts_value, views, Cbor, CborV,
};
use crate::cells::blob::{bytes_of, first_32};
use crate::cells::{CellBehavior, CellType};
use crate::curator::backend::{DeterministicBackend, Exchange, Worker};
use crate::curator::{
    facet_handle, facet_of, mint, minted, ConfidenceBand, CuratorBackend, CuratorOperation,
    CuratorOutput, CuratorOutputV, CuratorPrivate, CuratorPrivateV, CuratorPublic, CuratorPublicV,
    SubstrateView,
};
use crate::rows::{
    done, keyed, lemma_records_back, record_rows, records_in, rows, rows_in, to_rows, Record,
};
use crate::text::{dec_text, str_eq, u64_text};
use crate::textmap::{lemma_finite_listed, lemma_listed_finite, lists, text_order, TextMap};
use crate::ulid::{draw, next_state, seeded};
use crate::vocab::{agrees, CellId, ErrCode, ErrV, SchemaId, Severity, UcError, UcResult};
use vstd::string::StringSliceAdditionalSpecFns;
use vstd::utf8::encode_utf8;

verus! {

/// How long a skeleton may be, in tokens.
pub const SKELETON_MAX_TOKENS: usize = 80;

/// The bits of 0.7, the confidence in a supersede proposal.
pub const PROPOSAL_CONFIDENCE: u64 = 0x3FE6_6666_6666_6666;

/// The bits of 0.85, the confidence in a skeleton.
pub const SKELETON_CONFIDENCE: u64 = 0x3FEB_3333_3333_3333;

/// The bits of 0.3, the confidence in an empty skeleton.
pub const EMPTY_CONFIDENCE: u64 = 0x3FD3_3333_3333_3333;

/// Where an output stands.
#[derive(Clone, Copy, Debug, PartialEq, Eq, Structural)]
pub enum OutputStatus {
    Pending,
    Active,
    Quarantined,
}

impl OutputStatus {
    /// The text that stands for a status.
    pub open spec fn name(self) -> Seq<char> {
        match self {
            OutputStatus::Pending => "pending"@,
            OutputStatus::Active => "active"@,
            OutputStatus::Quarantined => "quarantined"@,
        }
    }

    /// The status with that name.
    pub open spec fn named(s: Seq<char>) -> Option<OutputStatus> {
        if s == "pending"@ {
            Some(OutputStatus::Pending)
        } else if s == "active"@ {
            Some(OutputStatus::Active)
        } else if s == "quarantined"@ {
            Some(OutputStatus::Quarantined)
        } else {
            None
        }
    }

    pub fn as_str(self) -> (r: &'static str)
        ensures
            r@ == self.name(),
    {
        match self {
            OutputStatus::Pending => "pending",
            OutputStatus::Active => "active",
            OutputStatus::Quarantined => "quarantined",
        }
    }

    /// The status with that name.
    pub fn parse(s: &str) -> (r: Option<OutputStatus>)
        ensures
            r == OutputStatus::named(s@),
    {
        if str_eq(s, "pending") {
            Some(OutputStatus::Pending)
        } else if str_eq(s, "active") {
            Some(OutputStatus::Active)
        } else if str_eq(s, "quarantined") {
            Some(OutputStatus::Quarantined)
        } else {
            None
        }
    }

    /// Every status is found again by its name, and no two share one.
    pub proof fn lemma_named(a: OutputStatus, b: OutputStatus)
        ensures
            OutputStatus::named(a.name()) == Some(a),
            a.name() == b.name() ==> a == b,
    {
        reveal_strlit("pending");
        reveal_strlit("active");
        reveal_strlit("quarantined");
        assert("pending"@.len() == 7);
        assert("active"@.len() == 6);
        assert("quarantined"@.len() == 11);
    }
}

/// What was written and is to be curated.
#[derive(Debug)]
pub struct CurationJob {
    pub written_handle: String,
    pub subject: Option<String>,
    pub predicate: Option<String>,
    pub object_text: String,
    pub severity: Severity,
    pub logical_at: u64,
    pub seed: u64,
}

/// A job as a mathematical object.
#[verifier::ext_equal]
pub struct CurationJobV {
    pub written_handle: Seq<char>,
    pub subject: Option<Seq<char>>,
    pub predicate: Option<Seq<char>>,
    pub object_text: Seq<char>,
    pub severity: Severity,
    pub logical_at: u64,
    pub seed: u64,
}

impl DeepView for CurationJob {
    type V = CurationJobV;

    open spec fn deep_view(&self) -> CurationJobV {
        CurationJobV {
            written_handle: self.written_handle@,
            subject: self.subject.deep_view(),
            predicate: self.predicate.deep_view(),
            object_text: self.object_text@,
            severity: self.severity,
            logical_at: self.logical_at,
            seed: self.seed,
        }
    }
}

impl Clone for CurationJob {
    fn clone(&self) -> (r: CurationJob)
        ensures
            r.deep_view() == self.deep_view(),
    {
        CurationJob {
            written_handle: self.written_handle.clone(),
            subject: dup_text(&self.subject),
            predicate: dup_text(&self.predicate),
            object_text: self.object_text.clone(),
            severity: self.severity,
            logical_at: self.logical_at,
            seed: self.seed,
        }
    }
}

/// An output with its status.
#[derive(Debug)]
pub struct OutputEntry {
    pub public: CuratorPublic,
    pub status: OutputStatus,
}

/// An output with its status as a mathematical object.
#[verifier::ext_equal]
pub struct OutputEntryV {
    pub public: CuratorPublicV,
    pub status: OutputStatus,
}

impl DeepView for OutputEntry {
    type V = OutputEntryV;

    open spec fn deep_view(&self) -> OutputEntryV {
        OutputEntryV { public: self.public.deep_view(), status: self.status }
    }
}

impl OutputEntryV {
    /// The encoded form: that of the public part, and the status behind it.
    pub open spec fn value(self) -> CborV {
        CborV::Pairs(
            self.public.value()->Pairs_0.push(
                (CborV::Text("status"@), CborV::Text(self.status.name())),
            ),
        )
    }

    /// What an encoded form says.
    pub open spec fn read(v: CborV) -> Result<OutputEntryV, ErrV> {
        match CuratorPublicV::read(v) {
            Err(e) => Err(e),
            Ok(public) => Ok(
                OutputEntryV {
                    public,
                    status: match OutputStatus::named(text_or_empty(v, "status"@)) {
                        Some(s) => s,
                        None => OutputStatus::Pending,
                    },
                },
            ),
        }
    }

    /// Reading gives back what was encoded.
    pub proof fn lemma_read_back(self)
        ensures
            OutputEntryV::read(self.value()) == Ok::<_, ErrV>(self),
            self.value().field("output_handle"@) == Some(CborV::Text(self.public.output_handle)),
            self.value().field("operation"@) == Some(CborV::Text(self.public.operation.name())),
            self.value().field("target_handle"@) == Some(CborV::Text(self.public.target_handle)),
            self.value().field("grounded_in"@) == Some(texts_value(self.public.grounded_in)),
            self.value().field("confidence_band"@) == Some(CborV::Text(self.public.confidence_band.name())),
            self.value().field("schema_id"@) == Some(CborV::Text(self.public.schema_id)),
            self.value().field("spec_anchor"@) == Some(CborV::Text(self.public.spec_anchor)),
            self.value().field("logical_at"@) == Some(CborV::U64(self.public.logical_at)),
            self.value().field("body"@) == Some(CborV::Text(self.public.body)),
            self.value().field("status"@) == Some(CborV::Text(self.status.name())),
    {
        let v = self.value();
        let p = self.public.value()->Pairs_0;
        OutputStatus::lemma_named(self.status, self.status);
        CuratorOperation::lemma_named(self.public.operation, self.public.operation);
        ConfidenceBand::lemma_named(self.public.confidence_band, self.public.confidence_band);
        lemma_texts_back(self.public.grounded_in);
        let m = v->Pairs_0;
        reveal_strlit("output_handle");
        reveal_strlit("operation");
        reveal_strlit("target_handle");
        reveal_strlit("grounded_in");
        reveal_strlit("confidence_band");
        reveal_strlit("schema_id");
        reveal_strlit("spec_anchor");
        reveal_strlit("logical_at");
        reveal_strlit("body");
        reveal_strlit("status");
        assert("output_handle"@.len() == 13);
        assert("operation"@.len() == 9);
        assert("target_handle"@.len() == 13);
        assert("grounded_in"@.len() == 11);
        assert("confidence_band"@.len() == 15);
        assert("schema_id"@.len() == 9);
        assert("spec_anchor"@.len() == 11);
        assert("logical_at"@.len() == 10);
        assert("body"@.len() == 4);
        assert("status"@.len() == 6);
        assert("output_handle"@[0] != "target_handle"@[0]);
        assert("operation"@[0] != "schema_id"@[0]);
        assert("grounded_in"@[0] != "spec_anchor"@[0]);
        reveal_with_fuel(lookup_from, 11);
        assert(m[0].0 == CborV::Text("output_handle"@));
        assert(m[1].0 == CborV::Text("operation"@));
        assert(m[2].0 == CborV::Text("target_handle"@));
        assert(m[3].0 == CborV::Text("grounded_in"@));
        assert(m[4].0 == CborV::Text("confidence_band"@));
        assert(m[5].0 == CborV::Text("schema_id"@));
        assert(m[6].0 == CborV::Text("spec_anchor"@));
        assert(m[7].0 == CborV::Text("logical_at"@));
        assert(m[8].0 == CborV::Text("body"@));
        assert(m[9].0 == CborV::Text("status"@));
        assert(v.field("output_handle"@) == Some(CborV::Text(self.public.output_handle)));
        assert(v.field("operation"@) == Some(CborV::Text(self.public.operation.name())));
        assert(v.field("target_handle"@) == Some(CborV::Text(self.public.target_handle)));
        assert(v.field("grounded_in"@) == Some(texts_value(self.public.grounded_in)));
        assert(v.field("confidence_band"@) == Some(CborV::Text(self.public.confidence_band.name())));
        assert(v.field("schema_id"@) == Some(CborV::Text(self.public.schema_id)));
        assert(v.field("spec_anchor"@) == Some(CborV::Text(self.public.spec_anchor)));
        assert(v.field("logical_at"@) == Some(CborV::U64(self.public.logical_at)));
        assert(v.field("body"@) == Some(CborV::Text(self.public.body)));
        assert(v.field("status"@) == Some(CborV::Text(self.status.name())));
    }
}

impl OutputEntry {
    /// The encoded form.
    pub fn to_cbor(&self) -> (r: Cbor)
        ensures
            r@ == self.deep_view().value(),
    {
        let c = self.public.to_cbor();
        let ghost was = c@;
        match c {
            Cbor::Pairs(mut pairs) => {
                let ghost before = crate::cbor::pair_views(pairs@);
                let status = (Cbor::t("status"), Cbor::t(self.status.as_str()));
                pairs.push(status);
                let r = Cbor::Pairs(pairs);
                assert(before =~= was->Pairs_0);
                assert(r@->Pairs_0 =~= self.deep_view().value()->Pairs_0);
                r
            },
            other => other,
        }
    }

    pub fn from_cbor(c: &Cbor) -> (r: UcResult<OutputEntry>)
        ensures
            agrees(r, OutputEntryV::read(c@)),
    {
        match CuratorPublic::from_cbor(c) {
            Err(e) => Err(e),
            Ok(public) => {
                let status = match OutputStatus::parse(c.str_or_empty("status").as_str()) {
                    Some(s) => s,
                    None => OutputStatus::Pending,
                };
                Ok(OutputEntry { public, status })
            },
        }
    }
}

impl Record for OutputEntry {
    open spec fn key_of(v: OutputEntryV) -> Seq<char> {
        v.public.output_handle
    }

    open spec fn value_of(v: OutputEntryV) -> CborV {
        v.value()
    }

    open spec fn read_of(c: CborV) -> Result<OutputEntryV, ErrV> {
        OutputEntryV::read(c)
    }

    open spec fn valid(v: OutputEntryV) -> bool {
        true
    }

    proof fn lemma_back(v: OutputEntryV) {
        v.lemma_read_back();
    }

    fn key(&self) -> (r: String) {
        self.public.output_handle.clone()
    }

    fn to_row(&self) -> (r: Cbor) {
        self.to_cbor()
    }

    fn from_row(c: &Cbor) -> (r: UcResult<OutputEntry>) {
        OutputEntry::from_cbor(c)
    }
}

/// The first fact from `i` on that is not the one just written.
pub open spec fn other_fact(facts: Seq<(Seq<char>, Seq<char>)>, written: Seq<char>, i: int) -> Option<
    (Seq<char>, Seq<char>),
>
    decreases facts.len() - i,
{
    if i < 0 || i >= facts.len() {
        None
    } else if facts[i].0 != written {
        Some(facts[i])
    } else {
        other_fact(facts, written, i + 1)
    }
}

/// The fact that a job's write would replace: another active fact in its slot
/// that says something else.
pub open spec fn replaced<V: SubstrateView>(view: &V, job: CurationJobV) -> Option<
    (Seq<char>, Seq<char>),
> {
    match (job.subject, job.predicate) {
        (Some(s), Some(p)) => match other_fact(view.facts(s, p), job.written_handle, 0) {
            Some(f) => if f.1 != job.object_text {
                Some(f)
            } else {
                None
            },
            None => None,
        },
        _ => None,
    }
}

/// What the librarian decides of a job.
#[verifier::ext_equal]
pub struct DecisionV {
    pub operation: CuratorOperation,
    pub body: Seq<char>,
    pub grounded_in: Seq<Seq<char>>,
    pub confidence: u64,
    pub rationale: Seq<char>,
    pub alternatives: Seq<Seq<char>>,
}

/// The proposal to let a job's write supersede a fact.
pub open spec fn proposal(job: CurationJobV, f: (Seq<char>, Seq<char>)) -> DecisionV {
    let slot_s = job.subject->0;
    let slot_p = job.predicate->0;
    DecisionV {
        operation: CuratorOperation::SupersedeProposal,
        body: "propose supersede: "@ + f.0 + " (\""@ + f.1 + "\") -> "@ + job.written_handle
            + " (\""@ + job.object_text + "\") for ("@ + slot_s + ", "@ + slot_p + ")"@,
        grounded_in: seq![f.0, job.written_handle],
        confidence: PROPOSAL_CONFIDENCE,
        rationale: "slot ("@ + slot_s + ","@ + slot_p + ") held \""@ + f.1 + "\" at "@ + f.0
            + "; new write \""@ + job.object_text + "\" at "@ + job.written_handle
            + " has no supersedes link"@,
        alternatives: seq!["skeleton-only"@, "archive old"@],
    }
}

/// The skeleton of a job's write.
pub open spec fn summary(job: CurationJobV, skeleton: Seq<char>) -> DecisionV {
    DecisionV {
        operation: CuratorOperation::Skeleton,
        body: skeleton,
        grounded_in: seq![job.written_handle],
        confidence: if skeleton.len() == 0 {
            EMPTY_CONFIDENCE
        } else {
            SKELETON_CONFIDENCE
        },
        rationale: "extractive skeleton of "@ + job.written_handle + " ("@ + dec_text(
            encode_utf8(job.object_text).len(),
        ) + " chars source)"@,
        alternatives: seq!["archive_tag"@, "no-op"@],
    }
}

/// The output that a decision gives.
pub open spec fn output_of(job: CurationJobV, d: DecisionV, backend: Seq<char>) -> CuratorOutputV {
    let s = seeded(job.seed ^ job.logical_at ^ 0x11B);
    CuratorOutputV {
        public: CuratorPublicV {
            output_handle: "librarian/output/"@ + minted(job.logical_at, s),
            operation: d.operation,
            target_handle: job.written_handle,
            grounded_in: d.grounded_in,
            confidence_band: ConfidenceBand::band_of(d.confidence),
            schema_id: "curator.librarian.output.v1"@,
            spec_anchor: "LibrarianCell.md\u{00a7}3"@,
            logical_at: job.logical_at,
            body: d.body,
        },
        private: CuratorPrivateV {
            rationale: d.rationale,
            considered_alts: d.alternatives,
            confidence_precise: d.confidence,
            reasoning_trace: "job="@ + job.written_handle + " op="@ + d.operation.name()
                + " backend="@ + backend,
            private_seed: draw(next_state(next_state(next_state(s)))),
        },
    }
}

/// The private facets in rows from `i` on, put over those read so far. A row
/// without a whole digest is passed over; one without a facet ends the reading.
pub open spec fn facets_from(a: Seq<CborV>, i: int, so_far: Map<Seq<char>, Seq<u8>>) -> (
    Map<Seq<char>, Seq<u8>>,
    Option<ErrV>,
)
    decreases a.len() - i,
{
    if i < 0 || i >= a.len() {
        (so_far, None)
    } else {
        match a[i].text_field("facet"@) {
            None => (so_far, Some((ErrCode::Internal, missing_text("facet"@)))),
            Some(k) => facets_from(
                a,
                i + 1,
                match a[i].bytes_field("sha256"@) {
                    Some(b) if b.len() == 32 => so_far.insert(k, b),
                    _ => so_far,
                },
            ),
        }
    }
}

/// The row of a private facet.
pub open spec fn facet_row() -> spec_fn(Seq<char>, Seq<u8>) -> CborV {
    |k: Seq<char>, h: Seq<u8>|
        map_value(seq![("facet"@, CborV::Text(k)), ("sha256"@, CborV::Bytes(h))])
}

/// The state of the librarian.
#[verifier::ext_equal]
pub struct LibrarianV {
    pub outputs: Map<Seq<char>, OutputEntryV>,
    /// Where the private facets lie: the digest of each.
    pub facets: Map<Seq<char>, Seq<u8>>,
}

/// How many of the listed outputs have a status.
pub open spec fn count_status(
    m: Map<Seq<char>, OutputEntryV>,
    o: Seq<Seq<char>>,
    s: OutputStatus,
) -> nat
    decreases o.len(),
{
    if o.len() == 0 {
        0
    } else {
        count_status(m, o.drop_last(), s) + if m[o.last()].status == s {
            1nat
        } else {
            0
        }
    }
}

/// The listed outputs from `i` on that are pending.
pub open spec fn pending_from(m: Map<Seq<char>, OutputEntryV>, o: Seq<Seq<char>>, n: nat) -> Seq<
    CuratorPublicV,
>
    decreases n,
{
    if n == 0 {
        Seq::empty()
    } else if m[o[n - 1]].status is Pending {
        pending_from(m, o, (n - 1) as nat).push(m[o[n - 1]].public)
    } else {
        pending_from(m, o, (n - 1) as nat)
    }
}

/// An output that may be served as the skeleton of a handle.
pub open spec fn serves(e: OutputEntryV, target: Seq<char>) -> bool {
    e.status is Active && e.public.operation is Skeleton && e.public.target_handle == target
}

/// The first of the listed outputs from `i` on that serves a handle.
pub open spec fn served_from(
    m: Map<Seq<char>, OutputEntryV>,
    o: Seq<Seq<char>>,
    target: Seq<char>,
    i: int,
) -> Option<CuratorPublicV>
    decreases o.len() - i,
{
    if i < 0 || i >= o.len() {
        None
    } else if serves(m[o[i]], target) {
        Some(m[o[i]].public)
    } else {
        served_from(m, o, target, i + 1)
    }
}

impl LibrarianV {
    pub open spec fn wf(self) -> bool {
        keyed::<OutputEntry>(self.outputs)
    }

    pub open spec fn empty() -> LibrarianV {
        LibrarianV { outputs: Map::empty(), facets: Map::empty() }
    }

    /// How many outputs have a status.
    pub open spec fn count(self, s: OutputStatus) -> nat {
        count_status(self.outputs, text_order(self.outputs.dom()), s)
    }

    /// The librarian with one more output, which is pending.
    pub open spec fn curated(self, output: CuratorOutputV) -> LibrarianV {
        LibrarianV {
            outputs: self.outputs.insert(
                output.public.output_handle,
                OutputEntryV { public: output.public, status: OutputStatus::Pending },
            ),
            ..self
        }
    }

    /// The librarian after an output's status was set.
    pub open spec fn with_status(self, h: Seq<char>, s: OutputStatus) -> (
        LibrarianV,
        Result<(), ErrV>,
    ) {
        if self.outputs.contains_key(h) {
            (
                LibrarianV {
                    outputs: self.outputs.insert(
                        h,
                        OutputEntryV { status: s, ..self.outputs[h] },
                    ),
                    ..self
                },
                Ok(()),
            )
        } else {
            (self, Err((ErrCode::NotFound, "librarian output "@ + h)))
        }
    }

    /// What a query answers.
    pub open spec fn answer(self, q: CborV, backend: Seq<char>) -> Result<CborV, ErrV> {
        let op = q.text_field("op"@);
        if op == Some("get"@) {
            match q.text_field("output_handle"@) {
                None => Err((ErrCode::Internal, missing_text("output_handle"@))),
                Some(h) => if self.outputs.contains_key(h) {
                    Ok(self.outputs[h].value())
                } else {
                    Err((ErrCode::NotFound, "librarian output "@ + h))
                },
            }
        } else if op == Some("status"@) || op is None {
            Ok(
                map_value(
                    seq![
                        ("pending"@, CborV::U64(self.count(OutputStatus::Pending) as u64)),
                        ("active"@, CborV::U64(self.count(OutputStatus::Active) as u64)),
                        ("quarantined"@, CborV::U64(self.count(OutputStatus::Quarantined) as u64)),
                        ("backend"@, CborV::Text(backend)),
                    ],
                ),
            )
        } else {
            Err((ErrCode::ContractViolation, "librarian: unknown op"@))
        }
    }

    /// What an update does, and what it answers.
    pub open spec fn update(self, u: CborV) -> (LibrarianV, Result<CborV, ErrV>) {
        match u.text_field("output_handle"@) {
            None => (self, Err((ErrCode::Internal, missing_text("output_handle"@)))),
            Some(h) => match u.text_field("status"@) {
                None => (self, Err((ErrCode::Internal, missing_text("status"@)))),
                Some(t) => match OutputStatus::named(t) {
                    None => (self, Err((ErrCode::ContractViolation, "librarian: bad status"@))),
                    Some(s) => {
                        let (next, r) = self.with_status(h, s);
                        (
                            next,
                            match r {
                                Err(e) => Err(e),
                                Ok(_) => Ok(
                                    map_value(
                                        seq![
                                            ("output_handle"@, CborV::Text(h)),
                                            ("status"@, CborV::Text(s.name())),
                                        ],
                                    ),
                                ),
                            },
                        )
                    },
                },
            },
        }
    }

    /// The state as one value.
    pub open spec fn image(self) -> CborV {
        map_value(
            seq![
                ("outputs"@, CborV::Array(record_rows::<OutputEntry>(self.outputs))),
                ("private_facets"@, CborV::Array(rows(self.facets, facet_row()))),
            ],
        )
    }

    /// What a snapshot says, and the error that ended its reading.
    pub open spec fn from_image(v: CborV) -> (LibrarianV, Option<ErrV>) {
        let (outputs, e) = records_in::<OutputEntry>(v, "outputs"@);
        if e is Some {
            (LibrarianV { outputs, facets: Map::empty() }, e)
        } else {
            let (facets, e) = match v.array_field("private_facets"@) {
                Some(a) => facets_from(a, 0, Map::empty()),
                None => (Map::empty(), None),
            };
            (LibrarianV { outputs, facets }, e)
        }
    }

    /// Taking up a snapshot gives the state back.
    pub proof fn lemma_restore_snapshot(self)
        requires
            self.wf(),
            self.outputs.dom().finite(),
            self.facets.dom().finite(),
            forall|k: Seq<char>| #[trigger]
                self.facets.contains_key(k) ==> self.facets[k].len() == 32,
        ensures
            LibrarianV::from_image(self.image()) == (self, None::<ErrV>),
    {
        let v = self.image();
        let m = v->Pairs_0;
        reveal_strlit("outputs");
        reveal_strlit("private_facets");
        assert("outputs"@.len() == 7);
        assert("private_facets"@.len() == 14);
        reveal_with_fuel(lookup_from, 3);
        assert(m[0].0 == CborV::Text("outputs"@));
        assert(m[1].0 == CborV::Text("private_facets"@));
        assert(v.field("outputs"@) == Some(CborV::Array(record_rows::<OutputEntry>(self.outputs))));
        assert(v.field("private_facets"@) == Some(CborV::Array(rows(self.facets, facet_row()))));
        lemma_records_back::<OutputEntry>(self.outputs);
        self.lemma_facets_back(0, Map::empty());
    }

    proof fn lemma_facets_back(self, i: int, so_far: Map<Seq<char>, Seq<u8>>)
        requires
            self.facets.dom().finite(),
            forall|k: Seq<char>| #[trigger]
                self.facets.contains_key(k) ==> self.facets[k].len() == 32,
            0 <= i <= text_order(self.facets.dom()).len(),
            forall|k: Seq<char>| #[trigger]
                so_far.contains_key(k) <==> text_order(self.facets.dom()).take(i).contains(k),
            forall|k: Seq<char>| #[trigger]
                so_far.contains_key(k) ==> so_far[k] == self.facets[k],
        ensures
            facets_from(rows(self.facets, facet_row()), i, so_far) == (self.facets, None::<ErrV>),
        decreases text_order(self.facets.dom()).len() - i,
    {
        let o = text_order(self.facets.dom());
        let all = rows(self.facets, facet_row());
        lemma_finite_listed(self.facets.dom());
        lemma_listed_finite(o, self.facets.dom());
        if i < o.len() {
            let k = o[i];
            assert(o.contains(k));
            assert(self.facets.dom().contains(k));
            let row = facet_row()(k, self.facets[k]);
            let m = row->Pairs_0;
            reveal_strlit("facet");
            reveal_strlit("sha256");
            assert("facet"@.len() == 5);
            assert("sha256"@.len() == 6);
            reveal_with_fuel(lookup_from, 3);
            assert(m[0].0 == CborV::Text("facet"@));
            assert(m[1].0 == CborV::Text("sha256"@));
            assert(row.field("facet"@) == Some(CborV::Text(k)));
            assert(row.field("sha256"@) == Some(CborV::Bytes(self.facets[k])));
            let next = so_far.insert(k, self.facets[k]);
            assert(o.take(i + 1) =~= o.take(i).push(k));
            assert forall|x: Seq<char>| #[trigger] next.contains_key(x) <==> o.take(i + 1).contains(x) by {
                lemma_push_contains(o.take(i), k, x);
            }
            self.lemma_facets_back(i + 1, next);
        } else {
            assert(o.take(i) =~= o);
            assert forall|x: Seq<char>| #[trigger] so_far.contains_key(x)
                <==> self.facets.contains_key(x) by {
                assert(self.facets.dom().contains(x) <==> o.contains(x));
            }
            assert(so_far =~= self.facets);
        }
    }
}

proof fn lemma_push_contains(a: Seq<Seq<char>>, k: Seq<char>, x: Seq<char>)
    ensures
        a.push(k).contains(x) == (a.contains(x) || x == k),
{
    if a.contains(x) {
        let j = choose|j: int| 0 <= j < a.len() && a[j] == x;
        assert(a.push(k)[j] == x);
    }
    assert(a.push(k)[a.len() as int] == k);
}

/// What is served as the skeleton of a handle is active, which nothing is before
/// its status was set.
pub proof fn lemma_pending_not_served(
    st: LibrarianV,
    output: CuratorOutputV,
    target: Seq<char>,
)
    ensures
        !serves(st.curated(output).outputs[output.public.output_handle], target),
        forall|o: Seq<Seq<char>>, i: int|
            0 <= i ==> match #[trigger] served_from(st.outputs, o, target, i) {
                Some(p) => exists|j: int|
                    i <= j < o.len() && serves(#[trigger] st.outputs[o[j]], target)
                        && st.outputs[o[j]].public == p,
                None => true,
            },
{
    assert forall|o: Seq<Seq<char>>, i: int| 0 <= i implies match #[trigger] served_from(
        st.outputs,
        o,
        target,
        i,
    ) {
        Some(p) => exists|j: int|
            i <= j < o.len() && serves(#[trigger] st.outputs[o[j]], target)
                && st.outputs[o[j]].public == p,
        None => true,
    } by {
        lemma_served(st.outputs, o, target, i);
    }
}

proof fn lemma_served(m: Map<Seq<char>, OutputEntryV>, o: Seq<Seq<char>>, target: Seq<char>, i: int)
    requires
        0 <= i,
    ensures
        match served_from(m, o, target, i) {
            Some(p) => exists|j: int|
                i <= j < o.len() && serves(#[trigger] m[o[j]], target) && m[o[j]].public == p,
            None => true,
        },
    decreases o.len() - i,
{
    if i < o.len() {
        if serves(m[o[i]], target) {
            assert(m[o[i]].public == served_from(m, o, target, i)->0);
        } else {
            lemma_served(m, o, target, i + 1);
        }
    }
}

/// How many outputs have a status is the number of those that do.
pub proof fn lemma_counts(st: LibrarianV, s: OutputStatus)
    requires
        st.outputs.dom().finite(),
    ensures
        st.count(s) == st.outputs.dom().filter(|h: Seq<char>| st.outputs[h].status == s).len(),
{
    let o = text_order(st.outputs.dom());
    lemma_finite_listed(st.outputs.dom());
    lemma_listed_finite(o, st.outputs.dom());
    lemma_counted(st.outputs, o, s);
    assert(o.to_set() =~= st.outputs.dom()) by {
        assert forall|h: Seq<char>| o.to_set().contains(h) <==> st.outputs.dom().contains(h) by {
            assert(st.outputs.dom().contains(h) <==> o.contains(h));
        }
    }
}

proof fn lemma_counted(m: Map<Seq<char>, OutputEntryV>, o: Seq<Seq<char>>, s: OutputStatus)
    requires
        o.no_duplicates(),
    ensures
        o.to_set().filter(|h: Seq<char>| m[h].status == s).finite(),
        count_status(m, o, s) == o.to_set().filter(|h: Seq<char>| m[h].status == s).len(),
    decreases o.len(),
{
    let f = |h: Seq<char>| m[h].status == s;
    if o.len() == 0 {
        assert(o.to_set().filter(f) =~= Set::empty());
    } else {
        let d = o.drop_last();
        let x = o.last();
        lemma_counted(m, d, s);
        assert(!d.contains(x)) by {
            if d.contains(x) {
                assert(o[d.index_of(x)] == o[o.len() - 1]);
            }
        }
        let (a, b) = (d.to_set().filter(f), o.to_set().filter(f));
        assert(!a.contains(x));
        assert forall|h: Seq<char>| b.contains(h) <==> a.contains(h) || (h == x && f(x)) by {
            assert(d.push(x) =~= o);
            lemma_push_contains(d, x, h);
        }
        if f(x) {
            assert(b =~= a.insert(x));
        } else {
            assert(b =~= a);
        }
    }
}

/// The pending outputs are exactly those that are neither active nor quarantined yet.
pub proof fn lemma_pending(st: LibrarianV, p: CuratorPublicV)
    requires
        st.wf(),
        st.outputs.dom().finite(),
    ensures
        ({
            let o = text_order(st.outputs.dom());
            pending_from(st.outputs, o, o.len()).contains(p) <==> st.outputs.contains_key(
                p.output_handle,
            ) && st.outputs[p.output_handle].public == p && st.outputs[p.output_handle].status
                is Pending
        }),
{
    let o = text_order(st.outputs.dom());
    lemma_finite_listed(st.outputs.dom());
    lemma_pending_among(st.outputs, o, o.len(), p);
    if st.outputs.contains_key(p.output_handle) {
        assert(st.outputs.dom().contains(p.output_handle));
        let i = o.index_of(p.output_handle);
        assert(o[i] == p.output_handle);
    }
    if pending_from(st.outputs, o, o.len()).contains(p) {
        let i = choose|i: int|
            0 <= i < o.len() && st.outputs[#[trigger] o[i]].status is Pending
                && st.outputs[o[i]].public == p;
        assert(o.contains(o[i]));
        assert(st.outputs.dom().contains(o[i]));
        assert(st.outputs.contains_key(o[i]));
    }
}

proof fn lemma_pending_among(
    m: Map<Seq<char>, OutputEntryV>,
    o: Seq<Seq<char>>,
    n: nat,
    p: CuratorPublicV,
)
    requires
        n <= o.len(),
    ensures
        pending_from(m, o, n).contains(p) <==> exists|i: int|
            0 <= i < n && m[#[trigger] o[i]].status is Pending && m[o[i]].public == p,
    decreases n,
{
    if n > 0 {
        let before = pending_from(m, o, (n - 1) as nat);
        let all = pending_from(m, o, n);
        lemma_pending_among(m, o, (n - 1) as nat, p);
        if m[o[n - 1]].status is Pending {
            assert(all[before.len() as int] == m[o[n - 1]].public);
            if before.contains(p) {
                assert(all[before.index_of(p)] == p);
            }
            if all.contains(p) && p != m[o[n - 1]].public {
                let i = all.index_of(p);
                assert(before[i] == p);
            }
        }
        if exists|i: int|
            0 <= i < n - 1 && m[#[trigger] o[i]].status is Pending && m[o[i]].public == p {
            let i = choose|i: int|
                0 <= i < n - 1 && m[#[trigger] o[i]].status is Pending && m[o[i]].public == p;
            assert(m[o[i]].status is Pending);
        }
    }
}

/// The librarian.
#[derive(Debug)]
pub struct LibrarianCell<B: CuratorBackend> {
    id: CellId,
    backend: B,
    outputs: TextMap<OutputEntry>,
    private_facets: TextMap<[u8; 32]>,
}

impl<B: CuratorBackend> View for LibrarianCell<B> {
    type V = LibrarianV;

    closed spec fn view(&self) -> LibrarianV {
        LibrarianV { outputs: self.outputs@, facets: self.private_facets@ }
    }
}

/// Whether a flag holds up, seen from the substrate: one for a hallucination
/// needs a handle that is absent, one for drift two that are there.
pub open spec fn flag_holds<V: SubstrateView>(view: &V, flag: CuratorPublicV) -> bool {
    match flag.operation {
        CuratorOperation::FlagHallucination => count_known(
            view,
            flag.grounded_in,
        ) < flag.grounded_in.len(),
        CuratorOperation::FlagDrift => count_known(view, flag.grounded_in) >= 2,
        _ => true,
    }
}

/// How many of the handles are known.
pub open spec fn count_known<V: SubstrateView>(view: &V, hs: Seq<Seq<char>>) -> nat
    decreases hs.len(),
{
    if hs.len() == 0 {
        0
    } else {
        count_known(view, hs.drop_last()) + if view.known(hs.last()) {
            1nat
        } else {
            0
        }
    }
}

/// The number of known handles tells whether one is unknown, whether one is known,
/// and whether two are.
pub proof fn lemma_count_known<V: SubstrateView>(view: &V, hs: Seq<Seq<char>>)
    ensures
        count_known(view, hs) <= hs.len(),
        count_known(view, hs) < hs.len() <==> exists|i: int|
            0 <= i < hs.len() && !view.known(#[trigger] hs[i]),
        count_known(view, hs) >= 1 <==> exists|i: int|
            0 <= i < hs.len() && view.known(#[trigger] hs[i]),
        count_known(view, hs) >= 2 <==> exists|i: int, j: int|
            0 <= i < j < hs.len() && view.known(#[trigger] hs[i]) && view.known(#[trigger] hs[j]),
    decreases hs.len(),
{
    if hs.len() > 0 {
        let t = hs.drop_last();
        let n = hs.len() - 1;
        lemma_count_known(view, t);
        assert(forall|i: int| 0 <= i < n ==> t[i] == #[trigger] hs[i]);
        assert(hs[n] == hs.last());
        if count_known(view, t) < t.len() {
            let i = choose|i: int| 0 <= i < t.len() && !view.known(#[trigger] t[i]);
            assert(!view.known(hs[i]));
        }
        if count_known(view, t) >= 1 {
            let i = choose|i: int| 0 <= i < t.len() && view.known(#[trigger] t[i]);
            assert(view.known(hs[i]));
            if view.known(hs[n]) {
                assert(view.known(hs[i]) && view.known(hs[n]));
            }
        }
        if count_known(view, t) >= 2 {
            let (i, j) = choose|i: int, j: int|
                0 <= i < j < t.len() && view.known(#[trigger] t[i]) && view.known(#[trigger] t[j]);
            assert(view.known(hs[i]) && view.known(hs[j]));
        }
        if exists|i: int| 0 <= i < hs.len() && !view.known(#[trigger] hs[i]) {
            let i = choose|i: int| 0 <= i < hs.len() && !view.known(#[trigger] hs[i]);
            if i < n {
                assert(!view.known(t[i]));
            }
        }
        if exists|i: int| 0 <= i < hs.len() && view.known(#[trigger] hs[i]) {
            let i = choose|i: int| 0 <= i < hs.len() && view.known(#[trigger] hs[i]);
            if i < n {
                assert(view.known(t[i]));
            }
        }
        if exists|i: int, j: int|
            0 <= i < j < hs.len() && view.known(#[trigger] hs[i]) && view.known(#[trigger] hs[j]) {
            let (i, j) = choose|i: int, j: int|
                0 <= i < j < hs.len() && view.known(#[trigger] hs[i]) && view.known(
                    #[trigger] hs[j],
                );
            assert(view.known(t[i]));
            if j < n {
                assert(view.known(t[j]));
            }
        }
    }
}

/// The librarian agrees with a flag for a hallucination exactly where a disputed
/// handle does not exist, and with one for drift exactly where two of the disputed
/// handles do.
pub proof fn lemma_flag_holds<V: SubstrateView>(view: &V, flag: CuratorPublicV)
    ensures
        flag.operation is FlagHallucination ==> (flag_holds(view, flag) <==> exists|i: int|
            0 <= i < flag.grounded_in.len() && !view.known(#[trigger] flag.grounded_in[i])),
        flag.operation is FlagDrift ==> (flag_holds(view, flag) <==> exists|i: int, j: int|
            0 <= i < j < flag.grounded_in.len() && view.known(#[trigger] flag.grounded_in[i])
                && view.known(#[trigger] flag.grounded_in[j])),
        !(flag.operation is FlagHallucination) && !(flag.operation is FlagDrift) ==> flag_holds(
            view,
            flag,
        ),
{
    lemma_count_known(view, flag.grounded_in);
}

proof fn lemma_other_fact(facts: Seq<(Seq<char>, Seq<char>)>, written: Seq<char>, i: int)
    requires
        0 <= i,
    ensures
        match other_fact(facts, written, i) {
            Some(f) => f.0 != written && exists|j: int|
                i <= j < facts.len() && #[trigger] facts[j] == f && forall|k: int|
                    i <= k < j ==> (#[trigger] facts[k]).0 == written,
            None => forall|j: int| i <= j < facts.len() ==> (#[trigger] facts[j]).0 == written,
        },
    decreases facts.len() - i,
{
    if i < facts.len() && facts[i].0 == written {
        lemma_other_fact(facts, written, i + 1);
        if let Some(f) = other_fact(facts, written, i + 1) {
            let j = choose|j: int|
                i + 1 <= j < facts.len() && #[trigger] facts[j] == f && forall|k: int|
                    i + 1 <= k < j ==> (#[trigger] facts[k]).0 == written;
            assert(facts[j] == f);
        }
    } else if i < facts.len() {
        assert(facts[i] == other_fact(facts, written, i)->0);
    }
}

/// A write to a slot in which other facts stand, all of which say something else,
/// is answered by a proposal that the first of them be superseded, grounded in it
/// and in the write. One to a slot in which no other fact stands, or in which all
/// of them say the same, and one without a slot, is answered by a skeleton of what
/// was written, grounded in the write alone.
pub proof fn lemma_decision<V: SubstrateView>(
    view: &V,
    job: CurationJobV,
    skeleton: Seq<char>,
    backend: Seq<char>,
)
    ensures
        ({
            let d = match replaced(view, job) {
                Some(f) => proposal(job, f),
                None => summary(job, skeleton),
            };
            let o = output_of(job, d, backend).public;
            let slot = job.subject is Some && job.predicate is Some;
            let facts = view.facts(job.subject->0, job.predicate->0);
            let others = exists|i: int|
                0 <= i < facts.len() && (#[trigger] facts[i]).0 != job.written_handle;
            let differ = forall|i: int|
                0 <= i < facts.len() && (#[trigger] facts[i]).0 != job.written_handle ==> facts[i].1
                    != job.object_text;
            let agree = forall|i: int|
                0 <= i < facts.len() && (#[trigger] facts[i]).0 != job.written_handle ==> facts[i].1
                    == job.object_text;
            &&& o.target_handle == job.written_handle
            &&& o.logical_at == job.logical_at
            &&& o.operation is SupersedeProposal || o.operation is Skeleton
            &&& slot && others && differ ==> o.operation is SupersedeProposal
            &&& !slot || !others || agree ==> o.operation is Skeleton
            &&& o.operation is Skeleton ==> o.body == skeleton && o.grounded_in == seq![
                job.written_handle,
            ]
            &&& o.operation is SupersedeProposal ==> slot && exists|i: int|
                0 <= i < facts.len() && (#[trigger] facts[i]).0 != job.written_handle && facts[i].1
                    != job.object_text && o.grounded_in == seq![facts[i].0, job.written_handle]
                    && forall|k: int| 0 <= k < i ==> (#[trigger] facts[k]).0 == job.written_handle
        }),
{
    if job.subject is Some && job.predicate is Some {
        let facts = view.facts(job.subject->0, job.predicate->0);
        lemma_other_fact(facts, job.written_handle, 0);
        if let Some(f) = other_fact(facts, job.written_handle, 0) {
            let j = choose|j: int|
                0 <= j < facts.len() && #[trigger] facts[j] == f && forall|k: int|
                    0 <= k < j ==> (#[trigger] facts[k]).0 == job.written_handle;
            assert(facts[j].0 != job.written_handle);
        }
    }
}

/// Curating keeps the output under its handle, pending, and touches no other; and
/// setting a status changes that status alone, of an output that is there.
pub proof fn lemma_kept(
    st: LibrarianV,
    output: CuratorOutputV,
    h: Seq<char>,
    status: OutputStatus,
    other: Seq<char>,
)
    ensures
        ({
            let now = st.curated(output);
            let k = output.public.output_handle;
            &&& now.outputs.contains_key(k)
            &&& now.outputs[k].public == output.public
            &&& now.outputs[k].status is Pending
            &&& other != k ==> (now.outputs.contains_key(other) <==> st.outputs.contains_key(other))
                && (st.outputs.contains_key(other) ==> now.outputs[other] == st.outputs[other])
            &&& now.facets == st.facets
        }),
        ({
            let (now, r) = st.with_status(h, status);
            &&& r is Ok <==> st.outputs.contains_key(h)
            &&& r is Err ==> now == st && r->Err_0.0 is NotFound
            &&& r is Ok ==> now.outputs.dom() == st.outputs.dom() && now.outputs[h].status == status
                && now.outputs[h].public == st.outputs[h].public && now.facets == st.facets && (
            other != h && st.outputs.contains_key(other) ==> now.outputs[other]
                == st.outputs[other])
        }),
{
    let (now, r) = st.with_status(h, status);
    if r is Ok {
        assert(now.outputs.dom() =~= st.outputs.dom());
    }
}

/// How many of the handles are known.
pub fn known_among<V: SubstrateView>(view: &V, hs: &Vec<String>) -> (r: usize)
    ensures
        r == count_known(view, text_views(hs@)),
        r <= hs@.len(),
{
    let ghost all = text_views(hs@);
    let mut n: usize = 0;
    let mut i: usize = 0;
    assert(all.take(0) =~= Seq::empty());
    while i < hs.len()
        invariant
            i <= hs@.len(),
            n <= i,
            all == text_views(hs@),
            n == count_known(view, all.take(i as int)),
        decreases hs.len() - i,
    {
        assert(all.take(i + 1).drop_last() =~= all.take(i as int));
        if view.handle_exists(hs[i].as_str()) {
            n += 1;
        }
        i += 1;
    }
    assert(all.take(i as int) =~= all);
    n
}

impl<B: CuratorBackend> LibrarianCell<B> {
    /// The id of the cell.
    pub closed spec fn ident(&self) -> CellId {
        self.id
    }

    /// The backend.
    pub closed spec fn worker(&self) -> B {
        self.backend
    }

    /// The backend's name.
    pub open spec fn backend_name(&self) -> Seq<char> {
        self.worker().name()
    }

    /// What the backend makes of a text.
    pub open spec fn summary_of(&self, text: Seq<char>) -> Seq<char> {
        self.worker().skeleton_of(text, SKELETON_MAX_TOKENS as nat)
    }

    pub fn new(id: CellId, backend: B) -> (r: Self)
        ensures
            r.ident() == id,
            r@ == LibrarianV::empty(),
            r.worker() == backend,
    {
        LibrarianCell { id, backend, outputs: TextMap::new(), private_facets: TextMap::new() }
    }

    pub fn backend_id(&self) -> (r: String)
        ensures
            r@ == self.backend_name(),
    {
        self.backend.backend_id()
    }

    /// Curates a write: the output, which is pending from now on.
    pub fn curate<V: SubstrateView>(&mut self, view: &V, job: &CurationJob) -> (r: CuratorOutput)
        ensures
            final(self).ident() == old(self).ident(),
            final(self).worker() == old(self).worker(),
            old(self)@.wf() ==> final(self)@.wf(),
            ({
                let j = job.deep_view();
                let d = match replaced(view, j) {
                    Some(f) => proposal(j, f),
                    None => summary(j, old(self).summary_of(j.object_text)),
                };
                r.deep_view() == output_of(j, d, old(self).backend_name())
            }),
            final(self)@ == old(self)@.curated(r.deep_view()),
    {
        let d = self.decide(view, job);
        let backend = self.backend.backend_id();
        let output = make_output(job, d, backend.as_str());
        let ghost was = self@;
        let key = output.public.output_handle.clone();
        self.outputs.insert(
            key,
            OutputEntry { public: output.public.clone(), status: OutputStatus::Pending },
        );
        assert(self@ =~= was.curated(output.deep_view()));
        output
    }

    fn decide<V: SubstrateView>(&self, view: &V, job: &CurationJob) -> (r: Decision)
        ensures
            ({
                let j = job.deep_view();
                r.deep_view() == match replaced(view, j) {
                    Some(f) => proposal(j, f),
                    None => summary(j, self.summary_of(j.object_text)),
                }
            }),
    {
        if let (Some(s), Some(p), Some(f)) = (
            &job.subject,
            &job.predicate,
            find_replaced(view, job),
        ) {
            return propose(job, s.as_str(), p.as_str(), f.0.as_str(), f.1.as_str());
        }
        let body = self.backend.skeleton(job.object_text.as_str(), SKELETON_MAX_TOKENS);
        summarise_job(job, body)
    }

    /// Records where a private facet lies.
    pub fn register_private_facet(&mut self, output_handle: &str, facet: &str, sha: [u8; 32])
        ensures
            final(self).ident() == old(self).ident(),
            final(self).worker() == old(self).worker(),
            final(self)@ == (LibrarianV {
                facets: old(self)@.facets.insert(facet_of(output_handle@, facet@), sha@),
                ..old(self)@
            }),
    {
        assert(sha.deep_view() =~= sha@);
        self.private_facets.insert(facet_handle(output_handle, facet), sha);
    }

    pub fn private_facet_sha(&self, facet_handle: &str) -> (r: Option<&[u8; 32]>)
        ensures
            match r {
                Some(h) => self@.facets.contains_key(facet_handle@) && h@
                    == self@.facets[facet_handle@],
                None => !self@.facets.contains_key(facet_handle@),
            },
    {
        match self.private_facets.get(facet_handle) {
            Some(h) => {
                assert(h.deep_view() =~= h@);
                Some(h)
            },
            None => None,
        }
    }

    /// Sets the status of an output.
    pub fn set_status(&mut self, output_handle: &str, status: OutputStatus) -> (r: UcResult<()>)
        ensures
            final(self).ident() == old(self).ident(),
            final(self).worker() == old(self).worker(),
            final(self)@ == old(self)@.with_status(output_handle@, status).0,
            agrees(r, old(self)@.with_status(output_handle@, status).1),
            old(self)@.wf() ==> final(self)@.wf(),
    {
        let ghost was = self@;
        match self.outputs.remove(output_handle) {
            Some(e) => {
                self.outputs.insert(
                    output_handle.to_string(),
                    OutputEntry { public: e.public, status },
                );
                assert(self@.outputs =~= was.with_status(output_handle@, status).0.outputs);
                Ok(())
            },
            None => {
                assert(self@ =~= was);
                Err(
                    UcError::not_found(
                        crate::text::cat2("librarian output ", output_handle).as_str(),
                    ),
                )
            },
        }
    }

    pub fn status(&self, output_handle: &str) -> (r: Option<OutputStatus>)
        ensures
            r == if self@.outputs.contains_key(output_handle@) {
                Some(self@.outputs[output_handle@].status)
            } else {
                None
            },
    {
        match self.outputs.get(output_handle) {
            Some(e) => Some(e.status),
            None => None,
        }
    }

    pub fn get_public(&self, output_handle: &str) -> (r: Option<&CuratorPublic>)
        ensures
            match r {
                Some(p) => self@.outputs.contains_key(output_handle@) && p.deep_view()
                    == self@.outputs[output_handle@].public,
                None => !self@.outputs.contains_key(output_handle@),
            },
    {
        match self.outputs.get(output_handle) {
            Some(e) => Some(&e.public),
            None => None,
        }
    }

    /// The active skeleton of a handle; only audited skeletons are served.
    pub fn active_skeleton_for(&self, target: &str) -> (r: Option<&CuratorPublic>)
        ensures
            lists(text_order(self@.outputs.dom()), self@.outputs.dom()),
            match r {
                Some(p) => served_from(
                    self@.outputs,
                    text_order(self@.outputs.dom()),
                    target@,
                    0,
                ) == Some(p.deep_view()) && exists|h: Seq<char>| #[trigger]
                    self@.outputs.contains_key(h) && serves(self@.outputs[h], target@)
                        && self@.outputs[h].public == p.deep_view(),
                None => served_from(
                    self@.outputs,
                    text_order(self@.outputs.dom()),
                    target@,
                    0,
                ) is None && forall|h: Seq<char>| #[trigger]
                    self@.outputs.contains_key(h) ==> !serves(self@.outputs[h], target@),
            },
    {
        let n: usize = self.outputs.len();
        let ghost o = self.outputs.order();
        let mut i: usize = 0;
        while i < n
            invariant
                i <= n == o.len(),
                o == self.outputs.order(),
                o == text_order(self@.outputs.dom()),
                lists(o, self@.outputs.dom()),
                forall|j: int| 0 <= j < i ==> !serves(self@.outputs[#[trigger] o[j]], target@),
                served_from(self@.outputs, o, target@, 0) == served_from(
                    self@.outputs,
                    o,
                    target@,
                    i as int,
                ),
            decreases n - i,
        {
            let e = self.outputs.value_at(i);
            assert(self@.outputs.dom().contains(o[i as int])) by {
                assert(o.contains(o[i as int]));
            }
            assert(self@.outputs.contains_key(o[i as int]));
            if e.status == OutputStatus::Active && e.public.operation == CuratorOperation::Skeleton
                && str_eq(e.public.target_handle.as_str(), target) {
                return Some(&e.public);
            }
            i += 1;
        }
        assert forall|h: Seq<char>| #[trigger] self@.outputs.contains_key(h) implies !serves(
            self@.outputs[h],
            target@,
        ) by {
            assert(self@.outputs.dom().contains(h));
            assert(o.contains(h));
            assert(o[o.index_of(h)] == h);
        }
        None
    }

    /// Whether the librarian agrees with a flag of the warden's; where it does
    /// not, the dispute goes to the adjudicator.
    pub fn sanity_check_warden<V: SubstrateView>(&self, view: &V, flag: &CuratorPublic) -> (r: bool)
        ensures
            r == flag_holds(view, flag.deep_view()),
    {
        match flag.operation {
            CuratorOperation::FlagHallucination => known_among(view, &flag.grounded_in)
                < flag.grounded_in.len(),
            CuratorOperation::FlagDrift => known_among(view, &flag.grounded_in) >= 2,
            _ => true,
        }
    }

    /// The pending outputs, in order of their handles.
    pub fn pending(&self) -> (r: Vec<&CuratorPublic>)
        ensures
            lists(text_order(self@.outputs.dom()), self@.outputs.dom()),
            r@.len() == pending_from(
                self@.outputs,
                text_order(self@.outputs.dom()),
                text_order(self@.outputs.dom()).len(),
            ).len(),
            forall|i: int|
                0 <= i < r@.len() ==> (#[trigger] r@[i]).deep_view() == pending_from(
                    self@.outputs,
                    text_order(self@.outputs.dom()),
                    text_order(self@.outputs.dom()).len(),
                )[i],
    {
        let n: usize = self.outputs.len();
        let ghost o = self.outputs.order();
        let mut out: Vec<&CuratorPublic> = Vec::new();
        let mut i: usize = 0;
        while i < n
            invariant
                i <= n == o.len(),
                o == self.outputs.order(),
                o == text_order(self@.outputs.dom()),
                out@.len() == pending_from(self@.outputs, o, i as nat).len(),
                forall|k: int|
                    0 <= k < out@.len() ==> (#[trigger] out@[k]).deep_view() == pending_from(
                        self@.outputs,
                        o,
                        i as nat,
                    )[k],
            decreases n - i,
        {
            let e = self.outputs.value_at(i);
            if e.status == OutputStatus::Pending {
                out.push(&e.public);
            }
            i += 1;
        }
        out
    }

    /// How many outputs are pending, active and quarantined.
    pub fn counts(&self) -> (r: (usize, usize, usize))
        ensures
            lists(text_order(self@.outputs.dom()), self@.outputs.dom()),
            r.0 == self@.count(OutputStatus::Pending),
            r.1 == self@.count(OutputStatus::Active),
            r.2 == self@.count(OutputStatus::Quarantined),
    {
        let n: usize = self.outputs.len();
        let ghost o = self.outputs.order();
        let mut p: usize = 0;
        let mut a: usize = 0;
        let mut q: usize = 0;
        let mut i: usize = 0;
        assert(o.take(0) =~= Seq::empty());
        while i < n
            invariant
                i <= n == o.len(),
                o == self.outputs.order(),
                o == text_order(self@.outputs.dom()),
                p <= i && a <= i && q <= i,
                p == count_status(self@.outputs, o.take(i as int), OutputStatus::Pending),
                a == count_status(self@.outputs, o.take(i as int), OutputStatus::Active),
                q == count_status(self@.outputs, o.take(i as int), OutputStatus::Quarantined),
            decreases n - i,
        {
            assert(o.take(i + 1).drop_last() =~= o.take(i as int));
            match self.outputs.value_at(i).status {
                OutputStatus::Pending => {
                    p += 1;
                },
                OutputStatus::Active => {
                    a += 1;
                },
                OutputStatus::Quarantined => {
                    q += 1;
                },
            }
            i += 1;
        }
        assert(o.take(n as int) =~= o);
        (p, a, q)
    }
}

/// What the librarian decides of a job.
#[derive(Debug)]
pub struct Decision {
    pub operation: CuratorOperation,
    pub body: String,
    pub grounded_in: Vec<String>,
    pub confidence: u64,
    pub rationale: String,
    pub alternatives: Vec<String>,
}

impl DeepView for Decision {
    type V = DecisionV;

    open spec fn deep_view(&self) -> DecisionV {
        DecisionV {
            operation: self.operation,
            body: self.body@,
            grounded_in: text_views(self.grounded_in@),
            confidence: self.confidence,
            rationale: self.rationale@,
            alternatives: text_views(self.alternatives@),
        }
    }
}

/// The fact that a job's write would replace.
fn find_replaced<V: SubstrateView>(view: &V, job: &CurationJob) -> (r: Option<(String, String)>)
    ensures
        r.deep_view() == replaced(view, job.deep_view()),
{
    if let (Some(s), Some(p)) = (&job.subject, &job.predicate) {
        let facts = view.active_sp(s.as_str(), p.as_str());
        let ghost all = facts.deep_view();
        let mut i: usize = 0;
        while i < facts.len() && str_eq(facts[i].0.as_str(), job.written_handle.as_str())
            invariant
                i <= facts@.len(),
                all == facts.deep_view(),
                other_fact(all, job.written_handle@, 0) == other_fact(
                    all,
                    job.written_handle@,
                    i as int,
                ),
            decreases facts.len() - i,
        {
            assert(all[i as int].0 == facts@[i as int].0@);
            i += 1;
        }
        if i < facts.len() {
            assert(all[i as int] == (facts@[i as int].0@, facts@[i as int].1@));
            if !str_eq(facts[i].1.as_str(), job.object_text.as_str()) {
                return Some((facts[i].0.clone(), facts[i].1.clone()));
            }
        }
    }
    None
}

/// The proposal to let a job's write supersede a fact.
pub fn propose(job: &CurationJob, s: &str, p: &str, handle: &str, object: &str) -> (r: Decision)
    requires
        job.subject.deep_view() == Some(s@),
        job.predicate.deep_view() == Some(p@),
    ensures
        r.deep_view() == proposal(job.deep_view(), (handle@, object@)),
{
    let mut body = String::new();
    body.append("propose supersede: ");
    body.append(handle);
    body.append(" (\"");
    body.append(object);
    body.append("\") -> ");
    body.append(job.written_handle.as_str());
    body.append(" (\"");
    body.append(job.object_text.as_str());
    body.append("\") for (");
    body.append(s);
    body.append(", ");
    body.append(p);
    body.append(")");
    let mut rationale = String::new();
    rationale.append("slot (");
    rationale.append(s);
    rationale.append(",");
    rationale.append(p);
    rationale.append(") held \"");
    rationale.append(object);
    rationale.append("\" at ");
    rationale.append(handle);
    rationale.append("; new write \"");
    rationale.append(job.object_text.as_str());
    rationale.append("\" at ");
    rationale.append(job.written_handle.as_str());
    rationale.append(" has no supersedes link");
    let d = Decision {
        operation: CuratorOperation::SupersedeProposal,
        body,
        grounded_in: vec![handle.to_string(), job.written_handle.clone()],
        confidence: PROPOSAL_CONFIDENCE,
        rationale,
        alternatives: vec!["skeleton-only".to_string(), "archive old".to_string()],
    };
    assert(d.deep_view() =~= proposal(job.deep_view(), (handle@, object@)));
    d
}

/// The skeleton of a job's write.
pub fn summarise_job(job: &CurationJob, body: String) -> (r: Decision)
    ensures
        r.deep_view() == summary(job.deep_view(), body@),
{
    let confidence: u64 = if crate::text::chars_of(body.as_str()).len() == 0 {
        EMPTY_CONFIDENCE
    } else {
        SKELETON_CONFIDENCE
    };
    let mut rationale = String::new();
    rationale.append("extractive skeleton of ");
    rationale.append(job.written_handle.as_str());
    rationale.append(" (");
    rationale.append(u64_text(job.object_text.as_str().as_bytes().len() as u64).as_str());
    rationale.append(" chars source)");
    let d = Decision {
        operation: CuratorOperation::Skeleton,
        body,
        grounded_in: vec![job.written_handle.clone()],
        confidence,
        rationale,
        alternatives: vec!["archive_tag".to_string(), "no-op".to_string()],
    };
    assert(d.deep_view() =~= summary(job.deep_view(), body@));
    d
}

/// The output that a decision gives.
pub fn make_output(job: &CurationJob, d: Decision, backend: &str) -> (r: CuratorOutput)
    ensures
        r.deep_view() == output_of(job.deep_view(), d.deep_view(), backend@),
{
    let (output_handle, mut rng) = mint(
        "librarian/output/",
        job.logical_at,
        job.seed ^ job.logical_at ^ 0x11B,
    );
    let mut reasoning_trace = String::new();
    reasoning_trace.append("job=");
    reasoning_trace.append(job.written_handle.as_str());
    reasoning_trace.append(" op=");
    reasoning_trace.append(d.operation.as_str());
    reasoning_trace.append(" backend=");
    reasoning_trace.append(backend);
    let public = CuratorPublic {
        output_handle,
        operation: d.operation,
        target_handle: job.written_handle.clone(),
        grounded_in: d.grounded_in,
        confidence_band: ConfidenceBand::from_precise(d.confidence),
        schema_id: "curator.librarian.output.v1".to_string(),
        spec_anchor: "LibrarianCell.md\u{00a7}3".to_string(),
        logical_at: job.logical_at,
        body: d.body,
    };
    let private = CuratorPrivate {
        rationale: d.rationale,
        considered_alts: d.alternatives,
        confidence_precise: d.confidence,
        reasoning_trace,
        private_seed: rng.next_u64(),
    };
    let out = CuratorOutput { public, private };
    assert(out.deep_view() =~= output_of(job.deep_view(), d.deep_view(), backend@));
    out
}

/// What the librarian's model is asked for a job: a summary of what was written,
/// and nothing where there is no model or a supersession is proposed.
pub open spec fn asked_for<V: SubstrateView>(w: Worker, view: &V, job: CurationJobV) -> Option<
    Seq<Seq<char>>,
> {
    match w.model {
        Some(m) => if replaced(view, job) is None {
            Some(m.asks_summary(job.object_text, SKELETON_MAX_TOKENS as nat))
        } else {
            None
        },
        None => None,
    }
}

impl LibrarianCell<Worker> {
    /// The arguments by which the external model has to be asked before a job is
    /// curated, if it has to be.
    pub fn asks<V: SubstrateView>(&self, view: &V, job: &CurationJob) -> (r: Option<Vec<String>>)
        ensures
            match r {
                Some(a) => asked_for(self.worker(), view, job.deep_view()) == Some(text_views(a@)),
                None => asked_for(self.worker(), view, job.deep_view()) is None,
            },
    {
        match &self.backend.model {
            Some(m) => {
                if find_replaced(view, job).is_none() {
                    Some(m.skeleton_args(job.object_text.as_str(), SKELETON_MAX_TOKENS))
                } else {
                    None
                }
            },
            None => None,
        }
    }

    /// Takes up an exchange with the external model.
    pub fn hear(&mut self, heard: Exchange)
        ensures
            final(self).ident() == old(self).ident(),
            final(self)@ == old(self)@,
            final(self).worker() == (Worker { heard: Some(heard), ..old(self).worker() }),
    {
        self.backend.heard = Some(heard);
    }
}

/// A model that answered what the librarian asks for a job has the last word on
/// the summary; one that did not leaves it to the deterministic backend.
pub proof fn lemma_answer_is_the_summary<V: SubstrateView>(
    w: Worker,
    view: &V,
    job: CurationJobV,
    heard: Exchange,
)
    requires
        asked_for(w, view, job) == Some(text_views(heard.asked@)),
    ensures
        (Worker { heard: Some(heard), ..w }).skeleton_of(
            job.object_text,
            SKELETON_MAX_TOKENS as nat,
        ) == match heard.answer {
            Some(s) => s@,
            None => DeterministicBackend.skeleton_of(job.object_text, SKELETON_MAX_TOKENS as nat),
        },
{
}

impl<B: CuratorBackend> CellBehavior for LibrarianCell<B> {
    open spec fn wf(&self) -> bool {
        self@.wf()
    }

    open spec fn accepts(&self, logical_at: u64, update: CborV) -> bool {
        true
    }

    open spec fn restorable(state: CborV) -> bool {
        true
    }

    fn cell_id(&self) -> (r: CellId)
        ensures
            r == self.ident(),
    {
        self.id
    }

    fn cell_type(&self) -> (r: CellType)
        ensures
            r == CellType::Librarian,
    {
        CellType::Librarian
    }

    fn schema_id(&self) -> (r: SchemaId)
        ensures
            r.0@ == "curator.librarian.v1"@,
    {
        SchemaId::new("curator.librarian.v1")
    }

    fn on_query(&self, _at: u64, query: &Cbor) -> (r: UcResult<Cbor>)
        ensures
            agrees(r, self@.answer(query@, self.backend_name())),
    {
        let op = query.opt_str("op");
        let (get, status) = match &op {
            Some(t) => (str_eq(t.as_str(), "get"), str_eq(t.as_str(), "status")),
            None => (false, true),
        };
        if get {
            let h: String = match query.req_str("output_handle") {
                Ok(x) => x,
                Err(e) => {
                    return Err(e);
                },
            };
            match self.outputs.get(h.as_str()) {
                Some(e) => Ok(e.to_cbor()),
                None => Err(
                    UcError::not_found(
                        crate::text::cat2("librarian output ", h.as_str()).as_str(),
                    ),
                ),
            }
        } else if status {
            let (p, a, q) = self.counts();
            Ok(
                Cbor::map4(
                    "pending",
                    Cbor::U64(p as u64),
                    "active",
                    Cbor::U64(a as u64),
                    "quarantined",
                    Cbor::U64(q as u64),
                    "backend",
                    Cbor::t(self.backend.backend_id().as_str()),
                ),
            )
        } else {
            Err(UcError::schema("librarian: unknown op"))
        }
    }

    fn on_update(&mut self, _at: u64, update: &Cbor) -> (r: UcResult<Cbor>)
        ensures
            final(self).ident() == old(self).ident(),
            final(self).worker() == old(self).worker(),
            final(self)@ == old(self)@.update(update@).0,
            agrees(r, old(self)@.update(update@).1),
    {
        let h: String = match update.req_str("output_handle") {
            Ok(x) => x,
            Err(e) => {
                return Err(e);
            },
        };
        let t: String = match update.req_str("status") {
            Ok(x) => x,
            Err(e) => {
                return Err(e);
            },
        };
        let status = match OutputStatus::parse(t.as_str()) {
            Some(s) => s,
            None => {
                return Err(UcError::schema("librarian: bad status"));
            },
        };
        match self.set_status(h.as_str(), status) {
            Ok(_) => Ok(
                Cbor::map2(
                    "output_handle",
                    Cbor::t(h.as_str()),
                    "status",
                    Cbor::t(status.as_str()),
                ),
            ),
            Err(e) => Err(e),
        }
    }

    fn snapshot_state(&self) -> (r: Cbor)
        ensures
            r@ == self@.image(),
            self@.outputs.dom().finite(),
            self@.facets.dom().finite(),
            forall|k: Seq<char>| #[trigger]
                self@.facets.contains_key(k) ==> self@.facets[k].len() == 32,
    {
        let mut items: Vec<Cbor> = Vec::new();
        let mut i: usize = 0;
        let n: usize = self.private_facets.len();
        let ghost want = rows(self.private_facets@, facet_row());
        assert(views(items@) =~= want.take(0));
        while i < n
            invariant
                i <= n == self.private_facets.order().len(),
                self.private_facets.order() == text_order(self.private_facets@.dom()),
                lists(self.private_facets.order(), self.private_facets@.dom()),
                forall|j: int|
                    0 <= j < i ==> self.private_facets@[#[trigger] self.private_facets.order()[j]].len()
                        == 32,
                want == rows(self.private_facets@, facet_row()),
                views(items@) == want.take(i as int),
            decreases n - i,
        {
            let ghost before = views(items@);
            let v = self.private_facets.value_at(i);
            assert(v.deep_view() =~= v@);
            let row = Cbor::map2(
                "facet",
                Cbor::t(self.private_facets.key_at(i).as_str()),
                "sha256",
                Cbor::bytes(bytes_of(v)),
            );
            items.push(row);
            assert(views(items@) =~= before.push(row@));
            i += 1;
            assert(want.take(i as int) =~= want.take(i - 1).push(want[i - 1]));
        }
        assert(want.take(n as int) =~= want);
        assert forall|k: Seq<char>| #[trigger] self@.facets.contains_key(k) implies self@.facets[k].len()
            == 32 by {
            let o = self.private_facets.order();
            assert(self.private_facets@.dom().contains(k));
            assert(o.contains(k));
            assert(o[o.index_of(k)] == k);
        }
        Cbor::map2(
            "outputs",
            Cbor::arr(to_rows(&self.outputs)),
            "private_facets",
            Cbor::arr(items),
        )
    }

    fn restore_state(&mut self, state: &Cbor) -> (r: UcResult<()>)
        ensures
            final(self).ident() == old(self).ident(),
            final(self).worker() == old(self).worker(),
            final(self)@ == LibrarianV::from_image(state@).0,
            agrees(r, done(LibrarianV::from_image(state@).1)),
    {
        let (outputs, outcome) = rows_in::<OutputEntry>(state, "outputs");
        proof {
            crate::rows::lemma_records_keyed::<OutputEntry>(state@, "outputs"@);
        }
        self.outputs = outputs;
        self.private_facets = TextMap::new();
        if let Err(e) = outcome {
            assert(self@ =~= LibrarianV::from_image(state@).0);
            return Err(e);
        }
        if let Some(a) = state.opt_array("private_facets") {
            let ghost all = views(a@);
            let ghost whole = facets_from(all, 0, Map::empty());
            let mut facets: TextMap<[u8; 32]> = TextMap::new();
            let mut i: usize = 0;
            while i < a.len()
                invariant
                    i <= a@.len(),
                    all == views(a@),
                    whole == facets_from(all, i as int, facets@),
                    LibrarianV::from_image(state@) == (
                        LibrarianV { outputs: self@.outputs, facets: whole.0 },
                        whole.1,
                    ),
                    self.ident() == old(self).ident(),
                    self.worker() == old(self).worker(),
                    keyed::<OutputEntry>(self@.outputs),
                decreases a.len() - i,
            {
                let row = &a[i];
                assert(all[i as int] == row@);
                let k = match row.req_str("facet") {
                    Ok(x) => x,
                    Err(e) => {
                        self.private_facets = facets;
                        assert(self@ =~= LibrarianV::from_image(state@).0);
                        return Err(e);
                    },
                };
                if let Some(v) = row.get("sha256") {
                    if let Some(b) = v.as_bytes() {
                        if b.len() == 32 {
                            let h = first_32(b);
                            assert(b@.take(32) =~= b@);
                            assert(h.deep_view() =~= h@);
                            facets.insert(k, h);
                        }
                    }
                }
                i += 1;
            }
            self.private_facets = facets;
        }
        assert(self@ =~= LibrarianV::from_image(state@).0);
        Ok(())
    }
}

} // verus!
