//! Core vocabulary: identifiers, enums, errors, the logical clock.

use vstd::prelude::*;
use crate::ulid::Ulid;
use crate::text::str_eq;

verus! {

/// Universal substrate reference in canonical text form, e.g. `fact/<ulid>`,
/// `blob/<sha256hex>`, `librarian/output/<ulid>/rationale`.
#[derive(Clone, Debug, PartialEq, Eq, PartialOrd, Ord, Hash)]
pub struct Handle(pub String);

impl Handle {
    pub fn new(s: &str) -> (r: Self)
        ensures
            r.0@ == s@,
    {
        Handle(s.to_owned())
    }

    pub fn as_str(&self) -> (r: &str)
        ensures
            r@ == self.0@,
    {
        self.0.as_str()
    }
}

/// Numeric cell identifier: the `cell_id` field of log frames and the key of
/// the cell catalog.
#[derive(Clone, Copy, Debug, PartialEq, Eq, Structural, PartialOrd, Ord, Hash)]
pub struct CellId(pub u64);

impl CellId {
    pub fn as_u64(&self) -> (r: u64)
        ensures
            r == self.0,
    {
        self.0
    }
}

impl Default for CellId {
    fn default() -> (r: CellId)
        ensures
            r.0 == 0,
    {
        CellId(0)
    }
}

#[derive(Clone, Debug, PartialEq, Eq, PartialOrd, Ord, Hash)]
pub struct SchemaId(pub String);

impl SchemaId {
    pub fn new(s: &str) -> (r: Self)
        ensures
            r.0@ == s@,
    {
        SchemaId(s.to_owned())
    }
}

#[derive(Clone, Debug, PartialEq, Eq, PartialOrd, Ord, Hash)]
pub struct NamespaceId(pub String);

impl NamespaceId {
    pub fn new(s: &str) -> (r: Self)
        ensures
            r.0@ == s@,
    {
        NamespaceId(s.to_owned())
    }

    pub fn as_str(&self) -> (r: &str)
        ensures
            r@ == self.0@,
    {
        self.0.as_str()
    }
}

#[derive(Clone, Debug, PartialEq, Eq, PartialOrd, Ord, Hash)]
pub struct GapId(pub String);

impl GapId {
    pub fn new(s: &str) -> (r: Self)
        ensures
            r.0@ == s@,
    {
        GapId(s.to_owned())
    }

    pub fn as_str(&self) -> (r: &str)
        ensures
            r@ == self.0@,
    {
        self.0.as_str()
    }
}

/// A reference to a section of a governing document.
#[derive(Clone, Debug, PartialEq, Eq, PartialOrd, Ord, Hash)]
pub struct AnchorRef {
    pub doc: String,
    pub section: String,
}

/// The key of an anchor: document, section sign, section.
pub open spec fn anchor_key(doc: Seq<char>, section: Seq<char>) -> Seq<char> {
    doc + seq!['\u{00a7}'] + section
}

impl AnchorRef {
    pub fn new(doc: &str, section: &str) -> (r: Self)
        ensures
            r.doc@ == doc@,
            r.section@ == section@,
    {
        AnchorRef { doc: doc.to_owned(), section: section.to_owned() }
    }

    pub fn key(&self) -> (r: String)
        ensures
            r@ == anchor_key(self.doc@, self.section@),
    {
        let mut out = self.doc.clone();
        out.push('\u{00a7}');
        out.append(self.section.as_str());
        proof {
            assert(self.doc@.push('\u{00a7}') =~= self.doc@ + seq!['\u{00a7}']);
        }
        out
    }
}

pub type AgentId = Ulid;

pub type TaskId = Ulid;

pub type RequestId = Ulid;

pub type QuarantineId = Ulid;

pub type DecisionId = Ulid;

/// How urgent a request is; `P0` is the most urgent.
#[derive(Clone, Copy, Debug, PartialEq, Eq, Structural, PartialOrd, Ord, Hash)]
pub enum Severity {
    P0,
    P1,
    P2,
}

impl Severity {
    /// The text that stands for a severity.
    pub open spec fn name(self) -> Seq<char> {
        match self {
            Severity::P0 => "P0"@,
            Severity::P1 => "P1"@,
            Severity::P2 => "P2"@,
        }
    }

    /// The severity with that name.
    pub open spec fn named(s: Seq<char>) -> Option<Severity> {
        if s == "P0"@ {
            Some(Severity::P0)
        } else if s == "P1"@ {
            Some(Severity::P1)
        } else if s == "P2"@ {
            Some(Severity::P2)
        } else {
            None
        }
    }

    pub fn as_str(self) -> (r: &'static str)
        ensures
            r@ == self.name(),
    {
        match self {
            Severity::P0 => "P0",
            Severity::P1 => "P1",
            Severity::P2 => "P2",
        }
    }

    /// The severity with that name.
    pub fn from_str(s: &str) -> (r: Option<Severity>)
        ensures
            r == Severity::named(s@),
    {
        if str_eq(s, "P0") {
            Some(Severity::P0)
        } else if str_eq(s, "P1") {
            Some(Severity::P1)
        } else if str_eq(s, "P2") {
            Some(Severity::P2)
        } else {
            None
        }
    }

    /// Every severity is found again by its name, and no two share one.
    pub proof fn lemma_named(a: Severity, b: Severity)
        ensures
            Severity::named(a.name()) == Some(a),
            a.name() == b.name() ==> a == b,
    {
        reveal_strlit("P0");
        reveal_strlit("P1");
        reveal_strlit("P2");
        assert("P0"@.len() == 2);
        assert("P1"@.len() == 2);
        assert("P2"@.len() == 2);
        assert("P0"@[1] != "P1"@[1]);
        assert("P0"@[1] != "P2"@[1]);
        assert("P1"@[1] != "P2"@[1]);
    }
}

/// What a request asks for; `Admin` belongs to the operator plane.
#[derive(Clone, Copy, Debug, PartialEq, Eq, Structural, Hash)]
pub enum Intent {
    Recall,
    Hydrate,
    Write,
    Subscribe,
    View,
    Supersede,
    Admin,
}

impl Intent {
    /// The text that stands for an intent.
    pub open spec fn name(self) -> Seq<char> {
        match self {
            Intent::Recall => "recall"@,
            Intent::Hydrate => "hydrate"@,
            Intent::Write => "write"@,
            Intent::Subscribe => "subscribe"@,
            Intent::View => "view"@,
            Intent::Supersede => "supersede"@,
            Intent::Admin => "admin"@,
        }
    }

    /// The intent with that name.
    pub open spec fn named(s: Seq<char>) -> Option<Intent> {
        if s == "recall"@ {
            Some(Intent::Recall)
        } else if s == "hydrate"@ {
            Some(Intent::Hydrate)
        } else if s == "write"@ {
            Some(Intent::Write)
        } else if s == "subscribe"@ {
            Some(Intent::Subscribe)
        } else if s == "view"@ {
            Some(Intent::View)
        } else if s == "supersede"@ {
            Some(Intent::Supersede)
        } else if s == "admin"@ {
            Some(Intent::Admin)
        } else {
            None
        }
    }

    pub fn as_str(self) -> (r: &'static str)
        ensures
            r@ == self.name(),
    {
        match self {
            Intent::Recall => "recall",
            Intent::Hydrate => "hydrate",
            Intent::Write => "write",
            Intent::Subscribe => "subscribe",
            Intent::View => "view",
            Intent::Supersede => "supersede",
            Intent::Admin => "admin",
        }
    }

    /// The intent with that name.
    pub fn from_str(s: &str) -> (r: Option<Intent>)
        ensures
            r == Intent::named(s@),
    {
        if str_eq(s, "recall") {
            Some(Intent::Recall)
        } else if str_eq(s, "hydrate") {
            Some(Intent::Hydrate)
        } else if str_eq(s, "write") {
            Some(Intent::Write)
        } else if str_eq(s, "subscribe") {
            Some(Intent::Subscribe)
        } else if str_eq(s, "view") {
            Some(Intent::View)
        } else if str_eq(s, "supersede") {
            Some(Intent::Supersede)
        } else if str_eq(s, "admin") {
            Some(Intent::Admin)
        } else {
            None
        }
    }

    /// Every intent is found again by its name, and no two share one.
    pub proof fn lemma_named(a: Intent, b: Intent)
        ensures
            Intent::named(a.name()) == Some(a),
            a.name() == b.name() ==> a == b,
    {
        reveal_strlit("recall");
        reveal_strlit("hydrate");
        reveal_strlit("write");
        reveal_strlit("subscribe");
        reveal_strlit("view");
        reveal_strlit("supersede");
        reveal_strlit("admin");
        assert("recall"@.len() == 6);
        assert("hydrate"@.len() == 7);
        assert("write"@.len() == 5);
        assert("subscribe"@.len() == 9);
        assert("view"@.len() == 4);
        assert("supersede"@.len() == 9);
        assert("admin"@.len() == 5);
        assert("write"@[0] != "admin"@[0]);
        assert("subscribe"@[2] != "supersede"@[2]);
    }

    /// Whether the intent changes stored state.
    pub fn is_state_changing(self) -> (r: bool)
        ensures
            r == (self is Write || self is Supersede),
    {
        matches!(self, Intent::Write | Intent::Supersede)
    }
}

/// Token-budget tiers, from the cheapest up.
#[derive(Clone, Copy, Debug, PartialEq, Eq, Structural, PartialOrd, Ord, Hash)]
pub enum Tier {
    L0,
    L1,
    L2,
    L3,
}

impl Tier {
    /// The text that stands for a tier.
    pub open spec fn name(self) -> Seq<char> {
        match self {
            Tier::L0 => "L0"@,
            Tier::L1 => "L1"@,
            Tier::L2 => "L2"@,
            Tier::L3 => "L3"@,
        }
    }

    /// The tier with that name.
    pub open spec fn named(s: Seq<char>) -> Option<Tier> {
        if s == "L0"@ {
            Some(Tier::L0)
        } else if s == "L1"@ {
            Some(Tier::L1)
        } else if s == "L2"@ {
            Some(Tier::L2)
        } else if s == "L3"@ {
            Some(Tier::L3)
        } else {
            None
        }
    }

    pub fn as_str(self) -> (r: &'static str)
        ensures
            r@ == self.name(),
    {
        match self {
            Tier::L0 => "L0",
            Tier::L1 => "L1",
            Tier::L2 => "L2",
            Tier::L3 => "L3",
        }
    }

    /// The tier with that name.
    pub fn from_str(s: &str) -> (r: Option<Tier>)
        ensures
            r == Tier::named(s@),
    {
        if str_eq(s, "L0") {
            Some(Tier::L0)
        } else if str_eq(s, "L1") {
            Some(Tier::L1)
        } else if str_eq(s, "L2") {
            Some(Tier::L2)
        } else if str_eq(s, "L3") {
            Some(Tier::L3)
        } else {
            None
        }
    }

    /// Every tier is found again by its name, and no two share one.
    pub proof fn lemma_named(a: Tier, b: Tier)
        ensures
            Tier::named(a.name()) == Some(a),
            a.name() == b.name() ==> a == b,
    {
        reveal_strlit("L0");
        reveal_strlit("L1");
        reveal_strlit("L2");
        reveal_strlit("L3");
        assert("L0"@.len() == 2);
        assert("L1"@.len() == 2);
        assert("L2"@.len() == 2);
        assert("L3"@.len() == 2);
        assert("L0"@[1] != "L1"@[1]);
        assert("L0"@[1] != "L2"@[1]);
        assert("L0"@[1] != "L3"@[1]);
        assert("L1"@[1] != "L2"@[1]);
        assert("L1"@[1] != "L3"@[1]);
        assert("L2"@[1] != "L3"@[1]);
    }

    /// Place of a tier in the ladder.
    pub open spec fn level(self) -> int {
        match self {
            Tier::L0 => 0,
            Tier::L1 => 1,
            Tier::L2 => 2,
            Tier::L3 => 3,
        }
    }

    /// The tier one step up; the last one has none.
    pub fn next(self) -> (r: Option<Tier>)
        ensures
            r is None <==> self is L3,
            r is Some ==> r->0.level() == self.level() + 1,
    {
        match self {
            Tier::L0 => Some(Tier::L1),
            Tier::L1 => Some(Tier::L2),
            Tier::L2 => Some(Tier::L3),
            Tier::L3 => None,
        }
    }
}

/// Shard-placement policy surfaced to operators.
#[derive(Clone, Copy, Debug, PartialEq, Eq, Structural, PartialOrd, Ord, Hash)]
pub enum ShardTopology {
    Dedicated,
    CoTenantShard0,
}

impl ShardTopology {
    /// The text that stands for a topology.
    pub open spec fn name(self) -> Seq<char> {
        match self {
            ShardTopology::Dedicated => "dedicated"@,
            ShardTopology::CoTenantShard0 => "co-tenant-shard-0"@,
        }
    }

    /// The topology with that name.
    pub open spec fn named(s: Seq<char>) -> Option<ShardTopology> {
        if s == "dedicated"@ {
            Some(ShardTopology::Dedicated)
        } else if s == "co-tenant-shard-0"@ {
            Some(ShardTopology::CoTenantShard0)
        } else {
            None
        }
    }

    pub fn as_str(self) -> (r: &'static str)
        ensures
            r@ == self.name(),
    {
        match self {
            ShardTopology::Dedicated => "dedicated",
            ShardTopology::CoTenantShard0 => "co-tenant-shard-0",
        }
    }

    /// The topology with that name.
    pub fn from_str(s: &str) -> (r: Option<ShardTopology>)
        ensures
            r == ShardTopology::named(s@),
    {
        if str_eq(s, "dedicated") {
            Some(ShardTopology::Dedicated)
        } else if str_eq(s, "co-tenant-shard-0") {
            Some(ShardTopology::CoTenantShard0)
        } else {
            None
        }
    }

    /// Every topology is found again by its name, and no two share one.
    pub proof fn lemma_named(a: ShardTopology, b: ShardTopology)
        ensures
            ShardTopology::named(a.name()) == Some(a),
            a.name() == b.name() ==> a == b,
    {
        reveal_strlit("dedicated");
        reveal_strlit("co-tenant-shard-0");
        assert("dedicated"@.len() == 9);
        assert("co-tenant-shard-0"@.len() == 17);
    }
}

/// Error codes of the protocol, the curator codes last.
#[derive(Clone, Copy, Debug, PartialEq, Eq, Structural, Hash)]
pub enum ErrCode {
    Quarantined,
    BudgetExceeded,
    Fixation,
    AnchorMissing,
    ContractViolation,
    DecisionConflict,
    CongruenceDelta,
    PermissionDenied,
    RateLimited,
    DeadlineExceeded,
    NotFound,
    Unimplemented,
    Internal,
    SemanticDrift,
    HallucinationDetected,
    AdjudicationPending,
}

impl ErrCode {
    /// The text that stands for a code.
    pub open spec fn name(self) -> Seq<char> {
        match self {
            ErrCode::Quarantined => "Quarantined"@,
            ErrCode::BudgetExceeded => "BudgetExceeded"@,
            ErrCode::Fixation => "Fixation"@,
            ErrCode::AnchorMissing => "AnchorMissing"@,
            ErrCode::ContractViolation => "ContractViolation"@,
            ErrCode::DecisionConflict => "DecisionConflict"@,
            ErrCode::CongruenceDelta => "CongruenceDelta"@,
            ErrCode::PermissionDenied => "PermissionDenied"@,
            ErrCode::RateLimited => "RateLimited"@,
            ErrCode::DeadlineExceeded => "DeadlineExceeded"@,
            ErrCode::NotFound => "NotFound"@,
            ErrCode::Unimplemented => "Unimplemented"@,
            ErrCode::Internal => "Internal"@,
            ErrCode::SemanticDrift => "SemanticDrift"@,
            ErrCode::HallucinationDetected => "HallucinationDetected"@,
            ErrCode::AdjudicationPending => "AdjudicationPending"@,
        }
    }

    /// The code with that name.
    pub open spec fn named(s: Seq<char>) -> Option<ErrCode> {
        if s == "Quarantined"@ {
            Some(ErrCode::Quarantined)
        } else if s == "BudgetExceeded"@ {
            Some(ErrCode::BudgetExceeded)
        } else if s == "Fixation"@ {
            Some(ErrCode::Fixation)
        } else if s == "AnchorMissing"@ {
            Some(ErrCode::AnchorMissing)
        } else if s == "ContractViolation"@ {
            Some(ErrCode::ContractViolation)
        } else if s == "DecisionConflict"@ {
            Some(ErrCode::DecisionConflict)
        } else if s == "CongruenceDelta"@ {
            Some(ErrCode::CongruenceDelta)
        } else if s == "PermissionDenied"@ {
            Some(ErrCode::PermissionDenied)
        } else if s == "RateLimited"@ {
            Some(ErrCode::RateLimited)
        } else if s == "DeadlineExceeded"@ {
            Some(ErrCode::DeadlineExceeded)
        } else if s == "NotFound"@ {
            Some(ErrCode::NotFound)
        } else if s == "Unimplemented"@ {
            Some(ErrCode::Unimplemented)
        } else if s == "Internal"@ {
            Some(ErrCode::Internal)
        } else if s == "SemanticDrift"@ {
            Some(ErrCode::SemanticDrift)
        } else if s == "HallucinationDetected"@ {
            Some(ErrCode::HallucinationDetected)
        } else if s == "AdjudicationPending"@ {
            Some(ErrCode::AdjudicationPending)
        } else {
            None
        }
    }

    pub fn as_str(self) -> (r: &'static str)
        ensures
            r@ == self.name(),
    {
        match self {
            ErrCode::Quarantined => "Quarantined",
            ErrCode::BudgetExceeded => "BudgetExceeded",
            ErrCode::Fixation => "Fixation",
            ErrCode::AnchorMissing => "AnchorMissing",
            ErrCode::ContractViolation => "ContractViolation",
            ErrCode::DecisionConflict => "DecisionConflict",
            ErrCode::CongruenceDelta => "CongruenceDelta",
            ErrCode::PermissionDenied => "PermissionDenied",
            ErrCode::RateLimited => "RateLimited",
            ErrCode::DeadlineExceeded => "DeadlineExceeded",
            ErrCode::NotFound => "NotFound",
            ErrCode::Unimplemented => "Unimplemented",
            ErrCode::Internal => "Internal",
            ErrCode::SemanticDrift => "SemanticDrift",
            ErrCode::HallucinationDetected => "HallucinationDetected",
            ErrCode::AdjudicationPending => "AdjudicationPending",
        }
    }

    /// The code with that name.
    pub fn from_str(s: &str) -> (r: Option<ErrCode>)
        ensures
            r == ErrCode::named(s@),
    {
        if str_eq(s, "Quarantined") {
            Some(ErrCode::Quarantined)
        } else if str_eq(s, "BudgetExceeded") {
            Some(ErrCode::BudgetExceeded)
        } else if str_eq(s, "Fixation") {
            Some(ErrCode::Fixation)
        } else if str_eq(s, "AnchorMissing") {
            Some(ErrCode::AnchorMissing)
        } else if str_eq(s, "ContractViolation") {
            Some(ErrCode::ContractViolation)
        } else if str_eq(s, "DecisionConflict") {
            Some(ErrCode::DecisionConflict)
        } else if str_eq(s, "CongruenceDelta") {
            Some(ErrCode::CongruenceDelta)
        } else if str_eq(s, "PermissionDenied") {
            Some(ErrCode::PermissionDenied)
        } else if str_eq(s, "RateLimited") {
            Some(ErrCode::RateLimited)
        } else if str_eq(s, "DeadlineExceeded") {
            Some(ErrCode::DeadlineExceeded)
        } else if str_eq(s, "NotFound") {
            Some(ErrCode::NotFound)
        } else if str_eq(s, "Unimplemented") {
            Some(ErrCode::Unimplemented)
        } else if str_eq(s, "Internal") {
            Some(ErrCode::Internal)
        } else if str_eq(s, "SemanticDrift") {
            Some(ErrCode::SemanticDrift)
        } else if str_eq(s, "HallucinationDetected") {
            Some(ErrCode::HallucinationDetected)
        } else if str_eq(s, "AdjudicationPending") {
            Some(ErrCode::AdjudicationPending)
        } else {
            None
        }
    }

    /// Every code is found again by its name, and no two share one.
    pub proof fn lemma_named(a: ErrCode, b: ErrCode)
        ensures
            ErrCode::named(a.name()) == Some(a),
            a.name() == b.name() ==> a == b,
    {
        reveal_strlit("Quarantined");
        reveal_strlit("BudgetExceeded");
        reveal_strlit("Fixation");
        reveal_strlit("AnchorMissing");
        reveal_strlit("ContractViolation");
        reveal_strlit("DecisionConflict");
        reveal_strlit("CongruenceDelta");
        reveal_strlit("PermissionDenied");
        reveal_strlit("RateLimited");
        reveal_strlit("DeadlineExceeded");
        reveal_strlit("NotFound");
        reveal_strlit("Unimplemented");
        reveal_strlit("Internal");
        reveal_strlit("SemanticDrift");
        reveal_strlit("HallucinationDetected");
        reveal_strlit("AdjudicationPending");
        assert("Quarantined"@.len() == 11);
        assert("BudgetExceeded"@.len() == 14);
        assert("Fixation"@.len() == 8);
        assert("AnchorMissing"@.len() == 13);
        assert("ContractViolation"@.len() == 17);
        assert("DecisionConflict"@.len() == 16);
        assert("CongruenceDelta"@.len() == 15);
        assert("PermissionDenied"@.len() == 16);
        assert("RateLimited"@.len() == 11);
        assert("DeadlineExceeded"@.len() == 16);
        assert("NotFound"@.len() == 8);
        assert("Unimplemented"@.len() == 13);
        assert("Internal"@.len() == 8);
        assert("SemanticDrift"@.len() == 13);
        assert("HallucinationDetected"@.len() == 21);
        assert("AdjudicationPending"@.len() == 19);
        assert("Quarantined"@[0] != "RateLimited"@[0]);
        assert("Fixation"@[0] != "NotFound"@[0]);
        assert("Fixation"@[0] != "Internal"@[0]);
        assert("AnchorMissing"@[0] != "Unimplemented"@[0]);
        assert("AnchorMissing"@[0] != "SemanticDrift"@[0]);
        assert("DecisionConflict"@[0] != "PermissionDenied"@[0]);
        assert("DecisionConflict"@[2] != "DeadlineExceeded"@[2]);
        assert("PermissionDenied"@[0] != "DeadlineExceeded"@[0]);
        assert("NotFound"@[0] != "Internal"@[0]);
        assert("Unimplemented"@[0] != "SemanticDrift"@[0]);
    }

    /// The codes raised by governance, the curator codes among them.
    pub open spec fn governed(self) -> bool {
        match self {
            ErrCode::PermissionDenied | ErrCode::RateLimited | ErrCode::DeadlineExceeded
            | ErrCode::NotFound | ErrCode::Unimplemented | ErrCode::Internal => false,
            _ => true,
        }
    }

    pub fn is_trinity(self) -> (r: bool)
        ensures
            r == self.governed(),
    {
        matches!(
            self,
            ErrCode::Quarantined
                | ErrCode::BudgetExceeded
                | ErrCode::Fixation
                | ErrCode::AnchorMissing
                | ErrCode::ContractViolation
                | ErrCode::DecisionConflict
                | ErrCode::CongruenceDelta
                | ErrCode::SemanticDrift
                | ErrCode::HallucinationDetected
                | ErrCode::AdjudicationPending
        )
    }
}

/// Structured error. Governance failures carry a `quarantine_id`.
#[derive(Clone, Debug)]
pub struct UcError {
    pub code: ErrCode,
    pub message: String,
    pub quarantine_id: Option<QuarantineId>,
    pub cause_chain: Vec<ErrCode>,
    pub retry_after_logical: Option<u64>,
    pub spec_anchor: Option<Box<AnchorRef>>,
}

pub type UcResult<T> = Result<T, UcError>;

/// What an error says: its code and its message.
pub type ErrV = (ErrCode, Seq<char>);

/// The outcome of a call is the stated one: the value, or a plain error with
/// the stated code and message.
pub open spec fn agrees<T: DeepView>(r: UcResult<T>, want: Result<T::V, ErrV>) -> bool {
    match (r, want) {
        (Ok(a), Ok(b)) => a.deep_view() == b,
        (Err(e), Err(w)) => e.plain(w.0, w.1),
        _ => false,
    }
}

impl UcError {
    /// The error holds this code and message and nothing else.
    pub open spec fn plain(self, code: ErrCode, message: Seq<char>) -> bool {
        &&& self.code == code
        &&& self.message@ == message
        &&& self.quarantine_id is None
        &&& self.cause_chain@.len() == 0
        &&& self.retry_after_logical is None
        &&& self.spec_anchor is None
    }

    pub fn new(code: ErrCode, message: &str) -> (r: Self)
        ensures
            r.plain(code, message@),
    {
        UcError {
            code,
            message: message.to_owned(),
            quarantine_id: None,
            cause_chain: Vec::new(),
            retry_after_logical: None,
            spec_anchor: None,
        }
    }

    pub fn internal(message: &str) -> (r: Self)
        ensures
            r.plain(ErrCode::Internal, message@),
    {
        UcError::new(ErrCode::Internal, message)
    }

    pub fn not_found(message: &str) -> (r: Self)
        ensures
            r.plain(ErrCode::NotFound, message@),
    {
        UcError::new(ErrCode::NotFound, message)
    }

    pub fn denied(message: &str) -> (r: Self)
        ensures
            r.plain(ErrCode::PermissionDenied, message@),
    {
        UcError::new(ErrCode::PermissionDenied, message)
    }

    pub fn unsupported(message: &str) -> (r: Self)
        ensures
            r.plain(ErrCode::Unimplemented, message@),
    {
        UcError::new(ErrCode::Unimplemented, message)
    }

    /// A payload that does not match its registered shape.
    pub fn schema(message: &str) -> (r: Self)
        ensures
            r.plain(ErrCode::ContractViolation, message@),
    {
        UcError::new(ErrCode::ContractViolation, message)
    }

    pub fn with_quarantine(self, qid: QuarantineId) -> (r: Self)
        ensures
            r == (UcError { quarantine_id: Some(qid), ..self }),
    {
        let mut e = self;
        e.quarantine_id = Some(qid);
        e
    }

    pub fn with_cause(self, cause: ErrCode) -> (r: Self)
        ensures
            r.cause_chain@ == self.cause_chain@.push(cause),
            r == (UcError { cause_chain: r.cause_chain, ..self }),
    {
        let mut e = self;
        e.cause_chain.push(cause);
        e
    }

    pub fn with_anchor(self, a: AnchorRef) -> (r: Self)
        ensures
            r == (UcError { spec_anchor: Some(Box::new(a)), ..self }),
    {
        let mut e = self;
        e.spec_anchor = Some(Box::new(a));
        e
    }

    /// `<code>: <message>`.
    pub fn describe(&self) -> (r: String)
        ensures
            r@ == self.code.name() + ": "@ + self.message@,
    {
        let mut out = self.code.as_str().to_owned();
        out.append(": ");
        out.append(self.message.as_str());
        out
    }
}

/// Logical clock: a counter that only moves forward.
#[derive(Debug)]
pub struct LogicalClock(u64);

impl View for LogicalClock {
    type V = u64;

    closed spec fn view(&self) -> u64 {
        self.0
    }
}

impl LogicalClock {
    pub fn new(start: u64) -> (r: Self)
        ensures
            r@ == start,
    {
        LogicalClock(start)
    }

    /// Advances by one and returns the new value.
    pub fn tick(&mut self) -> (r: u64)
        requires
            old(self)@ < u64::MAX,
        ensures
            r == old(self)@ + 1,
            final(self)@ == r,
    {
        self.0 = self.0 + 1;
        self.0
    }

    pub fn now(&self) -> (r: u64)
        ensures
            r == self@,
    {
        self.0
    }

    /// Advances to at least `t`; never moves back.
    pub fn advance_to(&mut self, t: u64)
        ensures
            final(self)@ == if old(self)@ < t { t } else { old(self)@ },
    {
        if self.0 < t {
            self.0 = t;
        }
    }
}

/// FNV-1a, 64 bits: one xor and one wrapping multiplication per byte.
pub open spec fn fnv_of(bytes: Seq<u8>) -> u64
    decreases bytes.len(),
{
    if bytes.len() == 0 {
        0xcbf29ce484222325
    } else {
        (fnv_of(bytes.drop_last()) ^ (bytes.last() as u64)).wrapping_mul(0x100000001b3)
    }
}

/// Stable, seed-free hash used for deterministic routing.
pub fn fnv1a64(bytes: &[u8]) -> (r: u64)
    ensures
        r == fnv_of(bytes@),
{
    let mut h: u64 = 0xcbf29ce484222325;
    let mut i: usize = 0;
    while i < bytes.len()
        invariant
            i <= bytes.len(),
            h == fnv_of(bytes@.take(i as int)),
        decreases bytes.len() - i,
    {
        h = (h ^ (bytes[i] as u64)).wrapping_mul(0x100000001b3);
        i += 1;
        assert(bytes@.take(i as int).drop_last() =~= bytes@.take(i - 1));
    }
    assert(bytes@.take(bytes@.len() as int) =~= bytes@);
    h
}

/// Rough token estimate: a quarter of the bytes, rounded up, in 32 bits.
pub open spec fn tokens_of(bytes: int) -> int {
    ((bytes + 3) / 4) % 0x1_0000_0000
}

/// A token stands for four bytes, and a rest for one more.
pub proof fn lemma_tokens_of(bytes: int)
    requires
        0 <= bytes < 0x3_ffff_fffc,
    ensures
        4 * tokens_of(bytes) - 4 < bytes <= 4 * tokens_of(bytes),
{
}

pub fn est_tokens(bytes: usize) -> (r: u32)
    ensures
        r == tokens_of(bytes as int),
{
    let q: usize = bytes / 4 + if bytes % 4 == 0 { 0 } else { 1 };
    let low: u64 = (q as u64) % 0x1_0000_0000;
    low as u32
}

} // verus!
