//! The self-test of a node: what it asks of itself before it serves, and how the
//! answers are judged. A substrate that cannot police itself must not serve.

use vstd::prelude::*;
use crate::cbor::{map_value, text_or_empty, u64_or_zero, Cbor, CborV};
use crate::curator::{facet_handle, facet_of};
use crate::text::{cat4, chars_of, starts, str_starts};
use crate::vocab::{agrees, ErrCode, ErrV, Intent, UcError, UcResult};

verus! {

/// How many checks there are.
pub const CHECKS: u32 = 11;

/// Who asks.
#[derive(Clone, Copy, Debug, PartialEq, Eq, Structural)]
pub enum Caller {
    Agent,
    Warden,
    Operator,
}

/// A request of the self-test.
#[derive(Clone, Copy, Debug, PartialEq, Eq, Structural)]
pub enum Step {
    Write,
    Recall,
    Supersede,
    Anchorless,
    Budget,
    View,
    ViewAgain,
    Gate,
    Denial,
    Hydrate,
}

/// What a request says.
#[derive(Debug)]
pub struct Probe {
    pub caller: Caller,
    pub intent: Intent,
    pub payload: Cbor,
    pub anchor: Option<String>,
    pub task: String,
    pub units: u64,
    pub seed: u64,
    pub semantic_check: bool,
}

/// What a request says, as a mathematical object.
#[verifier::ext_equal]
pub struct ProbeV {
    pub caller: Caller,
    pub intent: Intent,
    pub payload: CborV,
    pub anchor: Option<Seq<char>>,
    pub task: Seq<char>,
    pub units: u64,
    pub seed: u64,
    pub semantic_check: bool,
}

impl DeepView for Probe {
    type V = ProbeV;

    open spec fn deep_view(&self) -> ProbeV {
        ProbeV {
            caller: self.caller,
            intent: self.intent,
            payload: self.payload@,
            anchor: self.anchor.deep_view(),
            task: self.task@,
            units: self.units,
            seed: self.seed,
            semantic_check: self.semantic_check,
        }
    }
}

/// The requests: `written` is the handle that the first write gave, and `facet`
/// a private facet of an output.
pub open spec fn request_of(step: Step, written: Seq<char>, facet: Seq<char>) -> ProbeV {
    match step {
        Step::Write => ProbeV {
            caller: Caller::Agent,
            intent: Intent::Write,
            payload: map_value(
                seq![
                    ("subject"@, CborV::Text("selftest"@)),
                    ("predicate"@, CborV::Text("status"@)),
                    ("object"@, CborV::Text("the substrate polices itself end to end"@)),
                ],
            ),
            anchor: Some("Architecture.md\u{00a7}4"@),
            task: "bootstrap.selftest"@,
            units: 5000,
            seed: 11,
            semantic_check: false,
        },
        Step::Recall => ProbeV {
            caller: Caller::Agent,
            intent: Intent::Recall,
            payload: map_value(
                seq![
                    ("query"@, CborV::Text("substrate polices"@)),
                    ("k"@, CborV::U64(4)),
                ],
            ),
            anchor: None,
            task: "bootstrap.selftest"@,
            units: 5000,
            seed: 12,
            semantic_check: false,
        },
        Step::Supersede => ProbeV {
            caller: Caller::Agent,
            intent: Intent::Write,
            payload: map_value(
                seq![
                    ("subject"@, CborV::Text("selftest"@)),
                    ("predicate"@, CborV::Text("status"@)),
                    ("object"@, CborV::Text("supersession verified"@)),
                    ("supersedes"@, CborV::Text(written)),
                ],
            ),
            anchor: Some("Architecture.md\u{00a7}4"@),
            task: "bootstrap.selftest"@,
            units: 5000,
            seed: 13,
            semantic_check: false,
        },
        Step::Anchorless => ProbeV {
            caller: Caller::Agent,
            intent: Intent::Write,
            payload: map_value(
                seq![
                    ("subject"@, CborV::Text("selftest"@)),
                    ("predicate"@, CborV::Text("anchorless"@)),
                    ("object"@, CborV::Text("must be absorbed"@)),
                ],
            ),
            anchor: None,
            task: "bootstrap.selftest"@,
            units: 5000,
            seed: 14,
            semantic_check: false,
        },
        Step::Budget => ProbeV {
            caller: Caller::Agent,
            intent: Intent::Write,
            payload: map_value(
                seq![
                    ("subject"@, CborV::Text("selftest"@)),
                    ("predicate"@, CborV::Text("budget"@)),
                    ("object"@, CborV::Text("should not land"@)),
                ],
            ),
            anchor: Some("Architecture.md\u{00a7}4"@),
            task: "selftest.zero"@,
            units: 0,
            seed: 15,
            semantic_check: false,
        },
        Step::View => ProbeV {
            caller: Caller::Agent,
            intent: Intent::View,
            payload: map_value(
                seq![
                    ("view_id"@, CborV::Text("fact_subject"@)),
                    ("params"@, map_value(seq![("subject"@, CborV::Text("selftest"@))])),
                ],
            ),
            anchor: None,
            task: "bootstrap.selftest"@,
            units: 5000,
            seed: 16,
            semantic_check: false,
        },
        Step::ViewAgain => ProbeV {
            caller: Caller::Agent,
            intent: Intent::View,
            payload: map_value(
                seq![
                    ("view_id"@, CborV::Text("fact_subject"@)),
                    ("params"@, map_value(seq![("subject"@, CborV::Text("selftest"@))])),
                ],
            ),
            anchor: None,
            task: "bootstrap.selftest"@,
            units: 5000,
            seed: 17,
            semantic_check: false,
        },
        Step::Gate => ProbeV {
            caller: Caller::Agent,
            intent: Intent::Write,
            payload: map_value(
                seq![
                    ("subject"@, CborV::Text("selftest"@)),
                    ("predicate"@, CborV::Text("grounding"@)),
                    ("object"@, CborV::Text("grounded in fact/01GHOSTGHOSTGHOSTGHOSTGHOST"@)),
                ],
            ),
            anchor: Some("Architecture.md\u{00a7}4"@),
            task: "bootstrap.selftest"@,
            units: 5000,
            seed: 18,
            semantic_check: true,
        },
        Step::Denial => ProbeV {
            caller: Caller::Warden,
            intent: Intent::Hydrate,
            payload: map_value(
                seq![
                    ("handle"@, CborV::Text(facet)),
                ],
            ),
            anchor: None,
            task: "bootstrap.selftest"@,
            units: 5000,
            seed: 19,
            semantic_check: false,
        },
        Step::Hydrate => ProbeV {
            caller: Caller::Operator,
            intent: Intent::Hydrate,
            payload: map_value(
                seq![
                    ("handle"@, CborV::Text(facet)),
                ],
            ),
            anchor: None,
            task: "bootstrap.selftest"@,
            units: 5000,
            seed: 20,
            semantic_check: false,
        },
    }
}

/// The requests of the self-test.
pub fn request(step: Step, written: &str, facet: &str) -> (r: Probe)
    ensures
        r.deep_view() == request_of(step, written@, facet@),
{
    match step {
        Step::Write => Probe {
            caller: Caller::Agent,
            intent: Intent::Write,
            payload: Cbor::map3(
                "subject",
                Cbor::t("selftest"),
                "predicate",
                Cbor::t("status"),
                "object",
                Cbor::t("the substrate polices itself end to end"),
            ),
            anchor: Some("Architecture.md\u{00a7}4".to_string()),
            task: "bootstrap.selftest".to_string(),
            units: 5000,
            seed: 11,
            semantic_check: false,
        },
        Step::Recall => Probe {
            caller: Caller::Agent,
            intent: Intent::Recall,
            payload: Cbor::map2("query", Cbor::t("substrate polices"), "k", Cbor::U64(4)),
            anchor: None,
            task: "bootstrap.selftest".to_string(),
            units: 5000,
            seed: 12,
            semantic_check: false,
        },
        Step::Supersede => Probe {
            caller: Caller::Agent,
            intent: Intent::Write,
            payload: Cbor::map4(
                "subject",
                Cbor::t("selftest"),
                "predicate",
                Cbor::t("status"),
                "object",
                Cbor::t("supersession verified"),
                "supersedes",
                Cbor::t(written),
            ),
            anchor: Some("Architecture.md\u{00a7}4".to_string()),
            task: "bootstrap.selftest".to_string(),
            units: 5000,
            seed: 13,
            semantic_check: false,
        },
        Step::Anchorless => Probe {
            caller: Caller::Agent,
            intent: Intent::Write,
            payload: Cbor::map3(
                "subject",
                Cbor::t("selftest"),
                "predicate",
                Cbor::t("anchorless"),
                "object",
                Cbor::t("must be absorbed"),
            ),
            anchor: None,
            task: "bootstrap.selftest".to_string(),
            units: 5000,
            seed: 14,
            semantic_check: false,
        },
        Step::Budget => Probe {
            caller: Caller::Agent,
            intent: Intent::Write,
            payload: Cbor::map3(
                "subject",
                Cbor::t("selftest"),
                "predicate",
                Cbor::t("budget"),
                "object",
                Cbor::t("should not land"),
            ),
            anchor: Some("Architecture.md\u{00a7}4".to_string()),
            task: "selftest.zero".to_string(),
            units: 0,
            seed: 15,
            semantic_check: false,
        },
        Step::View => Probe {
            caller: Caller::Agent,
            intent: Intent::View,
            payload: Cbor::map2(
                "view_id",
                Cbor::t("fact_subject"),
                "params",
                Cbor::map1("subject", Cbor::t("selftest")),
            ),
            anchor: None,
            task: "bootstrap.selftest".to_string(),
            units: 5000,
            seed: 16,
            semantic_check: false,
        },
        Step::ViewAgain => Probe {
            caller: Caller::Agent,
            intent: Intent::View,
            payload: Cbor::map2(
                "view_id",
                Cbor::t("fact_subject"),
                "params",
                Cbor::map1("subject", Cbor::t("selftest")),
            ),
            anchor: None,
            task: "bootstrap.selftest".to_string(),
            units: 5000,
            seed: 17,
            semantic_check: false,
        },
        Step::Gate => Probe {
            caller: Caller::Agent,
            intent: Intent::Write,
            payload: Cbor::map3(
                "subject",
                Cbor::t("selftest"),
                "predicate",
                Cbor::t("grounding"),
                "object",
                Cbor::t("grounded in fact/01GHOSTGHOSTGHOSTGHOSTGHOST"),
            ),
            anchor: Some("Architecture.md\u{00a7}4".to_string()),
            task: "bootstrap.selftest".to_string(),
            units: 5000,
            seed: 18,
            semantic_check: true,
        },
        Step::Denial => Probe {
            caller: Caller::Warden,
            intent: Intent::Hydrate,
            payload: Cbor::map1("handle", Cbor::t(facet)),
            anchor: None,
            task: "bootstrap.selftest".to_string(),
            units: 5000,
            seed: 19,
            semantic_check: false,
        },
        Step::Hydrate => Probe {
            caller: Caller::Operator,
            intent: Intent::Hydrate,
            payload: Cbor::map1("handle", Cbor::t(facet)),
            anchor: None,
            task: "bootstrap.selftest".to_string(),
            units: 5000,
            seed: 20,
            semantic_check: false,
        },
    }
}

/// What came back.
#[derive(Debug)]
pub struct Reply {
    pub ok: bool,
    pub result: Cbor,
    pub err_code: Option<ErrCode>,
    pub quarantine_id: Option<String>,
}

/// What came back, as a mathematical object.
#[verifier::ext_equal]
pub struct ReplyV {
    pub ok: bool,
    pub result: CborV,
    pub err_code: Option<ErrCode>,
    pub quarantine_id: Option<Seq<char>>,
}

impl DeepView for Reply {
    type V = ReplyV;

    open spec fn deep_view(&self) -> ReplyV {
        ReplyV {
            ok: self.ok,
            result: self.result@,
            err_code: self.err_code,
            quarantine_id: self.quarantine_id.deep_view(),
        }
    }
}

/// What was seen in each check.
#[derive(Debug)]
pub enum Evidence {
    Written { reply: Reply },
    Recalled { reply: Reply },
    Superseded { reply: Reply, superseded: bool },
    Quarantined { reply: Reply },
    Refused { reply: Reply },
    Cached { first: Reply, second: Reply, hits_before: u64, hits_after: u64 },
    SkeletonActive { active: bool },
    Gated { reply: Reply },
    Counted { queued: u64 },
    Denied { reply: Reply, denied: u64 },
    Hydrated { reply: Reply },
}

/// What was seen, as a mathematical object.
pub enum EvidenceV {
    Written { reply: ReplyV },
    Recalled { reply: ReplyV },
    Superseded { reply: ReplyV, superseded: bool },
    Quarantined { reply: ReplyV },
    Refused { reply: ReplyV },
    Cached { first: ReplyV, second: ReplyV, hits_before: u64, hits_after: u64 },
    SkeletonActive { active: bool },
    Gated { reply: ReplyV },
    Counted { queued: u64 },
    Denied { reply: ReplyV, denied: u64 },
    Hydrated { reply: ReplyV },
}

impl DeepView for Evidence {
    type V = EvidenceV;

    open spec fn deep_view(&self) -> EvidenceV {
        match self {
            Evidence::Written { reply } => EvidenceV::Written { reply: reply.deep_view() },
            Evidence::Recalled { reply } => EvidenceV::Recalled { reply: reply.deep_view() },
            Evidence::Superseded { reply, superseded } => EvidenceV::Superseded {
                reply: reply.deep_view(),
                superseded: *superseded,
            },
            Evidence::Quarantined { reply } => EvidenceV::Quarantined { reply: reply.deep_view() },
            Evidence::Refused { reply } => EvidenceV::Refused { reply: reply.deep_view() },
            Evidence::Cached { first, second, hits_before, hits_after } => EvidenceV::Cached {
                first: first.deep_view(),
                second: second.deep_view(),
                hits_before: *hits_before,
                hits_after: *hits_after,
            },
            Evidence::SkeletonActive { active } => EvidenceV::SkeletonActive { active: *active },
            Evidence::Gated { reply } => EvidenceV::Gated { reply: reply.deep_view() },
            Evidence::Counted { queued } => EvidenceV::Counted { queued: *queued },
            Evidence::Denied { reply, denied } => EvidenceV::Denied {
                reply: reply.deep_view(),
                denied: *denied,
            },
            Evidence::Hydrated { reply } => EvidenceV::Hydrated { reply: reply.deep_view() },
        }
    }
}

impl EvidenceV {
    /// Which check it is, from one on.
    pub open spec fn number(self) -> int {
        match self {
            EvidenceV::Written { .. } => 1,
            EvidenceV::Recalled { .. } => 2,
            EvidenceV::Superseded { .. } => 3,
            EvidenceV::Quarantined { .. } => 4,
            EvidenceV::Refused { .. } => 5,
            EvidenceV::Cached { .. } => 6,
            EvidenceV::SkeletonActive { .. } => 7,
            EvidenceV::Gated { .. } => 8,
            EvidenceV::Counted { .. } => 9,
            EvidenceV::Denied { .. } => 10,
            EvidenceV::Hydrated { .. } => 11,
        }
    }

    /// The name of the check.
    pub open spec fn name(self) -> Seq<char> {
        match self {
            EvidenceV::Written { .. } => "B5.1 write"@,
            EvidenceV::Recalled { .. } => "B5.2 recall"@,
            EvidenceV::Superseded { .. } => "B5.3 supersede"@,
            EvidenceV::Quarantined { .. } => "B5.4 anchor quarantine"@,
            EvidenceV::Refused { .. } => "B5.5 budget"@,
            EvidenceV::Cached { .. } => "B5.6 view+cache"@,
            EvidenceV::SkeletonActive { .. } => "B5.7 librarian active"@,
            EvidenceV::Gated { .. } => "B5.8 warden gate"@,
            EvidenceV::Counted { .. } => "B5.9 adjudicator"@,
            EvidenceV::Denied { .. } => "B5.10 P19 denial"@,
            EvidenceV::Hydrated { .. } => "B5.11 operator hydrate"@,
        }
    }

    /// The check is passed.
    pub open spec fn holds(self) -> bool {
        match self {
            EvidenceV::Written { reply } => reply.ok && starts(text_or_empty(reply.result, "handle"@), "fact/"@),
            EvidenceV::Recalled { reply } => reply.ok && u64_or_zero(reply.result, "items"@) >= 1,
            EvidenceV::Superseded { reply, superseded } => reply.ok && superseded,
            EvidenceV::Quarantined { reply } => !reply.ok && reply.err_code == Some(
                ErrCode::AnchorMissing,
            ) && reply.quarantine_id is Some
                && starts(reply.quarantine_id->0, "quarantine/"@),
            EvidenceV::Refused { reply } => !reply.ok && reply.err_code == Some(ErrCode::BudgetExceeded),
            EvidenceV::Cached { first, second, hits_before, hits_after } => first.ok && second.ok
                && hits_after > hits_before,
            EvidenceV::SkeletonActive { active } => active,
            EvidenceV::Gated { reply } => !reply.ok && reply.err_code == Some(ErrCode::HallucinationDetected),
            EvidenceV::Counted { queued } => queued < 10_000,
            EvidenceV::Denied { reply, denied } => !reply.ok && reply.err_code == Some(
                ErrCode::PermissionDenied,
            ) && denied > 0,
            EvidenceV::Hydrated { reply } => reply.ok && text_or_empty(reply.result, "body"@).len() > 0,
        }
    }
}

fn is_code(c: &Option<ErrCode>, want: ErrCode) -> (r: bool)
    ensures
        r == (*c == Some(want)),
{
    match c {
        Some(x) => *x == want,
        None => false,
    }
}

impl Evidence {
    /// The name of the check.
    pub fn name(&self) -> (r: &'static str)
        ensures
            r@ == self.deep_view().name(),
    {
        match self {
            Evidence::Written { .. } => "B5.1 write",
            Evidence::Recalled { .. } => "B5.2 recall",
            Evidence::Superseded { .. } => "B5.3 supersede",
            Evidence::Quarantined { .. } => "B5.4 anchor quarantine",
            Evidence::Refused { .. } => "B5.5 budget",
            Evidence::Cached { .. } => "B5.6 view+cache",
            Evidence::SkeletonActive { .. } => "B5.7 librarian active",
            Evidence::Gated { .. } => "B5.8 warden gate",
            Evidence::Counted { .. } => "B5.9 adjudicator",
            Evidence::Denied { .. } => "B5.10 P19 denial",
            Evidence::Hydrated { .. } => "B5.11 operator hydrate",
        }
    }

    /// Whether the check is passed.
    pub fn passes(&self) -> (r: bool)
        ensures
            r == self.deep_view().holds(),
    {
        match self {
            Evidence::Written { reply } => reply.ok && str_starts(reply.result.str_or_empty("handle").as_str(), "fact/"),
            Evidence::Recalled { reply } => reply.ok && reply.result.u64_or_zero("items") >= 1,
            Evidence::Superseded { reply, superseded } => reply.ok && *superseded,
            Evidence::Quarantined { reply } => !reply.ok && is_code(
                &reply.err_code,
                ErrCode::AnchorMissing,
            ) && match &reply.quarantine_id {
                Some(q) => str_starts(q.as_str(), "quarantine/"),
                None => false,
            },
            Evidence::Refused { reply } => !reply.ok && is_code(&reply.err_code, ErrCode::BudgetExceeded),
            Evidence::Cached { first, second, hits_before, hits_after } => first.ok && second.ok
                && *hits_after > *hits_before,
            Evidence::SkeletonActive { active } => *active,
            Evidence::Gated { reply } => !reply.ok && is_code(
                &reply.err_code,
                ErrCode::HallucinationDetected,
            ),
            Evidence::Counted { queued } => *queued < 10_000,
            Evidence::Denied { reply, denied } => !reply.ok && is_code(
                &reply.err_code,
                ErrCode::PermissionDenied,
            ) && *denied > 0,
            Evidence::Hydrated { reply } => reply.ok && chars_of(reply.result.str_or_empty("body").as_str()).len() > 0,
        }
    }
}

/// The error of a check that is not passed.
pub open spec fn failure(ev: EvidenceV, detail: Seq<char>) -> ErrV {
    (ErrCode::Internal, "self-test B5 `"@ + ev.name() + "` failed: "@ + detail)
}

/// How far the self-test is.
#[derive(Debug)]
pub struct SelfTest {
    passed: u32,
}

impl View for SelfTest {
    type V = u32;

    closed spec fn view(&self) -> u32 {
        self.passed
    }
}

impl SelfTest {
    pub fn new() -> (r: Self)
        ensures
            r@ == 0,
    {
        SelfTest { passed: 0 }
    }

    /// Judges the next check. One that is not passed ends the test.
    pub fn check(&mut self, evidence: &Evidence, detail: &str) -> (r: UcResult<()>)
        requires
            evidence.deep_view().number() == old(self)@ + 1,
        ensures
            if evidence.deep_view().holds() {
                r is Ok && final(self)@ == old(self)@ + 1
            } else {
                agrees(r, Err(failure(evidence.deep_view(), detail@))) && final(self)@ == old(self)@
            },
    {
        if evidence.passes() {
            self.passed = self.passed + 1;
            Ok(())
        } else {
            Err(
                UcError::internal(
                    cat4("self-test B5 `", evidence.name(), "` failed: ", detail).as_str(),
                ),
            )
        }
    }

    /// How many checks were passed.
    pub fn passed(&self) -> (r: u32)
        ensures
            r == self@,
    {
        self.passed
    }
}

/// The evidence of a whole test is in order.
pub open spec fn in_order(all: Seq<(Evidence, String)>) -> bool {
    all.len() == CHECKS && forall|i: int|
        0 <= i < all.len() ==> (#[trigger] all[i]).0.deep_view().number() == i + 1
}

/// The first check from `i` on that is not passed.
pub open spec fn first_failure(all: Seq<(Evidence, String)>, i: int) -> Option<ErrV>
    decreases all.len() - i,
{
    if i < 0 || i >= all.len() {
        None
    } else if !all[i].0.deep_view().holds() {
        Some(failure(all[i].0.deep_view(), all[i].1@))
    } else {
        first_failure(all, i + 1)
    }
}

/// Judges a whole test: the number of checks, or the first failure.
pub fn self_test(all: &Vec<(Evidence, String)>) -> (r: UcResult<u32>)
    requires
        in_order(all@),
    ensures
        agrees(
            r,
            match first_failure(all@, 0) {
                None => Ok(CHECKS),
                Some(e) => Err(e),
            },
        ),
        r is Ok <==> forall|i: int| 0 <= i < all@.len() ==> (#[trigger] all@[i]).0.deep_view().holds(),
{
    let mut test = SelfTest::new();
    let mut i: usize = 0;
    while i < all.len()
        invariant
            i <= all@.len(),
            in_order(all@),
            test@ == i,
            first_failure(all@, 0) == first_failure(all@, i as int),
            forall|j: int| 0 <= j < i ==> (#[trigger] all@[j]).0.deep_view().holds(),
        decreases all.len() - i,
    {
        if let Err(e) = test.check(&all[i].0, all[i].1.as_str()) {
            assert(!all@[i as int].0.deep_view().holds());
            return Err(e);
        }
        i += 1;
    }
    Ok(test.passed())
}

/// Where pinned models are demanded, both curators have to run one.
pub fn check_backends(strict: bool, librarian: &str, warden: &str) -> (r: UcResult<()>)
    ensures
        agrees(
            r,
            if strict && (!starts(librarian@, "gguf."@) || !starts(warden@, "gguf."@)) {
                Err(
                    (
                        ErrCode::Internal,
                        "self-test B5 model selection: production Curator backend is not GGUF"@,
                    ),
                )
            } else {
                Ok(())
            },
        ),
{
    if strict && (!str_starts(librarian, "gguf.") || !str_starts(warden, "gguf.")) {
        return Err(
            UcError::internal(
                "self-test B5 model selection: production Curator backend is not GGUF",
            ),
        );
    }
    Ok(())
}

/// The private facet that the denial is tried on: that of the active skeleton, or
/// else of a pending output.
pub fn facet_to_probe(active: Option<String>, pending: Option<String>) -> (r: UcResult<String>)
    ensures
        agrees(
            r,
            match (active.deep_view(), pending.deep_view()) {
                (Some(h), _) => Ok(facet_of(h, "rationale"@)),
                (None, Some(h)) => Ok(facet_of(h, "rationale"@)),
                (None, None) => Err(
                    (ErrCode::Internal, "self-test B5.10: no curator output to probe"@),
                ),
            },
        ),
{
    match active {
        Some(h) => Ok(facet_handle(h.as_str(), "rationale")),
        None => match pending {
            Some(h) => Ok(facet_handle(h.as_str(), "rationale")),
            None => Err(UcError::internal("self-test B5.10: no curator output to probe")),
        },
    }
}

/// The facet that the denial is tried on is private, whichever output it is of.
pub proof fn lemma_probed_facet_private(h: Seq<char>)
    ensures
        crate::curator::private_handle(facet_of(h, "rationale"@)),
{
    crate::curator::lemma_facets_private(h, 0);
}

} // verus!
