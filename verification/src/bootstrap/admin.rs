//! The operator's plane: what an operator can ask, how a request is read, and
//! what is answered.

use vstd::prelude::*;
use crate::cbor::{
    lemma_field_at, lemma_one_field, map_value, missing_text, opt_f64_value, opt_text_value, opt_u64_value, text_or_empty,
    text_views, texts_field, texts_value, value_or_null, views, Cbor, CborV,
};
use crate::cli::command_of;
use crate::config::{CuratorConfig, CuratorConfigV, CuratorKvBudgetProfile};
use crate::curator::adjudicator::{AdjudicatorCell, AdjudicatorV};
use crate::curator::guardrails::{
    CalibrationTracker, CALIBRATION_WINDOW, HIGH_BAND_FLOOR, MEDIUM_BAND_FLOOR,
};
use crate::curator::ledger::{
    CrossCheckLedgerCell, CrossCheckRecord, LedgerV, BATCH_SIGN_EVERY, TEN,
};
use crate::curator::librarian::{LibrarianCell, LibrarianV, OutputStatus};
use crate::curator::warden::WardenCell;
use crate::curator::CuratorBackend;
use crate::cells::registry::{AgentRegistryCell, RegistryV};
use crate::cells::timeline::last_n;
use crate::lists::list_values;
use crate::obs::metrics::{flat, Metrics, MetricsV};
use crate::obs::otlp::OtlpExportReceipt;
use crate::persist::kms::{EncryptionTier, Kms, RingV, RotationEvent, T3_ROTATION_INTERVAL_OPS};
use crate::text::{cat2, cat3, chars_of, parse_u64, starts, str_eq, str_starts, string_of, u64_of};
use crate::textmap::text_order;
use crate::vocab::{agrees, ErrCode, ErrV, ShardTopology, UcError, UcResult};

verus! {

/// What an operator can ask.
#[derive(Clone, Copy, Debug, PartialEq, Eq, Structural)]
pub enum AdminVerb {
    Status,
    Snapshot,
    QuarantineList,
    QuarantineReinject,
    QuarantineReject,
    GapList,
    AuditVerify,
    KmsStatus,
    KmsRotate,
    CongruenceAudit,
    CongruencePreview,
    CongruenceAccept,
    BudgetDefaults,
    ContractList,
    ContractPlan,
    ContractVerify,
    ContractApply,
    CuratorStatus,
    CuratorProbeNow,
    CuratorVerifyWeights,
    CrossCheckTail,
    AdjudicatorStats,
    Resolve,
    Metrics,
    MetricsExport,
    Shutdown,
}

impl AdminVerb {
    /// The text that stands for a verb.
    pub open spec fn name(self) -> Seq<char> {
        match self {
            AdminVerb::Status => "status"@,
            AdminVerb::Snapshot => "snapshot"@,
            AdminVerb::QuarantineList => "quarantine list"@,
            AdminVerb::QuarantineReinject => "quarantine reinject"@,
            AdminVerb::QuarantineReject => "quarantine reject"@,
            AdminVerb::GapList => "gap list"@,
            AdminVerb::AuditVerify => "audit verify"@,
            AdminVerb::KmsStatus => "kms status"@,
            AdminVerb::KmsRotate => "kms rotate"@,
            AdminVerb::CongruenceAudit => "congruence audit"@,
            AdminVerb::CongruencePreview => "congruence preview"@,
            AdminVerb::CongruenceAccept => "congruence accept"@,
            AdminVerb::BudgetDefaults => "budget defaults"@,
            AdminVerb::ContractList => "contract list"@,
            AdminVerb::ContractPlan => "contract plan-migration"@,
            AdminVerb::ContractVerify => "contract verify-migration"@,
            AdminVerb::ContractApply => "contract apply-migration"@,
            AdminVerb::CuratorStatus => "curator status"@,
            AdminVerb::CuratorProbeNow => "curator probe-now"@,
            AdminVerb::CuratorVerifyWeights => "curator verify-weights"@,
            AdminVerb::CrossCheckTail => "cross-check tail"@,
            AdminVerb::AdjudicatorStats => "adjudicator stats"@,
            AdminVerb::Resolve => "resolve"@,
            AdminVerb::Metrics => "metrics"@,
            AdminVerb::MetricsExport => "metrics export"@,
            AdminVerb::Shutdown => "shutdown"@,
        }
    }

    /// The verb with that name.
    pub open spec fn named(s: Seq<char>) -> Option<AdminVerb> {
        if s == "status"@ {
            Some(AdminVerb::Status)
        } else if s == "snapshot"@ {
            Some(AdminVerb::Snapshot)
        } else if s == "quarantine list"@ {
            Some(AdminVerb::QuarantineList)
        } else if s == "quarantine reinject"@ {
            Some(AdminVerb::QuarantineReinject)
        } else if s == "quarantine reject"@ {
            Some(AdminVerb::QuarantineReject)
        } else if s == "gap list"@ {
            Some(AdminVerb::GapList)
        } else if s == "audit verify"@ {
            Some(AdminVerb::AuditVerify)
        } else if s == "kms status"@ {
            Some(AdminVerb::KmsStatus)
        } else if s == "kms rotate"@ {
            Some(AdminVerb::KmsRotate)
        } else if s == "congruence audit"@ {
            Some(AdminVerb::CongruenceAudit)
        } else if s == "congruence preview"@ {
            Some(AdminVerb::CongruencePreview)
        } else if s == "congruence accept"@ {
            Some(AdminVerb::CongruenceAccept)
        } else if s == "budget defaults"@ {
            Some(AdminVerb::BudgetDefaults)
        } else if s == "contract list"@ {
            Some(AdminVerb::ContractList)
        } else if s == "contract plan-migration"@ {
            Some(AdminVerb::ContractPlan)
        } else if s == "contract verify-migration"@ {
            Some(AdminVerb::ContractVerify)
        } else if s == "contract apply-migration"@ {
            Some(AdminVerb::ContractApply)
        } else if s == "curator status"@ {
            Some(AdminVerb::CuratorStatus)
        } else if s == "curator probe-now"@ {
            Some(AdminVerb::CuratorProbeNow)
        } else if s == "curator verify-weights"@ {
            Some(AdminVerb::CuratorVerifyWeights)
        } else if s == "cross-check tail"@ {
            Some(AdminVerb::CrossCheckTail)
        } else if s == "adjudicator stats"@ {
            Some(AdminVerb::AdjudicatorStats)
        } else if s == "resolve"@ {
            Some(AdminVerb::Resolve)
        } else if s == "metrics"@ {
            Some(AdminVerb::Metrics)
        } else if s == "metrics export"@ {
            Some(AdminVerb::MetricsExport)
        } else if s == "shutdown"@ {
            Some(AdminVerb::Shutdown)
        } else {
            None
        }
    }

    pub fn as_str(self) -> (r: &'static str)
        ensures
            r@ == self.name(),
    {
        match self {
            AdminVerb::Status => "status",
            AdminVerb::Snapshot => "snapshot",
            AdminVerb::QuarantineList => "quarantine list",
            AdminVerb::QuarantineReinject => "quarantine reinject",
            AdminVerb::QuarantineReject => "quarantine reject",
            AdminVerb::GapList => "gap list",
            AdminVerb::AuditVerify => "audit verify",
            AdminVerb::KmsStatus => "kms status",
            AdminVerb::KmsRotate => "kms rotate",
            AdminVerb::CongruenceAudit => "congruence audit",
            AdminVerb::CongruencePreview => "congruence preview",
            AdminVerb::CongruenceAccept => "congruence accept",
            AdminVerb::BudgetDefaults => "budget defaults",
            AdminVerb::ContractList => "contract list",
            AdminVerb::ContractPlan => "contract plan-migration",
            AdminVerb::ContractVerify => "contract verify-migration",
            AdminVerb::ContractApply => "contract apply-migration",
            AdminVerb::CuratorStatus => "curator status",
            AdminVerb::CuratorProbeNow => "curator probe-now",
            AdminVerb::CuratorVerifyWeights => "curator verify-weights",
            AdminVerb::CrossCheckTail => "cross-check tail",
            AdminVerb::AdjudicatorStats => "adjudicator stats",
            AdminVerb::Resolve => "resolve",
            AdminVerb::Metrics => "metrics",
            AdminVerb::MetricsExport => "metrics export",
            AdminVerb::Shutdown => "shutdown",
        }
    }

    /// The verb with that name.
    pub fn parse(s: &str) -> (r: Option<AdminVerb>)
        ensures
            r == AdminVerb::named(s@),
    {
        if str_eq(s, "status") {
            Some(AdminVerb::Status)
        } else if str_eq(s, "snapshot") {
            Some(AdminVerb::Snapshot)
        } else if str_eq(s, "quarantine list") {
            Some(AdminVerb::QuarantineList)
        } else if str_eq(s, "quarantine reinject") {
            Some(AdminVerb::QuarantineReinject)
        } else if str_eq(s, "quarantine reject") {
            Some(AdminVerb::QuarantineReject)
        } else if str_eq(s, "gap list") {
            Some(AdminVerb::GapList)
        } else if str_eq(s, "audit verify") {
            Some(AdminVerb::AuditVerify)
        } else if str_eq(s, "kms status") {
            Some(AdminVerb::KmsStatus)
        } else if str_eq(s, "kms rotate") {
            Some(AdminVerb::KmsRotate)
        } else if str_eq(s, "congruence audit") {
            Some(AdminVerb::CongruenceAudit)
        } else if str_eq(s, "congruence preview") {
            Some(AdminVerb::CongruencePreview)
        } else if str_eq(s, "congruence accept") {
            Some(AdminVerb::CongruenceAccept)
        } else if str_eq(s, "budget defaults") {
            Some(AdminVerb::BudgetDefaults)
        } else if str_eq(s, "contract list") {
            Some(AdminVerb::ContractList)
        } else if str_eq(s, "contract plan-migration") {
            Some(AdminVerb::ContractPlan)
        } else if str_eq(s, "contract verify-migration") {
            Some(AdminVerb::ContractVerify)
        } else if str_eq(s, "contract apply-migration") {
            Some(AdminVerb::ContractApply)
        } else if str_eq(s, "curator status") {
            Some(AdminVerb::CuratorStatus)
        } else if str_eq(s, "curator probe-now") {
            Some(AdminVerb::CuratorProbeNow)
        } else if str_eq(s, "curator verify-weights") {
            Some(AdminVerb::CuratorVerifyWeights)
        } else if str_eq(s, "cross-check tail") {
            Some(AdminVerb::CrossCheckTail)
        } else if str_eq(s, "adjudicator stats") {
            Some(AdminVerb::AdjudicatorStats)
        } else if str_eq(s, "resolve") {
            Some(AdminVerb::Resolve)
        } else if str_eq(s, "metrics") {
            Some(AdminVerb::Metrics)
        } else if str_eq(s, "metrics export") {
            Some(AdminVerb::MetricsExport)
        } else if str_eq(s, "shutdown") {
            Some(AdminVerb::Shutdown)
        } else {
            None
        }
    }

    /// Every verb is found again by its name, and no two share one.
    pub proof fn lemma_named(a: AdminVerb, b: AdminVerb)
        ensures
            AdminVerb::named(a.name()) == Some(a),
            a.name() == b.name() ==> a == b,
    {
        reveal_strlit("status");
        reveal_strlit("snapshot");
        reveal_strlit("quarantine list");
        reveal_strlit("quarantine reinject");
        reveal_strlit("quarantine reject");
        reveal_strlit("gap list");
        reveal_strlit("audit verify");
        reveal_strlit("kms status");
        reveal_strlit("kms rotate");
        reveal_strlit("congruence audit");
        reveal_strlit("congruence preview");
        reveal_strlit("congruence accept");
        reveal_strlit("budget defaults");
        reveal_strlit("contract list");
        reveal_strlit("contract plan-migration");
        reveal_strlit("contract verify-migration");
        reveal_strlit("contract apply-migration");
        reveal_strlit("curator status");
        reveal_strlit("curator probe-now");
        reveal_strlit("curator verify-weights");
        reveal_strlit("cross-check tail");
        reveal_strlit("adjudicator stats");
        reveal_strlit("resolve");
        reveal_strlit("metrics");
        reveal_strlit("metrics export");
        reveal_strlit("shutdown");
        assert("status"@.len() == 6);
        assert("snapshot"@.len() == 8);
        assert("quarantine list"@.len() == 15);
        assert("quarantine reinject"@.len() == 19);
        assert("quarantine reject"@.len() == 17);
        assert("gap list"@.len() == 8);
        assert("audit verify"@.len() == 12);
        assert("kms status"@.len() == 10);
        assert("kms rotate"@.len() == 10);
        assert("congruence audit"@.len() == 16);
        assert("congruence preview"@.len() == 18);
        assert("congruence accept"@.len() == 17);
        assert("budget defaults"@.len() == 15);
        assert("contract list"@.len() == 13);
        assert("contract plan-migration"@.len() == 23);
        assert("contract verify-migration"@.len() == 25);
        assert("contract apply-migration"@.len() == 24);
        assert("curator status"@.len() == 14);
        assert("curator probe-now"@.len() == 17);
        assert("curator verify-weights"@.len() == 22);
        assert("cross-check tail"@.len() == 16);
        assert("adjudicator stats"@.len() == 17);
        assert("resolve"@.len() == 7);
        assert("metrics"@.len() == 7);
        assert("metrics export"@.len() == 14);
        assert("shutdown"@.len() == 8);
        assert("snapshot"@[0] != "gap list"@[0]);
        assert("snapshot"@[1] != "shutdown"@[1]);
        assert("quarantine list"@[0] != "budget defaults"@[0]);
        assert("quarantine reject"@[0] != "congruence accept"@[0]);
        assert("quarantine reject"@[0] != "curator probe-now"@[0]);
        assert("quarantine reject"@[0] != "adjudicator stats"@[0]);
        assert("gap list"@[0] != "shutdown"@[0]);
        assert("kms status"@[4] != "kms rotate"@[4]);
        assert("congruence audit"@[1] != "cross-check tail"@[1]);
        assert("congruence accept"@[1] != "curator probe-now"@[1]);
        assert("congruence accept"@[0] != "adjudicator stats"@[0]);
        assert("curator status"@[0] != "metrics export"@[0]);
        assert("curator probe-now"@[0] != "adjudicator stats"@[0]);
        assert("resolve"@[0] != "metrics"@[0]);
    }
}

/// A request of the operator's.
#[derive(Debug)]
pub enum AdminCall {
    /// One that needs nothing but its verb.
    Plain { verb: AdminVerb },
    QuarantineReinject { qid: String },
    QuarantineReject { qid: String },
    KmsRotate { emergency: bool },
    CongruencePreview { payload: Cbor },
    CongruenceAccept { entities: Vec<String> },
    ContractPlan {
        source: String,
        target: String,
        plan: String,
        decision: String,
        deprecated_after: u64,
    },
    ContractVerify { schema: String },
    ContractApply { schema: String },
    CrossCheckTail { n: u64 },
    Resolve { handle: String, uphold_auditor: bool },
}

/// A request as a mathematical object.
pub enum AdminCallV {
    Plain { verb: AdminVerb },
    QuarantineReinject { qid: Seq<char> },
    QuarantineReject { qid: Seq<char> },
    KmsRotate { emergency: bool },
    CongruencePreview { payload: CborV },
    CongruenceAccept { entities: Seq<Seq<char>> },
    ContractPlan {
        source: Seq<char>,
        target: Seq<char>,
        plan: Seq<char>,
        decision: Seq<char>,
        deprecated_after: u64,
    },
    ContractVerify { schema: Seq<char> },
    ContractApply { schema: Seq<char> },
    CrossCheckTail { n: u64 },
    Resolve { handle: Seq<char>, uphold_auditor: bool },
}

impl DeepView for AdminCall {
    type V = AdminCallV;

    open spec fn deep_view(&self) -> AdminCallV {
        match self {
            AdminCall::Plain { verb } => AdminCallV::Plain { verb: *verb },
            AdminCall::QuarantineReinject { qid } => AdminCallV::QuarantineReinject { qid: qid@ },
            AdminCall::QuarantineReject { qid } => AdminCallV::QuarantineReject { qid: qid@ },
            AdminCall::KmsRotate { emergency } => AdminCallV::KmsRotate { emergency: *emergency },
            AdminCall::CongruencePreview { payload } => AdminCallV::CongruencePreview { payload: payload@ },
            AdminCall::CongruenceAccept { entities } => AdminCallV::CongruenceAccept {
                entities: text_views(entities@),
            },
            AdminCall::ContractPlan { source, target, plan, decision, deprecated_after } => {
                AdminCallV::ContractPlan {
                    source: source@,
                    target: target@,
                    plan: plan@,
                    decision: decision@,
                    deprecated_after: *deprecated_after,
                }
            },
            AdminCall::ContractVerify { schema } => AdminCallV::ContractVerify { schema: schema@ },
            AdminCall::ContractApply { schema } => AdminCallV::ContractApply { schema: schema@ },
            AdminCall::CrossCheckTail { n } => AdminCallV::CrossCheckTail { n: *n },
            AdminCall::Resolve { handle, uphold_auditor } => AdminCallV::Resolve {
                handle: handle@,
                uphold_auditor: *uphold_auditor,
            },
        }
    }
}

/// A text that a request has to give.
pub open spec fn given(args: CborV, key: Seq<char>) -> Result<Seq<char>, ErrV> {
    match args.text_field(key) {
        Some(t) => Ok(t),
        None => Err((ErrCode::Internal, missing_text(key))),
    }
}

/// The entities that a request names: a list, or else a single one.
pub open spec fn entities_of(args: CborV) -> Seq<Seq<char>> {
    let list = texts_field(args, "entities"@);
    if list.len() > 0 {
        list
    } else {
        match args.text_field("entity"@) {
            Some(e) => seq![e],
            None => Seq::empty(),
        }
    }
}

/// The time after which a schema is no longer taken: a number, or a text that
/// stands for one.
pub open spec fn deadline_of(args: CborV) -> Option<u64> {
    match args.u64_field("deprecated_after"@) {
        Some(n) => Some(n),
        None => match args.text_field("deprecated_after"@) {
            Some(t) => u64_of(t),
            None => None,
        },
    }
}

/// What the planning of a migration asks for.
pub open spec fn plan_of(args: CborV) -> Result<AdminCallV, ErrV> {
    match given(args, "schema_id"@) {
        Err(e) => Err(e),
        Ok(source) => match given(args, "target_schema_id"@) {
            Err(e) => Err(e),
            Ok(target) => match given(args, "migration_plan_handle"@) {
                Err(e) => Err(e),
                Ok(plan) => match given(args, "decision_handle"@) {
                    Err(e) => Err(e),
                    Ok(decision) => match deadline_of(args) {
                        None => Err(
                            (
                                ErrCode::ContractViolation,
                                "contract plan-migration: missing deprecated_after"@,
                            ),
                        ),
                        Some(deprecated_after) => Ok(
                            AdminCallV::ContractPlan {
                                source,
                                target,
                                plan,
                                decision,
                                deprecated_after,
                            },
                        ),
                    },
                },
            },
        },
    }
}

/// What a message asks for.
pub open spec fn call_of(msg: CborV) -> Result<AdminCallV, ErrV> {
    let verb = text_or_empty(msg, "verb"@);
    let args = value_or_null(msg, "args"@);
    match AdminVerb::named(verb) {
        None => Err((ErrCode::Unimplemented, "unknown admin verb `"@ + verb + "`"@)),
        Some(AdminVerb::QuarantineReinject) => match given(args, "qid"@) {
            Ok(qid) => Ok(AdminCallV::QuarantineReinject { qid }),
            Err(e) => Err(e),
        },
        Some(AdminVerb::QuarantineReject) => match given(args, "qid"@) {
            Ok(qid) => Ok(AdminCallV::QuarantineReject { qid }),
            Err(e) => Err(e),
        },
        Some(AdminVerb::KmsRotate) => Ok(
            AdminCallV::KmsRotate {
                emergency: match args.bool_field("emergency"@) {
                    Some(b) => b,
                    None => false,
                },
            },
        ),
        Some(AdminVerb::CongruencePreview) => match args.field("payload"@) {
            Some(payload) => Ok(AdminCallV::CongruencePreview { payload }),
            None => Err((ErrCode::ContractViolation, "congruence preview: missing payload"@)),
        },
        Some(AdminVerb::CongruenceAccept) => if entities_of(args).len() > 0 {
            Ok(AdminCallV::CongruenceAccept { entities: entities_of(args) })
        } else {
            Err(
                (
                    ErrCode::ContractViolation,
                    "congruence accept: missing entity or entities"@,
                ),
            )
        },
        Some(AdminVerb::ContractPlan) => plan_of(args),
        Some(AdminVerb::ContractVerify) => match given(args, "schema_id"@) {
            Ok(schema) => Ok(AdminCallV::ContractVerify { schema }),
            Err(e) => Err(e),
        },
        Some(AdminVerb::ContractApply) => match given(args, "schema_id"@) {
            Ok(schema) => Ok(AdminCallV::ContractApply { schema }),
            Err(e) => Err(e),
        },
        Some(AdminVerb::CrossCheckTail) => Ok(
            AdminCallV::CrossCheckTail {
                n: match args.u64_field("n"@) {
                    Some(n) => n,
                    None => 20,
                },
            },
        ),
        Some(AdminVerb::Resolve) => match given(args, "handle"@) {
            Ok(handle) => Ok(
                AdminCallV::Resolve {
                    handle,
                    uphold_auditor: match args.bool_field("uphold_auditor"@) {
                        Some(b) => b,
                        None => false,
                    },
                },
            ),
            Err(e) => Err(e),
        },
        Some(verb) => Ok(AdminCallV::Plain { verb }),
    }
}

fn read_plan(args: &Cbor) -> (r: UcResult<AdminCall>)
    ensures
        agrees(r, plan_of(args@)),
{
    let source: String = match args.req_str("schema_id") {
        Ok(x) => x,
        Err(e) => {
            return Err(e);
        },
    };
    let target: String = match args.req_str("target_schema_id") {
        Ok(x) => x,
        Err(e) => {
            return Err(e);
        },
    };
    let plan: String = match args.req_str("migration_plan_handle") {
        Ok(x) => x,
        Err(e) => {
            return Err(e);
        },
    };
    let decision: String = match args.req_str("decision_handle") {
        Ok(x) => x,
        Err(e) => {
            return Err(e);
        },
    };
    let deadline: Option<u64> = match args.opt_u64("deprecated_after") {
        Some(n) => Some(n),
        None => match args.opt_str("deprecated_after") {
            Some(t) => parse_u64(t.as_str()),
            None => None,
        },
    };
    match deadline {
        Some(deprecated_after) => Ok(
            AdminCall::ContractPlan { source, target, plan, decision, deprecated_after },
        ),
        None => Err(UcError::schema("contract plan-migration: missing deprecated_after")),
    }
}

/// Reads what a message asks for.
pub fn admin_dispatch(msg: &Cbor) -> (r: UcResult<AdminCall>)
    ensures
        agrees(r, call_of(msg@)),
{
    let name = msg.str_or_empty("verb");
    let args = msg.value_or_null("args");
    let verb = match AdminVerb::parse(name.as_str()) {
        Some(v) => v,
        None => {
            return Err(
                UcError::unsupported(cat3("unknown admin verb `", name.as_str(), "`").as_str()),
            );
        },
    };
    match verb {
        AdminVerb::QuarantineReinject => match args.req_str("qid") {
            Ok(qid) => Ok(AdminCall::QuarantineReinject { qid }),
            Err(e) => Err(e),
        },
        AdminVerb::QuarantineReject => match args.req_str("qid") {
            Ok(qid) => Ok(AdminCall::QuarantineReject { qid }),
            Err(e) => Err(e),
        },
        AdminVerb::KmsRotate => {
            let emergency: bool = match args.opt_bool("emergency") {
                Some(b) => b,
                None => false,
            };
            Ok(AdminCall::KmsRotate { emergency })
        },
        AdminVerb::CongruencePreview => match args.get("payload") {
            Some(p) => Ok(AdminCall::CongruencePreview { payload: p.dup() }),
            None => Err(UcError::schema("congruence preview: missing payload")),
        },
        AdminVerb::CongruenceAccept => {
            let mut entities = args.texts_or_empty("entities");
            assert(text_views(entities@).len() == entities@.len());
            if entities.len() == 0 {
                if let Some(e) = args.opt_str("entity") {
                    entities.push(e);
                    assert(text_views(entities@) =~= seq![e@]);
                }
            }
            assert(text_views(entities@) =~= entities_of(args@));
            if entities.len() == 0 {
                return Err(UcError::schema("congruence accept: missing entity or entities"));
            }
            Ok(AdminCall::CongruenceAccept { entities })
        },
        AdminVerb::ContractPlan => read_plan(&args),
        AdminVerb::ContractVerify => match args.req_str("schema_id") {
            Ok(schema) => Ok(AdminCall::ContractVerify { schema }),
            Err(e) => Err(e),
        },
        AdminVerb::ContractApply => match args.req_str("schema_id") {
            Ok(schema) => Ok(AdminCall::ContractApply { schema }),
            Err(e) => Err(e),
        },
        AdminVerb::CrossCheckTail => {
            let n: u64 = match args.opt_u64("n") {
                Some(n) => n,
                None => 20,
            };
            Ok(AdminCall::CrossCheckTail { n })
        },
        AdminVerb::Resolve => match args.req_str("handle") {
            Ok(handle) => {
                let uphold_auditor: bool = match args.opt_bool("uphold_auditor") {
                    Some(b) => b,
                    None => false,
                };
                Ok(AdminCall::Resolve { handle, uphold_auditor })
            },
            Err(e) => Err(e),
        },
        verb => Ok(AdminCall::Plain { verb }),
    }
}

/// A text with underscores for blanks.
pub open spec fn underscored(s: Seq<char>) -> Seq<char> {
    s.map_values(
        |c: char|
            if c == ' ' {
                '_'
            } else {
                c
            },
    )
}

/// Counts a request under its verb.
pub fn count_verb(metrics: &mut Metrics, verb: &str)
    ensures
        final(metrics)@ == old(metrics)@.noted("admin."@ + underscored(verb@)),
{
    let chars = chars_of(verb);
    let mut out: Vec<char> = Vec::new();
    let mut i: usize = 0;
    assert(out@ =~= underscored(chars@).take(0));
    while i < chars.len()
        invariant
            i <= chars@.len(),
            out@ == underscored(chars@).take(i as int),
        decreases chars.len() - i,
    {
        let c: char = chars[i];
        let d: char = if c == ' ' { '_' } else { c };
        let ghost before = out@;
        out.push(d);
        assert(underscored(chars@)[i as int] == d);
        i += 1;
        assert(underscored(chars@).take(i as int) =~= underscored(chars@).take(i - 1).push(d));
    }
    assert(underscored(chars@).take(i as int) =~= underscored(chars@));
    metrics.inc(cat2("admin.", string_of(out.as_slice()).as_str()).as_str());
}

/// What a node says of itself.
#[derive(Debug)]
pub struct StatusReply {
    pub node_id: String,
    pub logical_at: u64,
    pub shards: u64,
    pub trinity_topology: ShardTopology,
    pub curator_topology: ShardTopology,
    pub quarantine_pending: u64,
    pub librarian_pending: u64,
    pub librarian_active: u64,
    pub librarian_quarantined: u64,
}

/// A status as a mathematical object.
#[verifier::ext_equal]
pub struct StatusReplyV {
    pub node_id: Seq<char>,
    pub logical_at: u64,
    pub shards: u64,
    pub trinity_topology: ShardTopology,
    pub curator_topology: ShardTopology,
    pub quarantine_pending: u64,
    pub librarian_pending: u64,
    pub librarian_active: u64,
    pub librarian_quarantined: u64,
}

impl DeepView for StatusReply {
    type V = StatusReplyV;

    open spec fn deep_view(&self) -> StatusReplyV {
        StatusReplyV {
            node_id: self.node_id@,
            logical_at: self.logical_at,
            shards: self.shards,
            trinity_topology: self.trinity_topology,
            curator_topology: self.curator_topology,
            quarantine_pending: self.quarantine_pending,
            librarian_pending: self.librarian_pending,
            librarian_active: self.librarian_active,
            librarian_quarantined: self.librarian_quarantined,
        }
    }
}

impl StatusReplyV {
    /// The encoded form of a status.
    pub open spec fn value(self) -> CborV {
        map_value(
            seq![
                ("node_id"@, CborV::Text(self.node_id)),
                ("logical_at"@, CborV::U64(self.logical_at)),
                ("shards"@, CborV::U64(self.shards)),
                ("trinity_topology"@, CborV::Text(self.trinity_topology.name())),
                ("curator_topology"@, CborV::Text(self.curator_topology.name())),
                ("quarantine_pending"@, CborV::U64(self.quarantine_pending)),
                ("librarian_pending"@, CborV::U64(self.librarian_pending)),
                ("librarian_active"@, CborV::U64(self.librarian_active)),
                ("librarian_quarantined"@, CborV::U64(self.librarian_quarantined)),
            ],
        )
    }

}

impl StatusReply {
    pub fn reply(&self) -> (r: Cbor)
        ensures
            r@ == self.deep_view().value(),
    {
        let pairs = vec![
            ("node_id", Cbor::t(self.node_id.as_str())),
            ("logical_at", Cbor::U64(self.logical_at)),
            ("shards", Cbor::U64(self.shards)),
            ("trinity_topology", Cbor::t(self.trinity_topology.as_str())),
            ("curator_topology", Cbor::t(self.curator_topology.as_str())),
            ("quarantine_pending", Cbor::U64(self.quarantine_pending)),
            ("librarian_pending", Cbor::U64(self.librarian_pending)),
            ("librarian_active", Cbor::U64(self.librarian_active)),
            ("librarian_quarantined", Cbor::U64(self.librarian_quarantined)),
        ];
        let ghost want = seq![
            ("node_id"@, CborV::Text(self.node_id@)),
            ("logical_at"@, CborV::U64(self.logical_at)),
            ("shards"@, CborV::U64(self.shards)),
            ("trinity_topology"@, CborV::Text(self.trinity_topology.name())),
            ("curator_topology"@, CborV::Text(self.curator_topology.name())),
            ("quarantine_pending"@, CborV::U64(self.quarantine_pending)),
            ("librarian_pending"@, CborV::U64(self.librarian_pending)),
            ("librarian_active"@, CborV::U64(self.librarian_active)),
            ("librarian_quarantined"@, CborV::U64(self.librarian_quarantined)),
        ];
        assert(Seq::new(pairs@.len(), |i: int| (pairs@[i].0@, pairs@[i].1@)) =~= want);
        Cbor::map(pairs)
    }
}

/// What a snapshot cost.
#[derive(Debug)]
pub struct SnapshotReply {
    pub snapshot: String,
    pub cells: u64,
    pub pause_us: u64,
    pub total_us: u64,
    pub pause_target_us: u64,
    pub capture_us: u64,
    pub hash_us: u64,
    pub write_us: u64,
    pub manifest_us: u64,
    pub within_target: bool,
}

/// A snapshot's cost as a mathematical object.
#[verifier::ext_equal]
pub struct SnapshotReplyV {
    pub snapshot: Seq<char>,
    pub cells: u64,
    pub pause_us: u64,
    pub total_us: u64,
    pub pause_target_us: u64,
    pub capture_us: u64,
    pub hash_us: u64,
    pub write_us: u64,
    pub manifest_us: u64,
    pub within_target: bool,
}

impl DeepView for SnapshotReply {
    type V = SnapshotReplyV;

    open spec fn deep_view(&self) -> SnapshotReplyV {
        SnapshotReplyV {
            snapshot: self.snapshot@,
            cells: self.cells,
            pause_us: self.pause_us,
            total_us: self.total_us,
            pause_target_us: self.pause_target_us,
            capture_us: self.capture_us,
            hash_us: self.hash_us,
            write_us: self.write_us,
            manifest_us: self.manifest_us,
            within_target: self.within_target,
        }
    }
}

impl SnapshotReplyV {
    /// The encoded form of a snapshot's cost.
    pub open spec fn value(self) -> CborV {
        map_value(
            seq![
                ("snapshot"@, CborV::Text(self.snapshot)),
                ("cells"@, CborV::U64(self.cells)),
                ("pause_us"@, CborV::U64(self.pause_us)),
                ("total_us"@, CborV::U64(self.total_us)),
                ("pause_target_us"@, CborV::U64(self.pause_target_us)),
                ("capture_us"@, CborV::U64(self.capture_us)),
                ("hash_us"@, CborV::U64(self.hash_us)),
                ("write_us"@, CborV::U64(self.write_us)),
                ("manifest_us"@, CborV::U64(self.manifest_us)),
                ("within_target"@, CborV::Bool(self.within_target)),
            ],
        )
    }

}

impl SnapshotReply {
    pub fn reply(&self) -> (r: Cbor)
        ensures
            r@ == self.deep_view().value(),
    {
        let pairs = vec![
            ("snapshot", Cbor::t(self.snapshot.as_str())),
            ("cells", Cbor::U64(self.cells)),
            ("pause_us", Cbor::U64(self.pause_us)),
            ("total_us", Cbor::U64(self.total_us)),
            ("pause_target_us", Cbor::U64(self.pause_target_us)),
            ("capture_us", Cbor::U64(self.capture_us)),
            ("hash_us", Cbor::U64(self.hash_us)),
            ("write_us", Cbor::U64(self.write_us)),
            ("manifest_us", Cbor::U64(self.manifest_us)),
            ("within_target", Cbor::Bool(self.within_target)),
        ];
        let ghost want = seq![
            ("snapshot"@, CborV::Text(self.snapshot@)),
            ("cells"@, CborV::U64(self.cells)),
            ("pause_us"@, CborV::U64(self.pause_us)),
            ("total_us"@, CborV::U64(self.total_us)),
            ("pause_target_us"@, CborV::U64(self.pause_target_us)),
            ("capture_us"@, CborV::U64(self.capture_us)),
            ("hash_us"@, CborV::U64(self.hash_us)),
            ("write_us"@, CborV::U64(self.write_us)),
            ("manifest_us"@, CborV::U64(self.manifest_us)),
            ("within_target"@, CborV::Bool(self.within_target)),
        ];
        assert(Seq::new(pairs@.len(), |i: int| (pairs@[i].0@, pairs@[i].1@)) =~= want);
        Cbor::map(pairs)
    }
}

/// What was absorbed.
#[derive(Debug)]
pub struct QuarantineItem {
    pub qid: String,
    pub cause: String,
    pub detail: String,
    pub status: String,
    pub absorbed_at: u64,
}

/// An absorbed item as a mathematical object.
#[verifier::ext_equal]
pub struct QuarantineItemV {
    pub qid: Seq<char>,
    pub cause: Seq<char>,
    pub detail: Seq<char>,
    pub status: Seq<char>,
    pub absorbed_at: u64,
}

impl DeepView for QuarantineItem {
    type V = QuarantineItemV;

    open spec fn deep_view(&self) -> QuarantineItemV {
        QuarantineItemV {
            qid: self.qid@,
            cause: self.cause@,
            detail: self.detail@,
            status: self.status@,
            absorbed_at: self.absorbed_at,
        }
    }
}

impl QuarantineItemV {
    /// The encoded form of an absorbed item.
    pub open spec fn value(self) -> CborV {
        map_value(
            seq![
                ("qid"@, CborV::Text(self.qid)),
                ("cause"@, CborV::Text(self.cause)),
                ("detail"@, CborV::Text(self.detail)),
                ("status"@, CborV::Text(self.status)),
                ("absorbed_at"@, CborV::U64(self.absorbed_at)),
            ],
        )
    }

}

impl QuarantineItem {
    pub fn reply(&self) -> (r: Cbor)
        ensures
            r@ == self.deep_view().value(),
    {
        let pairs = vec![
            ("qid", Cbor::t(self.qid.as_str())),
            ("cause", Cbor::t(self.cause.as_str())),
            ("detail", Cbor::t(self.detail.as_str())),
            ("status", Cbor::t(self.status.as_str())),
            ("absorbed_at", Cbor::U64(self.absorbed_at)),
        ];
        let ghost want = seq![
            ("qid"@, CborV::Text(self.qid@)),
            ("cause"@, CborV::Text(self.cause@)),
            ("detail"@, CborV::Text(self.detail@)),
            ("status"@, CborV::Text(self.status@)),
            ("absorbed_at"@, CborV::U64(self.absorbed_at)),
        ];
        assert(Seq::new(pairs@.len(), |i: int| (pairs@[i].0@, pairs@[i].1@)) =~= want);
        Cbor::map(pairs)
    }
}

/// A known gap.
#[derive(Debug)]
pub struct GapItem {
    pub gap_id: String,
    pub state: String,
    pub description: String,
    pub dispatches_since_transition: u64,
}

/// A gap as a mathematical object.
#[verifier::ext_equal]
pub struct GapItemV {
    pub gap_id: Seq<char>,
    pub state: Seq<char>,
    pub description: Seq<char>,
    pub dispatches_since_transition: u64,
}

impl DeepView for GapItem {
    type V = GapItemV;

    open spec fn deep_view(&self) -> GapItemV {
        GapItemV {
            gap_id: self.gap_id@,
            state: self.state@,
            description: self.description@,
            dispatches_since_transition: self.dispatches_since_transition,
        }
    }
}

impl GapItemV {
    /// The encoded form of a gap.
    pub open spec fn value(self) -> CborV {
        map_value(
            seq![
                ("gap_id"@, CborV::Text(self.gap_id)),
                ("state"@, CborV::Text(self.state)),
                ("description"@, CborV::Text(self.description)),
                ("dispatches_since_transition"@, CborV::U64(self.dispatches_since_transition)),
            ],
        )
    }

}

impl GapItem {
    pub fn reply(&self) -> (r: Cbor)
        ensures
            r@ == self.deep_view().value(),
    {
        let pairs = vec![
            ("gap_id", Cbor::t(self.gap_id.as_str())),
            ("state", Cbor::t(self.state.as_str())),
            ("description", Cbor::t(self.description.as_str())),
            ("dispatches_since_transition", Cbor::U64(self.dispatches_since_transition)),
        ];
        let ghost want = seq![
            ("gap_id"@, CborV::Text(self.gap_id@)),
            ("state"@, CborV::Text(self.state@)),
            ("description"@, CborV::Text(self.description@)),
            ("dispatches_since_transition"@, CborV::U64(self.dispatches_since_transition)),
        ];
        assert(Seq::new(pairs@.len(), |i: int| (pairs@[i].0@, pairs@[i].1@)) =~= want);
        Cbor::map(pairs)
    }
}

/// How the chain and the signatures stand.
#[derive(Debug)]
pub struct AuditReply {
    pub records: u64,
    pub intact: bool,
    pub cross_check_batches_expected: u64,
    pub cross_check_batches_verified: u64,
    pub cross_check_signatures_intact: bool,
}

/// The state of the chain as a mathematical object.
#[verifier::ext_equal]
pub struct AuditReplyV {
    pub records: u64,
    pub intact: bool,
    pub cross_check_batches_expected: u64,
    pub cross_check_batches_verified: u64,
    pub cross_check_signatures_intact: bool,
}

impl DeepView for AuditReply {
    type V = AuditReplyV;

    open spec fn deep_view(&self) -> AuditReplyV {
        AuditReplyV {
            records: self.records,
            intact: self.intact,
            cross_check_batches_expected: self.cross_check_batches_expected,
            cross_check_batches_verified: self.cross_check_batches_verified,
            cross_check_signatures_intact: self.cross_check_signatures_intact,
        }
    }
}

impl AuditReplyV {
    /// The encoded form of the state of the chain.
    pub open spec fn value(self) -> CborV {
        map_value(
            seq![
                ("records"@, CborV::U64(self.records)),
                ("intact"@, CborV::Bool(self.intact)),
                ("cross_check_batches_expected"@, CborV::U64(self.cross_check_batches_expected)),
                ("cross_check_batches_verified"@, CborV::U64(self.cross_check_batches_verified)),
                ("cross_check_signatures_intact"@, CborV::Bool(self.cross_check_signatures_intact)),
            ],
        )
    }

}

impl AuditReply {
    pub fn reply(&self) -> (r: Cbor)
        ensures
            r@ == self.deep_view().value(),
    {
        let pairs = vec![
            ("records", Cbor::U64(self.records)),
            ("intact", Cbor::Bool(self.intact)),
            ("cross_check_batches_expected", Cbor::U64(self.cross_check_batches_expected)),
            ("cross_check_batches_verified", Cbor::U64(self.cross_check_batches_verified)),
            ("cross_check_signatures_intact", Cbor::Bool(self.cross_check_signatures_intact)),
        ];
        let ghost want = seq![
            ("records"@, CborV::U64(self.records)),
            ("intact"@, CborV::Bool(self.intact)),
            ("cross_check_batches_expected"@, CborV::U64(self.cross_check_batches_expected)),
            ("cross_check_batches_verified"@, CborV::U64(self.cross_check_batches_verified)),
            ("cross_check_signatures_intact"@, CborV::Bool(self.cross_check_signatures_intact)),
        ];
        assert(Seq::new(pairs@.len(), |i: int| (pairs@[i].0@, pairs@[i].1@)) =~= want);
        Cbor::map(pairs)
    }
}

/// How the keys stand.
#[derive(Debug)]
pub struct KmsStatusReply {
    pub tier: EncryptionTier,
    pub custody_path: Option<String>,
    pub active_key_id: Option<u64>,
    pub key_versions: u64,
    pub last_rotated_at: Option<u64>,
    pub rotation_interval_ops: Option<u64>,
    pub next_due_at: Option<u64>,
    pub overdue: bool,
}

/// The state of the keys as a mathematical object.
#[verifier::ext_equal]
pub struct KmsStatusReplyV {
    pub tier: EncryptionTier,
    pub custody_path: Option<Seq<char>>,
    pub active_key_id: Option<u64>,
    pub key_versions: u64,
    pub last_rotated_at: Option<u64>,
    pub rotation_interval_ops: Option<u64>,
    pub next_due_at: Option<u64>,
    pub overdue: bool,
}

impl DeepView for KmsStatusReply {
    type V = KmsStatusReplyV;

    open spec fn deep_view(&self) -> KmsStatusReplyV {
        KmsStatusReplyV {
            tier: self.tier,
            custody_path: self.custody_path.deep_view(),
            active_key_id: self.active_key_id,
            key_versions: self.key_versions,
            last_rotated_at: self.last_rotated_at,
            rotation_interval_ops: self.rotation_interval_ops,
            next_due_at: self.next_due_at,
            overdue: self.overdue,
        }
    }
}

impl KmsStatusReplyV {
    /// The encoded form of the state of the keys.
    pub open spec fn value(self) -> CborV {
        map_value(
            seq![
                ("tier"@, CborV::Text(self.tier.name())),
                ("custody_path"@, opt_text_value(self.custody_path)),
                ("active_key_id"@, opt_u64_value(self.active_key_id)),
                ("key_versions"@, CborV::U64(self.key_versions)),
                ("last_rotated_at"@, opt_u64_value(self.last_rotated_at)),
                ("rotation_interval_ops"@, opt_u64_value(self.rotation_interval_ops)),
                ("next_due_at"@, opt_u64_value(self.next_due_at)),
                ("overdue"@, CborV::Bool(self.overdue)),
            ],
        )
    }

}

impl KmsStatusReply {
    pub fn reply(&self) -> (r: Cbor)
        ensures
            r@ == self.deep_view().value(),
    {
        let pairs = vec![
            ("tier", Cbor::t(self.tier.as_str())),
            ("custody_path", Cbor::opt_text(&self.custody_path)),
            ("active_key_id", Cbor::maybe_u64(self.active_key_id)),
            ("key_versions", Cbor::U64(self.key_versions)),
            ("last_rotated_at", Cbor::maybe_u64(self.last_rotated_at)),
            ("rotation_interval_ops", Cbor::maybe_u64(self.rotation_interval_ops)),
            ("next_due_at", Cbor::maybe_u64(self.next_due_at)),
            ("overdue", Cbor::Bool(self.overdue)),
        ];
        let ghost want = seq![
            ("tier"@, CborV::Text(self.tier.name())),
            ("custody_path"@, opt_text_value(self.custody_path.deep_view())),
            ("active_key_id"@, opt_u64_value(self.active_key_id)),
            ("key_versions"@, CborV::U64(self.key_versions)),
            ("last_rotated_at"@, opt_u64_value(self.last_rotated_at)),
            ("rotation_interval_ops"@, opt_u64_value(self.rotation_interval_ops)),
            ("next_due_at"@, opt_u64_value(self.next_due_at)),
            ("overdue"@, CborV::Bool(self.overdue)),
        ];
        assert(Seq::new(pairs@.len(), |i: int| (pairs@[i].0@, pairs@[i].1@)) =~= want);
        Cbor::map(pairs)
    }
}

/// A rotation that was done and audited.
#[derive(Debug)]
pub struct KmsRotateReply {
    pub tier: EncryptionTier,
    pub previous_key_id: u64,
    pub active_key_id: u64,
    pub logical_at: u64,
    pub emergency: bool,
    pub next_due_at: Option<u64>,
    pub audited: bool,
}

/// A rotation as a mathematical object.
#[verifier::ext_equal]
pub struct KmsRotateReplyV {
    pub tier: EncryptionTier,
    pub previous_key_id: u64,
    pub active_key_id: u64,
    pub logical_at: u64,
    pub emergency: bool,
    pub next_due_at: Option<u64>,
    pub audited: bool,
}

impl DeepView for KmsRotateReply {
    type V = KmsRotateReplyV;

    open spec fn deep_view(&self) -> KmsRotateReplyV {
        KmsRotateReplyV {
            tier: self.tier,
            previous_key_id: self.previous_key_id,
            active_key_id: self.active_key_id,
            logical_at: self.logical_at,
            emergency: self.emergency,
            next_due_at: self.next_due_at,
            audited: self.audited,
        }
    }
}

impl KmsRotateReplyV {
    /// The encoded form of a rotation.
    pub open spec fn value(self) -> CborV {
        map_value(
            seq![
                ("tier"@, CborV::Text(self.tier.name())),
                ("previous_key_id"@, CborV::U64(self.previous_key_id)),
                ("active_key_id"@, CborV::U64(self.active_key_id)),
                ("logical_at"@, CborV::U64(self.logical_at)),
                ("emergency"@, CborV::Bool(self.emergency)),
                ("next_due_at"@, opt_u64_value(self.next_due_at)),
                ("audited"@, CborV::Bool(self.audited)),
            ],
        )
    }

}

impl KmsRotateReply {
    pub fn reply(&self) -> (r: Cbor)
        ensures
            r@ == self.deep_view().value(),
    {
        let pairs = vec![
            ("tier", Cbor::t(self.tier.as_str())),
            ("previous_key_id", Cbor::U64(self.previous_key_id)),
            ("active_key_id", Cbor::U64(self.active_key_id)),
            ("logical_at", Cbor::U64(self.logical_at)),
            ("emergency", Cbor::Bool(self.emergency)),
            ("next_due_at", Cbor::maybe_u64(self.next_due_at)),
            ("audited", Cbor::Bool(self.audited)),
        ];
        let ghost want = seq![
            ("tier"@, CborV::Text(self.tier.name())),
            ("previous_key_id"@, CborV::U64(self.previous_key_id)),
            ("active_key_id"@, CborV::U64(self.active_key_id)),
            ("logical_at"@, CborV::U64(self.logical_at)),
            ("emergency"@, CborV::Bool(self.emergency)),
            ("next_due_at"@, opt_u64_value(self.next_due_at)),
            ("audited"@, CborV::Bool(self.audited)),
        ];
        assert(Seq::new(pairs@.len(), |i: int| (pairs@[i].0@, pairs@[i].1@)) =~= want);
        Cbor::map(pairs)
    }
}

/// What a namespace is granted.
#[derive(Debug)]
pub struct BudgetItem {
    pub namespace: String,
    pub grant: u64,
}

/// A grant as a mathematical object.
#[verifier::ext_equal]
pub struct BudgetItemV {
    pub namespace: Seq<char>,
    pub grant: u64,
}

impl DeepView for BudgetItem {
    type V = BudgetItemV;

    open spec fn deep_view(&self) -> BudgetItemV {
        BudgetItemV {
            namespace: self.namespace@,
            grant: self.grant,
        }
    }
}

impl BudgetItemV {
    /// The encoded form of a grant.
    pub open spec fn value(self) -> CborV {
        map_value(
            seq![
                ("namespace"@, CborV::Text(self.namespace)),
                ("grant"@, CborV::U64(self.grant)),
            ],
        )
    }

}

impl BudgetItem {
    pub fn reply(&self) -> (r: Cbor)
        ensures
            r@ == self.deep_view().value(),
    {
        let pairs = vec![
            ("namespace", Cbor::t(self.namespace.as_str())),
            ("grant", Cbor::U64(self.grant)),
        ];
        let ghost want = seq![
            ("namespace"@, CborV::Text(self.namespace@)),
            ("grant"@, CborV::U64(self.grant)),
        ];
        assert(Seq::new(pairs@.len(), |i: int| (pairs@[i].0@, pairs@[i].1@)) =~= want);
        Cbor::map(pairs)
    }
}

/// A registered schema.
#[derive(Debug)]
pub struct ContractItem {
    pub schema_id: String,
    pub required: Vec<String>,
    pub deprecated: bool,
    pub superseded_by: Option<String>,
    pub migration_plan_handle: Option<String>,
    pub decision_handle: Option<String>,
    pub deprecated_after: Option<u64>,
    pub migration_applied_at: Option<u64>,
}

/// A schema as a mathematical object.
#[verifier::ext_equal]
pub struct ContractItemV {
    pub schema_id: Seq<char>,
    pub required: Seq<Seq<char>>,
    pub deprecated: bool,
    pub superseded_by: Option<Seq<char>>,
    pub migration_plan_handle: Option<Seq<char>>,
    pub decision_handle: Option<Seq<char>>,
    pub deprecated_after: Option<u64>,
    pub migration_applied_at: Option<u64>,
}

impl DeepView for ContractItem {
    type V = ContractItemV;

    open spec fn deep_view(&self) -> ContractItemV {
        ContractItemV {
            schema_id: self.schema_id@,
            required: text_views(self.required@),
            deprecated: self.deprecated,
            superseded_by: self.superseded_by.deep_view(),
            migration_plan_handle: self.migration_plan_handle.deep_view(),
            decision_handle: self.decision_handle.deep_view(),
            deprecated_after: self.deprecated_after,
            migration_applied_at: self.migration_applied_at,
        }
    }
}

impl ContractItemV {
    /// The encoded form of a schema.
    pub open spec fn value(self) -> CborV {
        map_value(
            seq![
                ("schema_id"@, CborV::Text(self.schema_id)),
                ("required"@, texts_value(self.required)),
                ("deprecated"@, CborV::Bool(self.deprecated)),
                ("superseded_by"@, opt_text_value(self.superseded_by)),
                ("migration_plan_handle"@, opt_text_value(self.migration_plan_handle)),
                ("decision_handle"@, opt_text_value(self.decision_handle)),
                ("deprecated_after"@, opt_u64_value(self.deprecated_after)),
                ("migration_applied_at"@, opt_u64_value(self.migration_applied_at)),
            ],
        )
    }

}

impl ContractItem {
    pub fn reply(&self) -> (r: Cbor)
        ensures
            r@ == self.deep_view().value(),
    {
        let pairs = vec![
            ("schema_id", Cbor::t(self.schema_id.as_str())),
            ("required", Cbor::text_array(self.required.as_slice())),
            ("deprecated", Cbor::Bool(self.deprecated)),
            ("superseded_by", Cbor::opt_text(&self.superseded_by)),
            ("migration_plan_handle", Cbor::opt_text(&self.migration_plan_handle)),
            ("decision_handle", Cbor::opt_text(&self.decision_handle)),
            ("deprecated_after", Cbor::maybe_u64(self.deprecated_after)),
            ("migration_applied_at", Cbor::maybe_u64(self.migration_applied_at)),
        ];
        let ghost want = seq![
            ("schema_id"@, CborV::Text(self.schema_id@)),
            ("required"@, texts_value(text_views(self.required@))),
            ("deprecated"@, CborV::Bool(self.deprecated)),
            ("superseded_by"@, opt_text_value(self.superseded_by.deep_view())),
            ("migration_plan_handle"@, opt_text_value(self.migration_plan_handle.deep_view())),
            ("decision_handle"@, opt_text_value(self.decision_handle.deep_view())),
            ("deprecated_after"@, opt_u64_value(self.deprecated_after)),
            ("migration_applied_at"@, opt_u64_value(self.migration_applied_at)),
        ];
        assert(Seq::new(pairs@.len(), |i: int| (pairs@[i].0@, pairs@[i].1@)) =~= want);
        Cbor::map(pairs)
    }
}

/// How the curators stand.
#[derive(Debug)]
pub struct CuratorStatusReply {
    pub librarian_pending: u64,
    pub librarian_active: u64,
    pub librarian_quarantined: u64,
    pub warden_audits: u64,
    pub librarian_model: String,
    pub warden_model: String,
    pub librarian_backend: String,
    pub warden_backend: String,
    pub strict_model_pins: bool,
    pub agreement_rate: Option<u64>,
    pub rationale_access_denied: u64,
    pub probe_missed: u64,
    pub probe_rate: u64,
    pub probe_boost_on_suspicious: u64,
    pub kv_budget_profile: CuratorKvBudgetProfile,
    pub librarian_kv_cache_mib: u64,
    pub warden_kv_cache_mib: u64,
    pub adjudicator_kv_cache_mib: u64,
    pub total_kv_cache_mib: u64,
    pub topology: ShardTopology,
    pub blind_reaudit_rate: u64,
    pub cross_check_retention_policy: String,
    pub calibration_window: u64,
    pub high_band_floor: u64,
    pub medium_band_floor: u64,
    pub degraded: bool,
}

/// The state of the curators as a mathematical object.
#[verifier::ext_equal]
pub struct CuratorStatusReplyV {
    pub librarian_pending: u64,
    pub librarian_active: u64,
    pub librarian_quarantined: u64,
    pub warden_audits: u64,
    pub librarian_model: Seq<char>,
    pub warden_model: Seq<char>,
    pub librarian_backend: Seq<char>,
    pub warden_backend: Seq<char>,
    pub strict_model_pins: bool,
    pub agreement_rate: Option<u64>,
    pub rationale_access_denied: u64,
    pub probe_missed: u64,
    pub probe_rate: u64,
    pub probe_boost_on_suspicious: u64,
    pub kv_budget_profile: CuratorKvBudgetProfile,
    pub librarian_kv_cache_mib: u64,
    pub warden_kv_cache_mib: u64,
    pub adjudicator_kv_cache_mib: u64,
    pub total_kv_cache_mib: u64,
    pub topology: ShardTopology,
    pub blind_reaudit_rate: u64,
    pub cross_check_retention_policy: Seq<char>,
    pub calibration_window: u64,
    pub high_band_floor: u64,
    pub medium_band_floor: u64,
    pub degraded: bool,
}

impl DeepView for CuratorStatusReply {
    type V = CuratorStatusReplyV;

    open spec fn deep_view(&self) -> CuratorStatusReplyV {
        CuratorStatusReplyV {
            librarian_pending: self.librarian_pending,
            librarian_active: self.librarian_active,
            librarian_quarantined: self.librarian_quarantined,
            warden_audits: self.warden_audits,
            librarian_model: self.librarian_model@,
            warden_model: self.warden_model@,
            librarian_backend: self.librarian_backend@,
            warden_backend: self.warden_backend@,
            strict_model_pins: self.strict_model_pins,
            agreement_rate: self.agreement_rate,
            rationale_access_denied: self.rationale_access_denied,
            probe_missed: self.probe_missed,
            probe_rate: self.probe_rate,
            probe_boost_on_suspicious: self.probe_boost_on_suspicious,
            kv_budget_profile: self.kv_budget_profile,
            librarian_kv_cache_mib: self.librarian_kv_cache_mib,
            warden_kv_cache_mib: self.warden_kv_cache_mib,
            adjudicator_kv_cache_mib: self.adjudicator_kv_cache_mib,
            total_kv_cache_mib: self.total_kv_cache_mib,
            topology: self.topology,
            blind_reaudit_rate: self.blind_reaudit_rate,
            cross_check_retention_policy: self.cross_check_retention_policy@,
            calibration_window: self.calibration_window,
            high_band_floor: self.high_band_floor,
            medium_band_floor: self.medium_band_floor,
            degraded: self.degraded,
        }
    }
}

impl CuratorStatusReplyV {
    /// The encoded form of the state of the curators.
    pub open spec fn value(self) -> CborV {
        map_value(
            seq![
                ("librarian_pending"@, CborV::U64(self.librarian_pending)),
                ("librarian_active"@, CborV::U64(self.librarian_active)),
                ("librarian_quarantined"@, CborV::U64(self.librarian_quarantined)),
                ("warden_audits"@, CborV::U64(self.warden_audits)),
                ("librarian_model"@, CborV::Text(self.librarian_model)),
                ("warden_model"@, CborV::Text(self.warden_model)),
                ("librarian_backend"@, CborV::Text(self.librarian_backend)),
                ("warden_backend"@, CborV::Text(self.warden_backend)),
                ("strict_model_pins"@, CborV::Bool(self.strict_model_pins)),
                ("agreement_rate"@, opt_f64_value(self.agreement_rate)),
                ("rationale_access_denied"@, CborV::U64(self.rationale_access_denied)),
                ("probe_missed"@, CborV::U64(self.probe_missed)),
                ("probe_rate"@, CborV::F64(self.probe_rate)),
                ("probe_boost_on_suspicious"@, CborV::F64(self.probe_boost_on_suspicious)),
                ("kv_budget_profile"@, CborV::Text(self.kv_budget_profile.name())),
                ("librarian_kv_cache_mib"@, CborV::U64(self.librarian_kv_cache_mib)),
                ("warden_kv_cache_mib"@, CborV::U64(self.warden_kv_cache_mib)),
                ("adjudicator_kv_cache_mib"@, CborV::U64(self.adjudicator_kv_cache_mib)),
                ("total_kv_cache_mib"@, CborV::U64(self.total_kv_cache_mib)),
                ("topology"@, CborV::Text(self.topology.name())),
                ("blind_reaudit_rate"@, CborV::F64(self.blind_reaudit_rate)),
                ("cross_check_retention_policy"@, CborV::Text(self.cross_check_retention_policy)),
                ("calibration_window"@, CborV::U64(self.calibration_window)),
                ("high_band_floor"@, CborV::F64(self.high_band_floor)),
                ("medium_band_floor"@, CborV::F64(self.medium_band_floor)),
                ("degraded"@, CborV::Bool(self.degraded)),
            ],
        )
    }

}

impl CuratorStatusReply {
    pub fn reply(&self) -> (r: Cbor)
        ensures
            r@ == self.deep_view().value(),
    {
        let pairs = vec![
            ("librarian_pending", Cbor::U64(self.librarian_pending)),
            ("librarian_active", Cbor::U64(self.librarian_active)),
            ("librarian_quarantined", Cbor::U64(self.librarian_quarantined)),
            ("warden_audits", Cbor::U64(self.warden_audits)),
            ("librarian_model", Cbor::t(self.librarian_model.as_str())),
            ("warden_model", Cbor::t(self.warden_model.as_str())),
            ("librarian_backend", Cbor::t(self.librarian_backend.as_str())),
            ("warden_backend", Cbor::t(self.warden_backend.as_str())),
            ("strict_model_pins", Cbor::Bool(self.strict_model_pins)),
            ("agreement_rate", Cbor::maybe_f64(self.agreement_rate)),
            ("rationale_access_denied", Cbor::U64(self.rationale_access_denied)),
            ("probe_missed", Cbor::U64(self.probe_missed)),
            ("probe_rate", Cbor::f(self.probe_rate)),
            ("probe_boost_on_suspicious", Cbor::f(self.probe_boost_on_suspicious)),
            ("kv_budget_profile", Cbor::t(self.kv_budget_profile.as_str())),
            ("librarian_kv_cache_mib", Cbor::U64(self.librarian_kv_cache_mib)),
            ("warden_kv_cache_mib", Cbor::U64(self.warden_kv_cache_mib)),
            ("adjudicator_kv_cache_mib", Cbor::U64(self.adjudicator_kv_cache_mib)),
            ("total_kv_cache_mib", Cbor::U64(self.total_kv_cache_mib)),
            ("topology", Cbor::t(self.topology.as_str())),
            ("blind_reaudit_rate", Cbor::f(self.blind_reaudit_rate)),
            ("cross_check_retention_policy", Cbor::t(self.cross_check_retention_policy.as_str())),
            ("calibration_window", Cbor::U64(self.calibration_window)),
            ("high_band_floor", Cbor::f(self.high_band_floor)),
            ("medium_band_floor", Cbor::f(self.medium_band_floor)),
            ("degraded", Cbor::Bool(self.degraded)),
        ];
        let ghost want = seq![
            ("librarian_pending"@, CborV::U64(self.librarian_pending)),
            ("librarian_active"@, CborV::U64(self.librarian_active)),
            ("librarian_quarantined"@, CborV::U64(self.librarian_quarantined)),
            ("warden_audits"@, CborV::U64(self.warden_audits)),
            ("librarian_model"@, CborV::Text(self.librarian_model@)),
            ("warden_model"@, CborV::Text(self.warden_model@)),
            ("librarian_backend"@, CborV::Text(self.librarian_backend@)),
            ("warden_backend"@, CborV::Text(self.warden_backend@)),
            ("strict_model_pins"@, CborV::Bool(self.strict_model_pins)),
            ("agreement_rate"@, opt_f64_value(self.agreement_rate)),
            ("rationale_access_denied"@, CborV::U64(self.rationale_access_denied)),
            ("probe_missed"@, CborV::U64(self.probe_missed)),
            ("probe_rate"@, CborV::F64(self.probe_rate)),
            ("probe_boost_on_suspicious"@, CborV::F64(self.probe_boost_on_suspicious)),
            ("kv_budget_profile"@, CborV::Text(self.kv_budget_profile.name())),
            ("librarian_kv_cache_mib"@, CborV::U64(self.librarian_kv_cache_mib)),
            ("warden_kv_cache_mib"@, CborV::U64(self.warden_kv_cache_mib)),
            ("adjudicator_kv_cache_mib"@, CborV::U64(self.adjudicator_kv_cache_mib)),
            ("total_kv_cache_mib"@, CborV::U64(self.total_kv_cache_mib)),
            ("topology"@, CborV::Text(self.topology.name())),
            ("blind_reaudit_rate"@, CborV::F64(self.blind_reaudit_rate)),
            ("cross_check_retention_policy"@, CborV::Text(self.cross_check_retention_policy@)),
            ("calibration_window"@, CborV::U64(self.calibration_window)),
            ("high_band_floor"@, CborV::F64(self.high_band_floor)),
            ("medium_band_floor"@, CborV::F64(self.medium_band_floor)),
            ("degraded"@, CborV::Bool(self.degraded)),
        ];
        assert(Seq::new(pairs@.len(), |i: int| (pairs@[i].0@, pairs@[i].1@)) =~= want);
        Cbor::map(pairs)
    }
}

/// Whether a model's weights are the pinned ones.
#[derive(Debug)]
pub struct WeightItem {
    pub model: String,
    pub verified: bool,
}

/// A model's weights as a mathematical object.
#[verifier::ext_equal]
pub struct WeightItemV {
    pub model: Seq<char>,
    pub verified: bool,
}

impl DeepView for WeightItem {
    type V = WeightItemV;

    open spec fn deep_view(&self) -> WeightItemV {
        WeightItemV {
            model: self.model@,
            verified: self.verified,
        }
    }
}

impl WeightItemV {
    /// The encoded form of a model's weights.
    pub open spec fn value(self) -> CborV {
        map_value(
            seq![
                ("model"@, CborV::Text(self.model)),
                ("verified"@, CborV::Bool(self.verified)),
            ],
        )
    }

}

impl WeightItem {
    pub fn reply(&self) -> (r: Cbor)
        ensures
            r@ == self.deep_view().value(),
    {
        let pairs = vec![
            ("model", Cbor::t(self.model.as_str())),
            ("verified", Cbor::Bool(self.verified)),
        ];
        let ghost want = seq![
            ("model"@, CborV::Text(self.model@)),
            ("verified"@, CborV::Bool(self.verified)),
        ];
        assert(Seq::new(pairs@.len(), |i: int| (pairs@[i].0@, pairs@[i].1@)) =~= want);
        Cbor::map(pairs)
    }
}

/// How disputes went.
#[derive(Debug)]
pub struct AdjudicatorReply {
    pub policy: u64,
    pub pool: u64,
    pub human: u64,
    pub queued: u64,
    pub escalations: Vec<String>,
    pub escalation_subscribers: Vec<String>,
}

/// The state of the adjudicator as a mathematical object.
#[verifier::ext_equal]
pub struct AdjudicatorReplyV {
    pub policy: u64,
    pub pool: u64,
    pub human: u64,
    pub queued: u64,
    pub escalations: Seq<Seq<char>>,
    pub escalation_subscribers: Seq<Seq<char>>,
}

impl DeepView for AdjudicatorReply {
    type V = AdjudicatorReplyV;

    open spec fn deep_view(&self) -> AdjudicatorReplyV {
        AdjudicatorReplyV {
            policy: self.policy,
            pool: self.pool,
            human: self.human,
            queued: self.queued,
            escalations: text_views(self.escalations@),
            escalation_subscribers: text_views(self.escalation_subscribers@),
        }
    }
}

impl AdjudicatorReplyV {
    /// The encoded form of the state of the adjudicator.
    pub open spec fn value(self) -> CborV {
        map_value(
            seq![
                ("policy"@, CborV::U64(self.policy)),
                ("pool"@, CborV::U64(self.pool)),
                ("human"@, CborV::U64(self.human)),
                ("queued"@, CborV::U64(self.queued)),
                ("escalations"@, texts_value(self.escalations)),
                ("escalation_subscribers"@, texts_value(self.escalation_subscribers)),
            ],
        )
    }

}

impl AdjudicatorReply {
    pub fn reply(&self) -> (r: Cbor)
        ensures
            r@ == self.deep_view().value(),
    {
        let pairs = vec![
            ("policy", Cbor::U64(self.policy)),
            ("pool", Cbor::U64(self.pool)),
            ("human", Cbor::U64(self.human)),
            ("queued", Cbor::U64(self.queued)),
            ("escalations", Cbor::text_array(self.escalations.as_slice())),
            ("escalation_subscribers", Cbor::text_array(self.escalation_subscribers.as_slice())),
        ];
        let ghost want = seq![
            ("policy"@, CborV::U64(self.policy)),
            ("pool"@, CborV::U64(self.pool)),
            ("human"@, CborV::U64(self.human)),
            ("queued"@, CborV::U64(self.queued)),
            ("escalations"@, texts_value(text_views(self.escalations@))),
            ("escalation_subscribers"@, texts_value(text_views(self.escalation_subscribers@))),
        ];
        assert(Seq::new(pairs@.len(), |i: int| (pairs@[i].0@, pairs@[i].1@)) =~= want);
        Cbor::map(pairs)
    }
}

/// What an export did.
#[derive(Debug)]
pub struct ExportReply {
    pub endpoint: String,
    pub status_code: Option<u64>,
    pub bytes: u64,
    pub skipped: bool,
}

/// An export as a mathematical object.
#[verifier::ext_equal]
pub struct ExportReplyV {
    pub endpoint: Seq<char>,
    pub status_code: Option<u64>,
    pub bytes: u64,
    pub skipped: bool,
}

impl DeepView for ExportReply {
    type V = ExportReplyV;

    open spec fn deep_view(&self) -> ExportReplyV {
        ExportReplyV {
            endpoint: self.endpoint@,
            status_code: self.status_code,
            bytes: self.bytes,
            skipped: self.skipped,
        }
    }
}

impl ExportReplyV {
    /// The encoded form of an export.
    pub open spec fn value(self) -> CborV {
        map_value(
            seq![
                ("endpoint"@, CborV::Text(self.endpoint)),
                ("status_code"@, opt_u64_value(self.status_code)),
                ("bytes"@, CborV::U64(self.bytes)),
                ("skipped"@, CborV::Bool(self.skipped)),
            ],
        )
    }

}

impl ExportReply {
    pub fn reply(&self) -> (r: Cbor)
        ensures
            r@ == self.deep_view().value(),
    {
        let pairs = vec![
            ("endpoint", Cbor::t(self.endpoint.as_str())),
            ("status_code", Cbor::maybe_u64(self.status_code)),
            ("bytes", Cbor::U64(self.bytes)),
            ("skipped", Cbor::Bool(self.skipped)),
        ];
        let ghost want = seq![
            ("endpoint"@, CborV::Text(self.endpoint@)),
            ("status_code"@, opt_u64_value(self.status_code)),
            ("bytes"@, CborV::U64(self.bytes)),
            ("skipped"@, CborV::Bool(self.skipped)),
        ];
        assert(Seq::new(pairs@.len(), |i: int| (pairs@[i].0@, pairs@[i].1@)) =~= want);
        Cbor::map(pairs)
    }
}

/// A single list under a name.
pub open spec fn listed(name: Seq<char>, items: Seq<CborV>) -> CborV {
    map_value(seq![(name, CborV::Array(items))])
}

/// What was absorbed, how long what is settled is kept, and that nothing pending
/// is ever dropped.
pub fn quarantine_reply(items: &Vec<QuarantineItem>, retention: u64) -> (r: Cbor)
    ensures
        r@ == map_value(
            seq![
                (
                    "items"@,
                    CborV::Array(
                        Seq::new(items@.len(), |i: int| items@[i].deep_view().value()),
                    ),
                ),
                ("resolved_retention_logical"@, CborV::U64(retention)),
                ("pending_never_pruned"@, CborV::Bool(true)),
            ],
        ),
{
    let ghost want = Seq::new(items@.len(), |i: int| items@[i].deep_view().value());
    let mut out: Vec<Cbor> = Vec::new();
    let mut i: usize = 0;
    assert(views(out@) =~= want.take(0));
    while i < items.len()
        invariant
            i <= items@.len(),
            want == Seq::new(items@.len(), |i: int| items@[i].deep_view().value()),
            views(out@) == want.take(i as int),
        decreases items.len() - i,
    {
        let ghost before = views(out@);
        let row = items[i].reply();
        out.push(row);
        assert(views(out@) =~= before.push(row@));
        i += 1;
        assert(want.take(i as int) =~= want.take(i - 1).push(want[i - 1]));
    }
    assert(want.take(want.len() as int) =~= want);
    Cbor::map3(
        "items",
        Cbor::arr(out),
        "resolved_retention_logical",
        Cbor::U64(retention),
        "pending_never_pruned",
        Cbor::Bool(true),
    )
}

/// The known gaps.
pub fn gap_reply(items: &Vec<GapItem>) -> (r: Cbor)
    ensures
        r@ == listed(
            "gaps"@,
            Seq::new(items@.len(), |i: int| items@[i].deep_view().value()),
        ),
{
    let ghost want = Seq::new(items@.len(), |i: int| items@[i].deep_view().value());
    let mut out: Vec<Cbor> = Vec::new();
    let mut i: usize = 0;
    assert(views(out@) =~= want.take(0));
    while i < items.len()
        invariant
            i <= items@.len(),
            want == Seq::new(items@.len(), |i: int| items@[i].deep_view().value()),
            views(out@) == want.take(i as int),
        decreases items.len() - i,
    {
        let ghost before = views(out@);
        let row = items[i].reply();
        out.push(row);
        assert(views(out@) =~= before.push(row@));
        i += 1;
        assert(want.take(i as int) =~= want.take(i - 1).push(want[i - 1]));
    }
    assert(want.take(want.len() as int) =~= want);
    Cbor::map1("gaps", Cbor::arr(out))
}

/// The registered schemas.
pub fn contract_reply(items: &Vec<ContractItem>) -> (r: Cbor)
    ensures
        r@ == listed(
            "contracts"@,
            Seq::new(items@.len(), |i: int| items@[i].deep_view().value()),
        ),
{
    let ghost want = Seq::new(items@.len(), |i: int| items@[i].deep_view().value());
    let mut out: Vec<Cbor> = Vec::new();
    let mut i: usize = 0;
    assert(views(out@) =~= want.take(0));
    while i < items.len()
        invariant
            i <= items@.len(),
            want == Seq::new(items@.len(), |i: int| items@[i].deep_view().value()),
            views(out@) == want.take(i as int),
        decreases items.len() - i,
    {
        let ghost before = views(out@);
        let row = items[i].reply();
        out.push(row);
        assert(views(out@) =~= before.push(row@));
        i += 1;
        assert(want.take(i as int) =~= want.take(i - 1).push(want[i - 1]));
    }
    assert(want.take(want.len() as int) =~= want);
    Cbor::map1("contracts", Cbor::arr(out))
}

/// Which weights are the pinned ones.
pub fn weights_reply(items: &Vec<WeightItem>) -> (r: Cbor)
    ensures
        r@ == listed(
            "weights"@,
            Seq::new(items@.len(), |i: int| items@[i].deep_view().value()),
        ),
{
    let ghost want = Seq::new(items@.len(), |i: int| items@[i].deep_view().value());
    let mut out: Vec<Cbor> = Vec::new();
    let mut i: usize = 0;
    assert(views(out@) =~= want.take(0));
    while i < items.len()
        invariant
            i <= items@.len(),
            want == Seq::new(items@.len(), |i: int| items@[i].deep_view().value()),
            views(out@) == want.take(i as int),
        decreases items.len() - i,
    {
        let ghost before = views(out@);
        let row = items[i].reply();
        out.push(row);
        assert(views(out@) =~= before.push(row@));
        i += 1;
        assert(want.take(i as int) =~= want.take(i - 1).push(want[i - 1]));
    }
    assert(want.take(want.len() as int) =~= want);
    Cbor::map1("weights", Cbor::arr(out))
}

/// The usual grant, and the grants by namespace.
pub fn budget_reply(default_grant: u64, items: &Vec<BudgetItem>) -> (r: Cbor)
    ensures
        r@ == map_value(
            seq![
                ("default_grant"@, CborV::U64(default_grant)),
                (
                    "namespace_defaults"@,
                    CborV::Array(
                        Seq::new(items@.len(), |i: int| items@[i].deep_view().value()),
                    ),
                ),
            ],
        ),
{
    let ghost want = Seq::new(items@.len(), |i: int| items@[i].deep_view().value());
    let mut out: Vec<Cbor> = Vec::new();
    let mut i: usize = 0;
    assert(views(out@) =~= want.take(0));
    while i < items.len()
        invariant
            i <= items@.len(),
            want == Seq::new(items@.len(), |i: int| items@[i].deep_view().value()),
            views(out@) == want.take(i as int),
        decreases items.len() - i,
    {
        let ghost before = views(out@);
        let row = items[i].reply();
        out.push(row);
        assert(views(out@) =~= before.push(row@));
        i += 1;
        assert(want.take(i as int) =~= want.take(i - 1).push(want[i - 1]));
    }
    assert(want.take(want.len() as int) =~= want);
    Cbor::map2(
        "default_grant",
        Cbor::U64(default_grant),
        "namespace_defaults",
        Cbor::arr(out),
    )
}

/// What became of an item that was sent again.
pub fn reinject_reply(qid: &str, ok: bool, result: Cbor, error: &str) -> (r: Cbor)
    ensures
        r@ == map_value(
            seq![
                ("reinjected"@, CborV::Text(qid@)),
                ("ok"@, CborV::Bool(ok)),
                (
                    "result"@,
                    if ok {
                        result@
                    } else {
                        CborV::Text(error@)
                    },
                ),
            ],
        ),
{
    let shown = if ok { result } else { Cbor::t(error) };
    Cbor::map3("reinjected", Cbor::t(qid), "ok", Cbor::Bool(ok), "result", shown)
}

/// What is sent again: the payload that was absorbed, and the anchor it gets.
pub open spec fn reinjected_of(stored: CborV) -> (CborV, Seq<char>) {
    (
        match stored.field("payload"@) {
            Some(p) => p,
            None => stored,
        },
        match stored.text_field("spec_anchor"@) {
            Some(a) => a,
            None => "Architecture.md\u{00a7}4"@,
        },
    )
}

/// What is sent again of a stored record.
pub fn reinjected(stored: &Cbor) -> (r: (Cbor, String))
    ensures
        (r.0@, r.1@) == reinjected_of(stored@),
{
    let inner = match stored.get("payload") {
        Some(p) => p.dup(),
        None => stored.dup(),
    };
    let anchor = match stored.opt_str("spec_anchor") {
        Some(a) => a,
        None => "Architecture.md\u{00a7}4".to_string(),
    };
    (inner, anchor)
}

/// How many batches of the ledger are full.
pub fn expected_batches(ledger: &CrossCheckLedgerCell) -> (r: u64)
    ensures
        r == ledger@.records.len() / 256,
{
    ledger.len() as u64 / BATCH_SIGN_EVERY
}

/// How the keys stand.
pub open spec fn kms_status_of(
    tier: EncryptionTier,
    ring: RingV,
    custody: Option<Seq<char>>,
    at: u64,
) -> KmsStatusReplyV {
    let due = if ring.last_rotated_at + T3_ROTATION_INTERVAL_OPS > u64::MAX {
        u64::MAX as int
    } else {
        ring.last_rotated_at + T3_ROTATION_INTERVAL_OPS
    };
    KmsStatusReplyV {
        tier,
        custody_path: custody,
        active_key_id: if tier is T0 {
            None
        } else {
            Some(ring.active)
        },
        key_versions: ring.keys.dom().len() as u64,
        last_rotated_at: if tier is T3 {
            Some(ring.last_rotated_at)
        } else {
            None
        },
        rotation_interval_ops: if tier is T3 {
            Some(T3_ROTATION_INTERVAL_OPS)
        } else {
            None
        },
        next_due_at: if tier is T3 {
            Some(due as u64)
        } else {
            None
        },
        overdue: tier is T3 && at >= due,
    }
}

/// How the keys stand.
pub fn kms_status(kms: &Kms, custody_path: Option<String>, at: u64) -> (r: KmsStatusReply)
    ensures
        r.deep_view() == kms_status_of(kms@.0, kms@.1, custody_path.deep_view(), at),
{
    let (last, interval, next, overdue) = match kms.rotation_status(at) {
        Some(s) => (
            Some(s.last_rotated_at),
            Some(s.rotation_interval_ops),
            Some(s.next_due_at),
            s.overdue,
        ),
        None => (None, None, None, false),
    };
    KmsStatusReply {
        tier: kms.tier(),
        custody_path,
        active_key_id: kms.active_key_id(),
        key_versions: kms.key_versions() as u64,
        last_rotated_at: last,
        rotation_interval_ops: interval,
        next_due_at: next,
        overdue,
    }
}

/// What is answered to a rotation that was done and audited.
pub fn kms_rotated(kms: &Kms, rotation: &RotationEvent, at: u64) -> (r: KmsRotateReply)
    ensures
        r.deep_view() == (KmsRotateReplyV {
            tier: kms@.0,
            previous_key_id: rotation.previous_key_id,
            active_key_id: rotation.active_key_id,
            logical_at: rotation.logical_at,
            emergency: rotation.emergency,
            next_due_at: kms_status_of(kms@.0, kms@.1, None, at).next_due_at,
            audited: true,
        }),
{
    let next = match kms.rotation_status(at) {
        Some(s) => Some(s.next_due_at),
        None => None,
    };
    KmsRotateReply {
        tier: kms.tier(),
        previous_key_id: rotation.previous_key_id,
        active_key_id: rotation.active_key_id,
        logical_at: rotation.logical_at,
        emergency: rotation.emergency,
        next_due_at: next,
        audited: true,
    }
}

/// How many entities are known and were accepted, and which.
pub fn congruence_audit(known: u64, accepted: &Vec<String>) -> (r: Cbor)
    ensures
        r@ == map_value(
            seq![
                ("known_entities"@, CborV::U64(known)),
                ("accepted_deltas"@, CborV::U64(accepted@.len() as u64)),
                ("accepted"@, texts_value(text_views(accepted@))),
            ],
        ),
{
    Cbor::map3(
        "known_entities",
        Cbor::U64(known),
        "accepted_deltas",
        Cbor::U64(accepted.len() as u64),
        "accepted",
        Cbor::text_array(accepted.as_slice()),
    )
}

/// Whether a payload would be a delta, and why.
pub fn congruence_preview(delta: Option<String>) -> (r: Cbor)
    ensures
        r@ == match delta.deep_view() {
            None => map_value(seq![("delta"@, CborV::Bool(false))]),
            Some(d) => map_value(
                seq![("delta"@, CborV::Bool(true)), ("detail"@, CborV::Text(d))],
            ),
        },
{
    match delta {
        None => Cbor::map1("delta", Cbor::Bool(false)),
        Some(d) => Cbor::map2("delta", Cbor::Bool(true), "detail", Cbor::t(d.as_str())),
    }
}

/// What was accepted, and how much is in all.
pub fn congruence_accepted(entities: &Vec<String>, accepted: u64) -> (r: Cbor)
    ensures
        r@ == map_value(
            seq![
                ("accepted"@, texts_value(text_views(entities@))),
                ("accepted_deltas"@, CborV::U64(accepted)),
            ],
        ),
{
    Cbor::map2(
        "accepted",
        Cbor::text_array(entities.as_slice()),
        "accepted_deltas",
        Cbor::U64(accepted),
    )
}

/// What a model may keep in memory for each curator, in MiB.
#[derive(Clone, Copy, Debug, PartialEq, Eq, Structural)]
pub struct KvBudgets {
    pub librarian_mib: u64,
    pub warden_mib: u64,
    pub adjudicator_mib: u64,
}

impl KvBudgets {
    /// The sum fits.
    pub open spec fn fits(self) -> bool {
        self.librarian_mib + self.warden_mib + self.adjudicator_mib <= u64::MAX
    }

    pub fn total_mib(&self) -> (r: u64)
        requires
            self.fits(),
        ensures
            r == self.librarian_mib + self.warden_mib + self.adjudicator_mib,
    {
        self.librarian_mib + self.warden_mib + self.adjudicator_mib
    }
}

/// The state of the curators.
pub open spec fn curator_status_of<L: CuratorBackend, W: CuratorBackend>(
    librarian: LibrarianCell<L>,
    warden: WardenCell<W>,
    ledger: CrossCheckLedgerCell,
    calibration: CalibrationTracker,
    metrics: MetricsV,
    c: CuratorConfigV,
    kv: KvBudgets,
    retention: Seq<char>,
) -> CuratorStatusReplyV {
    CuratorStatusReplyV {
        librarian_pending: librarian@.count(OutputStatus::Pending) as u64,
        librarian_active: librarian@.count(OutputStatus::Active) as u64,
        librarian_quarantined: librarian@.count(OutputStatus::Quarantined) as u64,
        warden_audits: warden@.audits.dom().len() as u64,
        librarian_model: c.librarian_model,
        warden_model: c.warden_model,
        librarian_backend: librarian.backend_name(),
        warden_backend: warden.judge().name(),
        strict_model_pins: c.strict_model_pins,
        agreement_rate: ledger@.rate(),
        rationale_access_denied: metrics.counted("curator.rationale_access_denied"@),
        probe_missed: metrics.counted("curator.probe_missed"@),
        probe_rate: c.probe_rate,
        probe_boost_on_suspicious: TEN,
        kv_budget_profile: c.kv_budget_profile,
        librarian_kv_cache_mib: kv.librarian_mib,
        warden_kv_cache_mib: kv.warden_mib,
        adjudicator_kv_cache_mib: kv.adjudicator_mib,
        total_kv_cache_mib: (kv.librarian_mib + kv.warden_mib + kv.adjudicator_mib) as u64,
        topology: c.topology,
        blind_reaudit_rate: c.blind_reaudit_rate,
        cross_check_retention_policy: retention,
        calibration_window: CALIBRATION_WINDOW as u64,
        high_band_floor: HIGH_BAND_FLOOR,
        medium_band_floor: MEDIUM_BAND_FLOOR,
        degraded: calibration@.degraded(),
    }
}

/// How the curators stand.
pub fn curator_status<L: CuratorBackend, W: CuratorBackend>(
    librarian: &LibrarianCell<L>,
    warden: &WardenCell<W>,
    ledger: &CrossCheckLedgerCell,
    calibration: &CalibrationTracker,
    metrics: &Metrics,
    cfg: &CuratorConfig,
    kv: KvBudgets,
    retention: &str,
) -> (r: CuratorStatusReply)
    requires
        ledger.whole(),
        calibration@.wf(),
        kv.fits(),
    ensures
        r.deep_view() == curator_status_of(
            *librarian,
            *warden,
            *ledger,
            *calibration,
            metrics@,
            cfg.deep_view(),
            kv,
            retention@,
        ),
{
    let (p, a, q) = librarian.counts();
    CuratorStatusReply {
        librarian_pending: p as u64,
        librarian_active: a as u64,
        librarian_quarantined: q as u64,
        warden_audits: warden.audit_count() as u64,
        librarian_model: cfg.librarian_model.as_str().to_string(),
        warden_model: cfg.warden_model.as_str().to_string(),
        librarian_backend: librarian.backend_id(),
        warden_backend: warden.backend_id(),
        strict_model_pins: cfg.strict_model_pins,
        agreement_rate: ledger.agreement_rate(),
        rationale_access_denied: metrics.counter("curator.rationale_access_denied"),
        probe_missed: metrics.counter("curator.probe_missed"),
        probe_rate: cfg.probe_rate,
        probe_boost_on_suspicious: TEN,
        kv_budget_profile: cfg.kv_budget_profile,
        librarian_kv_cache_mib: kv.librarian_mib,
        warden_kv_cache_mib: kv.warden_mib,
        adjudicator_kv_cache_mib: kv.adjudicator_mib,
        total_kv_cache_mib: kv.total_mib(),
        topology: cfg.topology,
        blind_reaudit_rate: cfg.blind_reaudit_rate,
        cross_check_retention_policy: retention.to_string(),
        calibration_window: CALIBRATION_WINDOW as u64,
        high_band_floor: HIGH_BAND_FLOOR,
        medium_band_floor: MEDIUM_BAND_FLOOR,
        degraded: calibration.degraded(),
    }
}

/// The last records of the ledger, and how long they are kept.
pub open spec fn tail_value(ledger: LedgerV, n: u64, retention: Seq<char>) -> CborV {
    map_value(
        seq![
            (
                "records"@,
                CborV::Array(list_values::<CrossCheckRecord>(last_n(ledger.records, n as int))),
            ),
            ("retention_policy"@, CborV::Text(retention)),
        ],
    )
}

/// The last records of the ledger, and how long it keeps them.
pub fn tail_reply(ledger: &CrossCheckLedgerCell, n: u64, retention: &str) -> (r: Cbor)
    ensures
        r@ == tail_value(ledger@, n, retention@),
{
    Cbor::map2(
        "records",
        Cbor::arr(ledger.tail(n)),
        "retention_policy",
        Cbor::t(retention),
    )
}

/// The state of the disputes.
pub open spec fn adjudicator_stats_of(adj: AdjudicatorV, registry: RegistryV) -> AdjudicatorReplyV {
    AdjudicatorReplyV {
        policy: adj.policy_count,
        pool: adj.pool_count,
        human: adj.human_count,
        queued: adj.queue.len() as u64,
        escalations: adj.queue,
        escalation_subscribers: text_order(registry.escalation),
    }
}

/// How disputes went, what awaits a human, and who is told.
pub fn adjudicator_stats<B: CuratorBackend>(
    adjudicator: &AdjudicatorCell<B>,
    registry: &AgentRegistryCell,
) -> (r: AdjudicatorReply)
    ensures
        r.deep_view() == adjudicator_stats_of(adjudicator@, registry@),
{
    let (policy, pool, human, queued) = adjudicator.stats();
    AdjudicatorReply {
        policy,
        pool,
        human,
        queued: queued as u64,
        escalations: crate::cbor::dup_texts(adjudicator.escalations()),
        escalation_subscribers: registry.escalation_subscribers(),
    }
}

/// What a human's decision does to the adjudicator and the librarian: the
/// disputed output is quarantined or becomes active.
pub open spec fn resolution(
    adj: AdjudicatorV,
    lib: LibrarianV,
    handle: Seq<char>,
    uphold: bool,
) -> (AdjudicatorV, LibrarianV, Result<CborV, ErrV>) {
    match adj.not_awaited(handle) {
        Some(e) => (adj, lib, Err(e)),
        None => {
            let target = adj.records[handle].initiator_output;
            (
                adj.resolved(handle, uphold),
                if starts(target, "librarian/output/"@) {
                    lib.with_status(
                        target,
                        if uphold {
                            OutputStatus::Quarantined
                        } else {
                            OutputStatus::Active
                        },
                    ).0
                } else {
                    lib
                },
                Ok(
                    map_value(
                        seq![
                            ("resolved"@, CborV::Text(handle)),
                            ("uphold_auditor"@, CborV::Bool(uphold)),
                        ],
                    ),
                ),
            )
        },
    }
}

/// What an operator types is what the node understands: a dispute is settled for the side
/// that the flag names, a quarantined request is given back or thrown away by its number, keys
/// are rotated as an emergency only where that is said, and as many records are shown as are
/// asked for.
pub proof fn lemma_typed_is_understood(msg: CborV, words: Seq<Seq<char>>, x: Seq<char>)
    requires
        command_of(words) is Ok,
        msg.text_field("verb"@) == Some(command_of(words)->Ok_0.verb),
        msg.field("args"@) == Some(command_of(words)->Ok_0.args),
    ensures
        words == seq!["resolve"@, x, "--uphold-auditor"@] ==> call_of(msg) == Ok::<_, ErrV>(
            AdminCallV::Resolve { handle: x, uphold_auditor: true },
        ),
        words == seq!["resolve"@, x, "--uphold-initiator"@] ==> call_of(msg) == Ok::<_, ErrV>(
            AdminCallV::Resolve { handle: x, uphold_auditor: false },
        ),
        words == seq!["quarantine"@, "reinject"@, x] ==> call_of(msg) == Ok::<_, ErrV>(
            AdminCallV::QuarantineReinject { qid: x },
        ),
        words == seq!["quarantine"@, "reject"@, x] ==> call_of(msg) == Ok::<_, ErrV>(
            AdminCallV::QuarantineReject { qid: x },
        ),
        words == seq!["kms"@, "rotate"@] ==> call_of(msg) == Ok::<_, ErrV>(
            AdminCallV::KmsRotate { emergency: false },
        ),
        words == seq!["kms"@, "rotate"@, "--emergency"@] ==> call_of(msg) == Ok::<_, ErrV>(
            AdminCallV::KmsRotate { emergency: true },
        ),
        words == seq!["cross-check"@, "tail"@, x] && u64_of(x) is Some ==> call_of(msg) == Ok::<
            _,
            ErrV,
        >(AdminCallV::CrossCheckTail { n: u64_of(x)->0 }),
{
    reveal_strlit("resolve");
    reveal_strlit("--uphold-auditor");
    reveal_strlit("--uphold-initiator");
    reveal_strlit("quarantine");
    reveal_strlit("reinject");
    reveal_strlit("reject");
    reveal_strlit("list");
    reveal_strlit("kms");
    reveal_strlit("rotate");
    reveal_strlit("status");
    reveal_strlit("--emergency");
    reveal_strlit("cross-check");
    reveal_strlit("tail");
    reveal_strlit("congruence");
    reveal_strlit("contract");
    reveal_strlit("gap");
    reveal_strlit("budget");
    reveal_strlit("audit");
    reveal_strlit("curator");
    reveal_strlit("adjudicator");
    reveal_strlit("qid");
    reveal_strlit("handle");
    reveal_strlit("uphold_auditor");
    reveal_strlit("emergency");
    reveal_strlit("n");
    assert("resolve"@.len() == 7 && "quarantine"@.len() == 10 && "kms"@.len() == 3);
    assert("cross-check"@.len() == 11 && "congruence"@.len() == 10 && "contract"@.len() == 8);
    assert("gap"@.len() == 3 && "budget"@.len() == 6 && "audit"@.len() == 5);
    assert("curator"@.len() == 7 && "adjudicator"@.len() == 11);
    assert("gap"@[0] != "kms"@[0]);
    assert("quarantine"@[0] != "congruence"@[0]);
    assert("reinject"@.len() == 8 && "reject"@.len() == 6);
    assert("rotate"@.len() == 6 && "status"@.len() == 6 && "rotate"@[0] != "status"@[0]);
    assert("--uphold-auditor"@.len() == 16 && "--uphold-initiator"@.len() == 18);
    assert("handle"@.len() == 6 && "uphold_auditor"@.len() == 14);
    AdminVerb::lemma_named(AdminVerb::Resolve, AdminVerb::Resolve);
    AdminVerb::lemma_named(AdminVerb::QuarantineReinject, AdminVerb::QuarantineReinject);
    AdminVerb::lemma_named(AdminVerb::QuarantineReject, AdminVerb::QuarantineReject);
    AdminVerb::lemma_named(AdminVerb::KmsRotate, AdminVerb::KmsRotate);
    AdminVerb::lemma_named(AdminVerb::CrossCheckTail, AdminVerb::CrossCheckTail);
    lemma_one_field("qid"@, CborV::Text(x));
    lemma_one_field("emergency"@, CborV::Bool(true));
    lemma_one_field("emergency"@, CborV::Bool(false));
    if u64_of(x) is Some {
        lemma_one_field("n"@, CborV::U64(u64_of(x)->0));
    }
    let t = seq![("handle"@, CborV::Text(x)), ("uphold_auditor"@, CborV::Bool(true))];
    let f = seq![("handle"@, CborV::Text(x)), ("uphold_auditor"@, CborV::Bool(false))];
    lemma_field_at(t, 0);
    lemma_field_at(t, 1);
    lemma_field_at(f, 0);
    lemma_field_at(f, 1);
}

/// An operator's decision is taken exactly for a dispute that waits for one. The output that
/// was disputed is quarantined where the auditor is upheld, and active where it is not; no
/// other output is touched, and the dispute is settled for the side that was chosen.
pub proof fn lemma_resolution(
    adj: AdjudicatorV,
    lib: LibrarianV,
    h: Seq<char>,
    uphold: bool,
    other: Seq<char>,
)
    ensures
        ({
            let (adj2, lib2, r) = resolution(adj, lib, h, uphold);
            let waits = adj.records.contains_key(h) && adj.records[h].resolution is HumanEscalation
                && !adj.records[h].human_resolved;
            let target = adj.records[h].initiator_output;
            &&& r is Ok <==> waits
            &&& !waits ==> adj2 == adj && lib2 == lib
            &&& waits ==> {
                &&& adj2.records[h].human_resolved
                &&& adj2.records[h].resolution is AuditorUpheld <==> uphold
                &&& adj2.records[h].resolution is InitiatorUpheld <==> !uphold
                &&& starts(target, "librarian/output/"@) && lib.outputs.contains_key(target) ==> (
                lib2.outputs[target].status is Quarantined <==> uphold) && (
                lib2.outputs[target].status is Active <==> !uphold) && lib2.outputs[target].public
                    == lib.outputs[target].public
                &&& lib.outputs.contains_key(other) && other != target ==> lib2.outputs[other]
                    == lib.outputs[other]
                &&& lib2.outputs.dom() == lib.outputs.dom()
                &&& r->Ok_0.text_field("resolved"@) == Some(h)
                &&& r->Ok_0.bool_field("uphold_auditor"@) == Some(uphold)
            }
        }),
{
    let (adj2, lib2, r) = resolution(adj, lib, h, uphold);
    assert(lib2.outputs.dom() =~= lib.outputs.dom());
    let p = seq![("resolved"@, CborV::Text(h)), ("uphold_auditor"@, CborV::Bool(uphold))];
    reveal_strlit("resolved");
    reveal_strlit("uphold_auditor");
    assert("resolved"@.len() == 8 && "uphold_auditor"@.len() == 14);
    lemma_field_at(p, 0);
    lemma_field_at(p, 1);
}

/// Keys are overdue exactly in the rotating tier and where they have served for as many
/// operations as they are meant to, or longer.
pub proof fn lemma_overdue(tier: EncryptionTier, ring: RingV, custody: Option<Seq<char>>, at: u64)
    requires
        ring.last_rotated_at + T3_ROTATION_INTERVAL_OPS <= u64::MAX,
    ensures
        kms_status_of(tier, ring, custody, at).overdue <==> tier is T3 && at - ring.last_rotated_at
            >= T3_ROTATION_INTERVAL_OPS,
        kms_status_of(tier, ring, custody, at).active_key_id is Some <==> !(tier is T0),
        !(tier is T0) ==> kms_status_of(tier, ring, custody, at).active_key_id == Some(ring.active),
{
}

/// Takes a human's decision.
pub fn resolve<A: CuratorBackend, L: CuratorBackend>(
    adjudicator: &mut AdjudicatorCell<A>,
    librarian: &mut LibrarianCell<L>,
    handle: &str,
    uphold_auditor: bool,
) -> (r: UcResult<Cbor>)
    requires
        old(adjudicator)@.wf(),
    ensures
        final(adjudicator)@.wf(),
        final(adjudicator).ident() == old(adjudicator).ident(),
        final(adjudicator).judges() == old(adjudicator).judges(),
        old(librarian)@.wf() ==> final(librarian)@.wf(),
        final(librarian).ident() == old(librarian).ident(),
        final(librarian).worker() == old(librarian).worker(),
        ({
            let want = resolution(
                old(adjudicator)@,
                old(librarian)@,
                handle@,
                uphold_auditor,
            );
            &&& final(adjudicator)@ == want.0
            &&& final(librarian)@ == want.1
            &&& agrees(r, want.2)
        }),
{
    let rec = match adjudicator.resolve_human(handle, uphold_auditor) {
        Ok(rec) => rec,
        Err(e) => {
            return Err(e);
        },
    };
    if str_starts(rec.initiator_output.as_str(), "librarian/output/") {
        let status = if uphold_auditor {
            OutputStatus::Quarantined
        } else {
            OutputStatus::Active
        };
        match librarian.set_status(rec.initiator_output.as_str(), status) {
            Ok(_) => {},
            Err(_) => {},
        }
    }
    Ok(
        Cbor::map2(
            "resolved",
            Cbor::t(handle),
            "uphold_auditor",
            Cbor::Bool(uphold_auditor),
        ),
    )
}

/// A metric as name and value.
pub open spec fn metric_value(name: Seq<char>, v: i64) -> CborV {
    map_value(
        seq![
            ("name"@, CborV::Text(name)),
            (
                "value"@,
                if v >= 0 {
                    CborV::U64(v as u64)
                } else {
                    CborV::I64(v)
                },
            ),
        ],
    )
}

/// All metrics, in the order of their names.
pub open spec fn metric_values(table: Map<Seq<char>, i64>) -> Seq<CborV> {
    let o = text_order(table.dom());
    Seq::new(o.len(), |i: int| metric_value(o[i], table[o[i]]))
}

/// All metrics.
pub fn metrics_reply(metrics: &Metrics) -> (r: Cbor)
    ensures
        r@ == listed("metrics"@, metric_values(flat(metrics@))),
{
    let table = metrics.snapshot();
    let n: usize = table.len();
    let ghost want = metric_values(table@);
    let mut out: Vec<Cbor> = Vec::new();
    let mut i: usize = 0;
    assert(views(out@) =~= want.take(0));
    while i < n
        invariant
            i <= n == table.order().len(),
            table.order() == text_order(table@.dom()),
            want == metric_values(table@),
            views(out@) == want.take(i as int),
        decreases n - i,
    {
        let ghost before = views(out@);
        let row = Cbor::map2(
            "name",
            Cbor::t(table.key_at(i).as_str()),
            "value",
            Cbor::i(*table.value_at(i)),
        );
        out.push(row);
        assert(views(out@) =~= before.push(row@));
        i += 1;
        assert(want.take(i as int) =~= want.take(i - 1).push(want[i - 1]));
    }
    assert(want.take(n as int) =~= want);
    Cbor::map1("metrics", Cbor::arr(out))
}

/// What an export did.
pub fn export_reply(receipt: &OtlpExportReceipt) -> (r: ExportReply)
    ensures
        r.deep_view() == (ExportReplyV {
            endpoint: receipt.endpoint@,
            status_code: match receipt.status_code {
                Some(c) => Some(c as u64),
                None => None,
            },
            bytes: receipt.bytes as u64,
            skipped: receipt.skipped,
        }),
{
    ExportReply {
        endpoint: receipt.endpoint.as_str().to_string(),
        status_code: match receipt.status_code {
            Some(c) => Some(c as u64),
            None => None,
        },
        bytes: receipt.bytes as u64,
        skipped: receipt.skipped,
    }
}

} // verus!
