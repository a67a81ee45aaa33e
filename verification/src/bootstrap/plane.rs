//! How a request of an operator is served: what the node can answer from its own
//! state is answered at once, and the rest is handed on.

use vstd::prelude::*;
use crate::bootstrap::admin::{
    adjudicator_stats, adjudicator_stats_of, admin_dispatch, call_of, count_verb, curator_status,
    curator_status_of, kms_status, kms_status_of, listed, metric_values, metrics_reply, resolution,
    resolve, tail_reply, tail_value, underscored, AdminCall, AdminCallV, AdminVerb, KvBudgets,
    StatusReply, StatusReplyV,
};
use crate::cbor::{text_or_empty, Cbor, CborV};
use crate::cells::registry::AgentRegistryCell;
use crate::config::CuratorConfig;
use crate::curator::guardrails::CalibrationTracker;
use crate::curator::ledger::CrossCheckLedgerCell;
use crate::curator::librarian::OutputStatus;
use crate::curator::CuratorBackend;
use crate::obs::metrics::{flat, Metrics, MetricsV};
use crate::persist::kms::Kms;
use crate::substrate::Curators;
use crate::vocab::{agrees, ErrV, LogicalClock, ShardTopology, UcResult};

verus! {

/// What a request is answered from, besides the curators, the clock and the
/// metrics.
pub struct Desk<'a> {
    pub node_id: &'a str,
    pub shards: u64,
    pub trinity_topology: ShardTopology,
    pub cfg: &'a CuratorConfig,
    pub ledger: &'a CrossCheckLedgerCell,
    pub registry: &'a AgentRegistryCell,
    pub kms: &'a Kms,
    pub custody_path: Option<String>,
    pub calibration: &'a CalibrationTracker,
    pub kv: KvBudgets,
    /// How long records of the ledger are kept.
    pub retention: &'a str,
    /// How many writes wait in quarantine.
    pub quarantine_pending: u64,
}

impl<'a> Desk<'a> {
    /// What holds of what it is made of.
    pub open spec fn wf(&self) -> bool {
        &&& self.ledger.whole()
        &&& self.calibration@.wf()
        &&& self.kv.fits()
    }
}

/// What comes of a request.
#[derive(Debug)]
pub enum AdminStep {
    /// The answer.
    Reply(UcResult<Cbor>),
    /// What has to be done for an answer.
    Outside(AdminCall),
}

/// What the node says of itself.
pub open spec fn status_of<B: CuratorBackend>(
    at: u64,
    curators: Curators<B>,
    desk: Desk<'_>,
) -> StatusReplyV {
    StatusReplyV {
        node_id: desk.node_id@,
        logical_at: at,
        shards: desk.shards,
        trinity_topology: desk.trinity_topology,
        curator_topology: desk.cfg.deep_view().topology,
        quarantine_pending: desk.quarantine_pending,
        librarian_pending: curators.librarian@.count(OutputStatus::Pending) as u64,
        librarian_active: curators.librarian@.count(OutputStatus::Active) as u64,
        librarian_quarantined: curators.librarian@.count(OutputStatus::Quarantined) as u64,
    }
}

/// The answer to a request that needs nothing else; none where it does.
pub open spec fn answer_of<B: CuratorBackend>(
    call: AdminCallV,
    at: u64,
    metrics: MetricsV,
    curators: Curators<B>,
    desk: Desk<'_>,
) -> Option<Result<CborV, ErrV>> {
    match call {
        AdminCallV::Plain { verb: AdminVerb::Status } => Some(
            Ok(status_of(at, curators, desk).value()),
        ),
        AdminCallV::Plain { verb: AdminVerb::KmsStatus } => Some(
            Ok(
                kms_status_of(
                    desk.kms@.0,
                    desk.kms@.1,
                    desk.custody_path.deep_view(),
                    at,
                ).value(),
            ),
        ),
        AdminCallV::Plain { verb: AdminVerb::CuratorStatus } => Some(
            Ok(
                curator_status_of(
                    curators.librarian,
                    curators.warden,
                    *desk.ledger,
                    *desk.calibration,
                    metrics,
                    desk.cfg.deep_view(),
                    desk.kv,
                    desk.retention@,
                ).value(),
            ),
        ),
        AdminCallV::Plain { verb: AdminVerb::AdjudicatorStats } => Some(
            Ok(adjudicator_stats_of(curators.adjudicator@, desk.registry@).value()),
        ),
        AdminCallV::Plain { verb: AdminVerb::Metrics } => Some(
            Ok(listed("metrics"@, metric_values(flat(metrics)))),
        ),
        AdminCallV::CrossCheckTail { n } => Some(
            Ok(tail_value(desk.ledger@, n, desk.retention@)),
        ),
        AdminCallV::Resolve { handle, uphold_auditor } => Some(
            resolution(
                curators.adjudicator@,
                curators.librarian@,
                handle,
                uphold_auditor,
            ).2,
        ),
        _ => None,
    }
}

/// Serves a request: it takes one tick of the clock and is counted under its verb;
/// one that cannot be read is refused, and only a settled dispute changes anything
/// else.
pub fn serve<B: CuratorBackend>(
    msg: &Cbor,
    clock: &mut LogicalClock,
    metrics: &mut Metrics,
    curators: &mut Curators<B>,
    desk: &Desk<'_>,
) -> (r: AdminStep)
    requires
        old(clock)@ < u64::MAX,
        old(curators).wf(),
        desk.wf(),
    ensures
        final(clock)@ == old(clock)@ + 1,
        final(metrics)@ == old(metrics)@.noted(
            "admin."@ + underscored(text_or_empty(msg@, "verb"@)),
        ),
        final(curators).wf(),
        final(curators).same_backends(old(curators)),
        match call_of(msg@) {
            Err(e) => r is Reply && agrees(r->Reply_0, Err::<CborV, ErrV>(e)),
            Ok(call) => match answer_of(
                call,
                final(clock)@,
                final(metrics)@,
                *old(curators),
                *desk,
            ) {
                Some(want) => r is Reply && agrees(r->Reply_0, want),
                None => r is Outside && r->Outside_0.deep_view() == call,
            },
        },
        match call_of(msg@) {
            Ok(AdminCallV::Resolve { handle, uphold_auditor }) => {
                let want = resolution(
                    old(curators).adjudicator@,
                    old(curators).librarian@,
                    handle,
                    uphold_auditor,
                );
                &&& final(curators).adjudicator@ == want.0
                &&& final(curators).librarian@ == want.1
                &&& final(curators).warden == old(curators).warden
            },
            _ => *final(curators) == *old(curators),
        },
{
    let at: u64 = clock.tick();
    let verb = msg.str_or_empty("verb");
    count_verb(metrics, verb.as_str());
    let call = match admin_dispatch(msg) {
        Ok(c) => c,
        Err(e) => {
            return AdminStep::Reply(Err(e));
        },
    };
    match &call {
        AdminCall::Plain { verb: AdminVerb::Status } => {
            let (p, a, q) = curators.librarian.counts();
            let reply = StatusReply {
                node_id: desk.node_id.to_string(),
                logical_at: at,
                shards: desk.shards,
                trinity_topology: desk.trinity_topology,
                curator_topology: desk.cfg.topology,
                quarantine_pending: desk.quarantine_pending,
                librarian_pending: p as u64,
                librarian_active: a as u64,
                librarian_quarantined: q as u64,
            };
            AdminStep::Reply(Ok(reply.reply()))
        },
        AdminCall::Plain { verb: AdminVerb::KmsStatus } => {
            let custody = crate::cbor::dup_text(&desk.custody_path);
            AdminStep::Reply(Ok(kms_status(desk.kms, custody, at).reply()))
        },
        AdminCall::Plain { verb: AdminVerb::CuratorStatus } => {
            let reply = curator_status(
                &curators.librarian,
                &curators.warden,
                desk.ledger,
                desk.calibration,
                metrics,
                desk.cfg,
                desk.kv,
                desk.retention,
            );
            AdminStep::Reply(Ok(reply.reply()))
        },
        AdminCall::Plain { verb: AdminVerb::AdjudicatorStats } => {
            let reply = adjudicator_stats(&curators.adjudicator, desk.registry);
            AdminStep::Reply(Ok(reply.reply()))
        },
        AdminCall::Plain { verb: AdminVerb::Metrics } => {
            AdminStep::Reply(Ok(metrics_reply(metrics)))
        },
        AdminCall::CrossCheckTail { n } => {
            AdminStep::Reply(Ok(tail_reply(desk.ledger, *n, desk.retention)))
        },
        AdminCall::Resolve { handle, uphold_auditor } => {
            AdminStep::Reply(
                resolve(
                    &mut curators.adjudicator,
                    &mut curators.librarian,
                    handle.as_str(),
                    *uphold_auditor,
                ),
            )
        },
        _ => AdminStep::Outside(call),
    }
}

} // verus!
