//! The self-test as a whole: which request comes next, and what is made of each
//! answer, until all checks are passed or one fails.

use vstd::prelude::*;
use crate::bootstrap::selftest::{
    facet_to_probe, failure, request, request_of, Evidence, EvidenceV, Probe, Reply, ReplyV, Step,
};
use crate::cbor::{dup_text, text_or_empty};
use crate::cells::fact::{FactCell, FactsV};
use crate::curator::adjudicator::{AdjudicatorCell, AdjudicatorV};
use crate::curator::librarian::{pending_from, served_from, LibrarianCell, LibrarianV};
use crate::curator::{facet_of, CuratorBackend};
use crate::obs::metrics::{Metrics, MetricsV};
use crate::rows::done;
use crate::text::{cat4, starts};
use crate::textmap::text_order;
use crate::vocab::{agrees, ErrCode, ErrV, UcError, UcResult};

verus! {

/// What a node shows of itself.
#[derive(Debug)]
pub struct Seen {
    /// The fact that was written first is superseded.
    pub superseded: bool,
    /// The active skeleton of the fact that stands.
    pub active: Option<String>,
    /// The first pending output.
    pub pending: Option<String>,
    /// How many disputes wait for a human.
    pub queued: u64,
    /// How many views came from the cache.
    pub hits: u64,
    /// How many private facets were refused.
    pub denied: u64,
}

/// What a node shows of itself, as a mathematical object.
#[verifier::ext_equal]
pub struct SeenV {
    pub superseded: bool,
    pub active: Option<Seq<char>>,
    pub pending: Option<Seq<char>>,
    pub queued: u64,
    pub hits: u64,
    pub denied: u64,
}

impl DeepView for Seen {
    type V = SeenV;

    open spec fn deep_view(&self) -> SeenV {
        SeenV {
            superseded: self.superseded,
            active: self.active.deep_view(),
            pending: self.pending.deep_view(),
            queued: self.queued,
            hits: self.hits,
            denied: self.denied,
        }
    }
}

/// The output that serves the fact that stands for the test's subject.
pub open spec fn standing_skeleton(facts: FactsV, librarian: LibrarianV) -> Option<Seq<char>> {
    let stand = facts.active_sp("selftest"@, "status"@);
    if stand.len() == 0 {
        None
    } else {
        match served_from(
            librarian.outputs,
            text_order(librarian.outputs.dom()),
            stand[0].handle,
            0,
        ) {
            Some(p) => Some(p.output_handle),
            None => None,
        }
    }
}

/// The first output that is still pending.
pub open spec fn first_pending(librarian: LibrarianV) -> Option<Seq<char>> {
    let o = text_order(librarian.outputs.dom());
    let pending = pending_from(librarian.outputs, o, o.len());
    if pending.len() == 0 {
        None
    } else {
        Some(pending[0].output_handle)
    }
}

/// What a node shows, given the handle that was written first.
pub open spec fn seen_of(
    written: Seq<char>,
    facts: FactsV,
    librarian: LibrarianV,
    adjudicator: AdjudicatorV,
    metrics: MetricsV,
) -> SeenV {
    SeenV {
        superseded: facts.facts.contains_key(written) && facts.facts[written].superseded_by is Some,
        active: standing_skeleton(facts, librarian),
        pending: first_pending(librarian),
        queued: adjudicator.queue.len() as u64,
        hits: metrics.counted("cache.hit"@),
        denied: metrics.counted("curator.rationale_access_denied"@),
    }
}

/// Looks at a node.
pub fn look<L: CuratorBackend, A: CuratorBackend>(
    written: &str,
    facts: &FactCell,
    librarian: &LibrarianCell<L>,
    adjudicator: &AdjudicatorCell<A>,
    metrics: &Metrics,
) -> (r: Seen)
    ensures
        r.deep_view() == seen_of(written@, facts@, librarian@, adjudicator@, metrics@),
{
    let superseded: bool = match facts.get(written) {
        Some(f) => f.superseded_by.is_some(),
        None => false,
    };
    let stand = facts.active_for_sp("selftest", "status");
    assert(stand@.len() == stand.deep_view().len());
    let active = if stand.len() == 0 {
        None
    } else {
        assert(stand.deep_view()[0] == stand@[0].deep_view());
        match librarian.active_skeleton_for(stand[0].handle.as_str()) {
            Some(p) => Some(p.output_handle.as_str().to_string()),
            None => None,
        }
    };
    let waiting = librarian.pending();
    let pending = if waiting.len() == 0 {
        None
    } else {
        Some(waiting[0].output_handle.as_str().to_string())
    };
    let r = Seen {
        superseded,
        active,
        pending,
        queued: adjudicator.stats().3 as u64,
        hits: metrics.counter("cache.hit"),
        denied: metrics.counter("curator.rationale_access_denied"),
    };
    assert(r.deep_view() =~= seen_of(written@, facts@, librarian@, adjudicator@, metrics@));
    r
}

/// How far a test is.
#[verifier::ext_equal]
pub struct DrillV {
    /// The request that comes next; none where all are done.
    pub step: Option<Step>,
    pub passed: u32,
    /// The handle that the first write gave.
    pub written: Seq<char>,
    /// The private facet that access is tried on.
    pub facet: Seq<char>,
    /// The first answer to the view, and the hits of the cache by then.
    pub first: Option<(ReplyV, u64)>,
}

/// How many checks are passed when a request comes next.
pub open spec fn passed_before(step: Option<Step>) -> u32 {
    match step {
        Some(Step::Write) => 0,
        Some(Step::Recall) => 1,
        Some(Step::Supersede) => 2,
        Some(Step::Anchorless) => 3,
        Some(Step::Budget) => 4,
        Some(Step::View) => 5,
        Some(Step::ViewAgain) => 5,
        Some(Step::Gate) => 7,
        Some(Step::Denial) => 9,
        Some(Step::Hydrate) => 10,
        None => 11,
    }
}

/// The error of a check, if it is not passed.
pub open spec fn verdict(ev: EvidenceV, detail: Seq<char>) -> Option<ErrV> {
    if ev.holds() {
        None
    } else {
        Some(failure(ev, detail))
    }
}

impl DrillV {
    pub open spec fn start() -> DrillV {
        DrillV {
            step: Some(Step::Write),
            passed: 0,
            written: Seq::empty(),
            facet: Seq::empty(),
            first: None,
        }
    }

    /// As many checks are passed as the next request says.
    pub open spec fn wf(self) -> bool {
        self.passed == passed_before(self.step) && (self.step == Some(Step::ViewAgain)
            ==> self.first is Some)
    }

    /// The state after a check, where the next request follows it.
    pub open spec fn after(self, ev: EvidenceV, detail: Seq<char>, next: Option<Step>) -> Result<
        DrillV,
        ErrV,
    > {
        match verdict(ev, detail) {
            Some(e) => Err(e),
            None => Ok(DrillV { step: next, passed: (self.passed + 1) as u32, ..self }),
        }
    }

    /// The state after an answer, or the failure that it shows.
    pub open spec fn take(self, reply: ReplyV, detail: Seq<char>, seen: SeenV) -> Result<
        DrillV,
        ErrV,
    > {
        match self.step {
            None => Ok(self),
            Some(Step::Write) => (DrillV {
                written: text_or_empty(reply.result, "handle"@),
                ..self
            }).after(EvidenceV::Written { reply }, detail, Some(Step::Recall)),
            Some(Step::Recall) => self.after(
                EvidenceV::Recalled { reply },
                detail,
                Some(Step::Supersede),
            ),
            Some(Step::Supersede) => self.after(
                EvidenceV::Superseded { reply, superseded: seen.superseded },
                detail,
                Some(Step::Anchorless),
            ),
            Some(Step::Anchorless) => self.after(
                EvidenceV::Quarantined { reply },
                detail,
                Some(Step::Budget),
            ),
            Some(Step::Budget) => self.after(
                EvidenceV::Refused { reply },
                detail,
                Some(Step::View),
            ),
            Some(Step::View) => Ok(
                DrillV { step: Some(Step::ViewAgain), first: Some((reply, seen.hits)), ..self },
            ),
            Some(Step::ViewAgain) => match self.first {
                None => Ok(self),
                Some((first, hits_before)) => match self.after(
                    EvidenceV::Cached {
                        first,
                        second: reply,
                        hits_before,
                        hits_after: seen.hits,
                    },
                    detail,
                    None,
                ) {
                    Err(e) => Err(e),
                    Ok(d) => d.after(
                        EvidenceV::SkeletonActive { active: seen.active is Some },
                        "no active skeleton"@,
                        Some(Step::Gate),
                    ),
                },
            },
            Some(Step::Gate) => match self.after(EvidenceV::Gated { reply }, detail, None) {
                Err(e) => Err(e),
                Ok(d) => match d.after(
                    EvidenceV::Counted { queued: seen.queued },
                    "stats unavailable"@,
                    Some(Step::Denial),
                ) {
                    Err(e) => Err(e),
                    Ok(d) => match (seen.active, seen.pending) {
                        (Some(h), _) => Ok(DrillV { facet: facet_of(h, "rationale"@), ..d }),
                        (None, Some(h)) => Ok(DrillV { facet: facet_of(h, "rationale"@), ..d }),
                        (None, None) => Err(
                            (ErrCode::Internal, "self-test B5.10: no curator output to probe"@),
                        ),
                    },
                },
            },
            Some(Step::Denial) => self.after(
                EvidenceV::Denied { reply, denied: seen.denied },
                detail,
                Some(Step::Hydrate),
            ),
            Some(Step::Hydrate) => self.after(EvidenceV::Hydrated { reply }, detail, None),
        }
    }

    /// An answer leads on exactly where it shows what its step is to show: a write gives the
    /// handle of a fact, which is the one that is superseded next; a recall finds something;
    /// the supersession is done; a write without an anchor is quarantined; one without a
    /// budget is refused; a view is served anew from the cache and a skeleton is active; a
    /// made-up handle is caught and the disputes are counted; a peer is denied a private facet
    /// and the denial counted; and the operator is given it.
    pub proof fn lemma_shown(self, reply: ReplyV, detail: Seq<char>, seen: SeenV)
        requires
            self.wf(),
        ensures
            ({
                let r = self.take(reply, detail, seen);
                let handle = reply.result.text_field("handle"@);
                let failed = |c: ErrCode| !reply.ok && reply.err_code == Some(c);
                let ok = match self.step {
                    None => true,
                    Some(Step::Write) => reply.ok && handle is Some && starts(handle->0, "fact/"@),
                    Some(Step::Recall) => reply.ok && reply.result.u64_field("items"@) is Some
                        && reply.result.u64_field("items"@)->0 >= 1,
                    Some(Step::Supersede) => reply.ok && seen.superseded,
                    Some(Step::Anchorless) => failed(ErrCode::AnchorMissing) && reply.quarantine_id
                        is Some && starts(reply.quarantine_id->0, "quarantine/"@),
                    Some(Step::Budget) => failed(ErrCode::BudgetExceeded),
                    Some(Step::View) => true,
                    Some(Step::ViewAgain) => match self.first {
                        Some((first, hits)) => first.ok && reply.ok && seen.hits > hits
                            && seen.active is Some,
                        None => true,
                    },
                    Some(Step::Gate) => failed(ErrCode::HallucinationDetected) && seen.queued < 10_000
                        && (seen.active is Some || seen.pending is Some),
                    Some(Step::Denial) => failed(ErrCode::PermissionDenied) && seen.denied > 0,
                    Some(Step::Hydrate) => reply.ok && reply.result.text_field("body"@) is Some
                        && reply.result.text_field("body"@)->0.len() > 0,
                };
                &&& r is Ok <==> ok
                &&& r is Ok && self.step == Some(Step::Write) ==> Some(r->Ok_0.written) == handle
                &&& r is Ok && self.step == Some(Step::View) ==> r->Ok_0.first == Some(
                    (reply, seen.hits),
                )
                &&& r is Ok && self.step != Some(Step::Write) ==> r->Ok_0.written == self.written
            }),
    {
        reveal_strlit("fact/");
        assert("fact/"@.len() == 5);
    }

    /// Every answer that does not fail leads on, and the end is reached with all
    /// checks passed and not before.
    pub proof fn lemma_take(self, reply: ReplyV, detail: Seq<char>, seen: SeenV)
        requires
            self.wf(),
        ensures
            self.take(reply, detail, seen) is Ok ==> self.take(reply, detail, seen)->Ok_0.wf(),
            self.passed == 11 <==> self.step is None,
    {
    }
}

/// A test in progress.
#[derive(Debug)]
pub struct Drill {
    step: Option<Step>,
    passed: u32,
    written: String,
    facet: String,
    first: Option<(Reply, u64)>,
}

/// An answer with a count, as a mathematical object.
pub open spec fn first_view(o: Option<(Reply, u64)>) -> Option<(ReplyV, u64)> {
    match o {
        Some((r, n)) => Some((r.deep_view(), n)),
        None => None,
    }
}

impl View for Drill {
    type V = DrillV;

    closed spec fn view(&self) -> DrillV {
        DrillV {
            step: self.step,
            passed: self.passed,
            written: self.written@,
            facet: self.facet@,
            first: first_view(self.first),
        }
    }
}

impl Drill {
    pub fn new() -> (r: Self)
        ensures
            r@ == DrillV::start(),
            r@.wf(),
    {
        let r = Drill {
            step: Some(Step::Write),
            passed: 0,
            written: String::new(),
            facet: String::new(),
            first: None,
        };
        assert(r@ =~= DrillV::start());
        r
    }

    /// The request that comes next; none where all are done.
    pub fn ask(&self) -> (r: Option<Probe>)
        ensures
            match (r, self@.step) {
                (Some(p), Some(s)) => p.deep_view() == request_of(
                    s,
                    self@.written,
                    self@.facet,
                ),
                (None, None) => true,
                _ => false,
            },
    {
        match self.step {
            Some(s) => Some(request(s, self.written.as_str(), self.facet.as_str())),
            None => None,
        }
    }

    /// The handle that the first write gave.
    pub fn written(&self) -> (r: &str)
        ensures
            r@ == self@.written,
    {
        self.written.as_str()
    }

    /// How many checks were passed.
    pub fn passed(&self) -> (r: u32)
        ensures
            r == self@.passed,
    {
        self.passed
    }

    fn advance(&mut self, next: Option<Step>, checks: u32)
        requires
            old(self)@.passed + checks <= 11,
        ensures
            final(self)@ == (DrillV {
                step: next,
                passed: (old(self)@.passed + checks) as u32,
                ..old(self)@
            }),
    {
        self.step = next;
        self.passed = self.passed + checks;
    }

    fn after(&mut self, ev: &Evidence, detail: &str, next: Option<Step>) -> (r: UcResult<()>)
        requires
            old(self)@.passed < 11,
        ensures
            match old(self)@.after(ev.deep_view(), detail@, next) {
                Ok(d) => r is Ok && final(self)@ == d,
                Err(e) => agrees(r, Err::<(), ErrV>(e)) && final(self)@ == old(self)@,
            },
    {
        match judge(ev, detail) {
            Err(e) => Err(e),
            Ok(()) => {
                self.advance(next, 1);
                Ok(())
            },
        }
    }

    /// Takes an answer: goes on, or says what failed and stays where it is.
    pub fn take(&mut self, reply: Reply, detail: &str, seen: Seen) -> (r: UcResult<()>)
        requires
            old(self)@.wf(),
        ensures
            match old(self)@.take(reply.deep_view(), detail@, seen.deep_view()) {
                Ok(d) => r is Ok && final(self)@ == d && d.wf(),
                Err(e) => agrees(r, Err::<(), ErrV>(e)) && final(self)@ == old(self)@,
            },
    {
        let step = match self.step {
            None => {
                return Ok(());
            },
            Some(s) => s,
        };
        match step {
            Step::Write => {
                let written = reply.result.str_or_empty("handle");
                match self.after(&Evidence::Written { reply }, detail, Some(Step::Recall)) {
                    Err(e) => Err(e),
                    Ok(()) => {
                        self.written = written;
                        Ok(())
                    },
                }
            },
            Step::Recall => self.after(
                &Evidence::Recalled { reply },
                detail,
                Some(Step::Supersede),
            ),
            Step::Supersede => self.after(
                &Evidence::Superseded { reply, superseded: seen.superseded },
                detail,
                Some(Step::Anchorless),
            ),
            Step::Anchorless => self.after(
                &Evidence::Quarantined { reply },
                detail,
                Some(Step::Budget),
            ),
            Step::Budget => self.after(&Evidence::Refused { reply }, detail, Some(Step::View)),
            Step::View => {
                self.first = Some((reply, seen.hits));
                self.step = Some(Step::ViewAgain);
                Ok(())
            },
            Step::ViewAgain => {
                let (first, hits_before) = match &self.first {
                    Some((f, n)) => (
                        Reply {
                            ok: f.ok,
                            result: f.result.dup(),
                            err_code: f.err_code,
                            quarantine_id: dup_text(&f.quarantine_id),
                        },
                        *n,
                    ),
                    None => {
                        return Ok(());
                    },
                };
                let ev = Evidence::Cached {
                    first,
                    second: reply,
                    hits_before,
                    hits_after: seen.hits,
                };
                if let Err(e) = judge(&ev, detail) {
                    return Err(e);
                }
                let active = Evidence::SkeletonActive { active: seen.active.is_some() };
                if let Err(e) = judge(&active, "no active skeleton") {
                    return Err(e);
                }
                self.advance(Some(Step::Gate), 2);
                Ok(())
            },
            Step::Gate => {
                if let Err(e) = judge(&Evidence::Gated { reply }, detail) {
                    return Err(e);
                }
                let counted = Evidence::Counted { queued: seen.queued };
                if let Err(e) = judge(&counted, "stats unavailable") {
                    return Err(e);
                }
                match facet_to_probe(seen.active, seen.pending) {
                    Ok(f) => {
                        self.advance(Some(Step::Denial), 2);
                        self.facet = f;
                        Ok(())
                    },
                    Err(e) => Err(e),
                }
            },
            Step::Denial => self.after(
                &Evidence::Denied { reply, denied: seen.denied },
                detail,
                Some(Step::Hydrate),
            ),
            Step::Hydrate => self.after(&Evidence::Hydrated { reply }, detail, None),
        }
    }
}

fn judge(ev: &Evidence, detail: &str) -> (r: UcResult<()>)
    ensures
        agrees(r, done(verdict(ev.deep_view(), detail@))),
{
    if ev.passes() {
        Ok(())
    } else {
        Err(
            UcError::internal(cat4("self-test B5 `", ev.name(), "` failed: ", detail).as_str()),
        )
    }
}

} // verus!
