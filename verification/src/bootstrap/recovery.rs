//! Recovery: whether a data directory may be taken up, and what the frames of the
//! log say again.

use vstd::prelude::*;
use crate::cbor::{text_or_empty, value_or_null, Cbor, CborV};
use crate::cells::fact::{Fact, FactCell, FactV, FactsV};
use crate::codec::value_of;
use crate::curator::{CuratorPublic, CuratorPublicV};
use crate::node::FACT_ID;
use crate::obs::metrics::Metrics;
use crate::persist::wal::{frame_views, FrameV, WalFrame, WalOp};
use crate::text::{cat3, cat5, chars_of, dec_text, starts, str_eq, str_starts, u64_text};
use crate::vocab::{agrees, ErrCode, ErrV, LogicalClock, UcError, UcResult};

verus! {

/// A data directory is only taken up by the node that it belongs to.
pub fn check_owner(owner: &str, node_id: &str) -> (r: UcResult<()>)
    ensures
        agrees(
            r,
            if owner@ == node_id@ {
                Ok(())
            } else {
                Err(
                    (
                        ErrCode::Internal,
                        "data dir belongs to node `"@ + owner@ + "`, refusing to boot as `"@
                            + node_id@ + "`"@,
                    ),
                )
            },
        ),
{
    if str_eq(owner, node_id) {
        Ok(())
    } else {
        Err(
            UcError::internal(
                cat5(
                    "data dir belongs to node `",
                    owner,
                    "`, refusing to boot as `",
                    node_id,
                    "`",
                ).as_str(),
            ),
        )
    }
}

/// Counts what recovery found: an unclean shutdown, and torn ends of logs.
pub fn note_recovery(metrics: &mut Metrics, clean: bool, torn: u64)
    ensures
        ({
            let m = if clean {
                old(metrics)@
            } else {
                old(metrics)@.noted("boot.unclean_recovery"@)
            };
            final(metrics)@ == if torn == 0 {
                m
            } else {
                m.raised("boot.torn_tails"@, torn)
            }
        }),
{
    if !clean {
        metrics.inc("boot.unclean_recovery");
    }
    if torn > 0 {
        metrics.add("boot.torn_tails", torn);
    }
}

/// A node only serves on a whole audit chain.
pub fn check_audit(records: u64, whole: bool) -> (r: UcResult<()>)
    ensures
        agrees(
            r,
            if whole {
                Ok(())
            } else {
                Err(
                    (
                        ErrCode::Internal,
                        "audit chain integrity failure after "@ + dec_text(records as nat)
                            + " records \u{2014} refusing to serve"@,
                    ),
                )
            },
        ),
{
    if whole {
        Ok(())
    } else {
        Err(
            UcError::internal(
                cat3(
                    "audit chain integrity failure after ",
                    u64_text(records).as_str(),
                    " records \u{2014} refusing to serve",
                ).as_str(),
            ),
        )
    }
}

/// A node only serves where the signatures of the ledger hold.
pub fn check_signatures(verified: u64, whole: bool) -> (r: UcResult<()>)
    ensures
        agrees(
            r,
            if whole {
                Ok(())
            } else {
                Err(
                    (
                        ErrCode::Internal,
                        "cross-check batch signature verification failed after "@ + dec_text(
                            verified as nat,
                        ) + " verified batches \u{2014} refusing to serve"@,
                    ),
                )
            },
        ),
{
    if whole {
        Ok(())
    } else {
        Err(
            UcError::internal(
                cat3(
                    "cross-check batch signature verification failed after ",
                    u64_text(verified).as_str(),
                    " verified batches \u{2014} refusing to serve",
                ).as_str(),
            ),
        )
    }
}

/// What a frame leaves to do beyond the facts.
#[derive(Debug)]
pub enum Replay {
    Nothing,
    /// A fact is back and has to be indexed under its handle.
    Indexed { handle: String, text: String },
    /// A decision was superseded.
    Decision { prior: String, new: String },
    /// The public text of an output.
    Public { handle: String, body: String },
}

/// What a frame leaves to do, as a mathematical object.
pub enum ReplayV {
    Nothing,
    Indexed { handle: Seq<char>, text: Seq<char> },
    Decision { prior: Seq<char>, new: Seq<char> },
    Public { handle: Seq<char>, body: Seq<char> },
}

impl DeepView for Replay {
    type V = ReplayV;

    open spec fn deep_view(&self) -> ReplayV {
        match self {
            Replay::Nothing => ReplayV::Nothing,
            Replay::Indexed { handle, text } => ReplayV::Indexed { handle: handle@, text: text@ },
            Replay::Decision { prior, new } => ReplayV::Decision { prior: prior@, new: new@ },
            Replay::Public { handle, body } => ReplayV::Public { handle: handle@, body: body@ },
        }
    }
}

/// The fact that the body of a write holds.
pub open spec fn written_fact(body: CborV, at: u64) -> FactV {
    let payload = value_or_null(body, "payload"@);
    FactV {
        handle: text_or_empty(body, "handle"@),
        subject: text_or_empty(payload, "subject"@),
        predicate: text_or_empty(payload, "predicate"@),
        object: text_or_empty(payload, "object"@),
        confidence: None,
        written_at: at,
        superseded_by: None,
        supersedes: payload.text_field("supersedes"@),
        anchor: text_or_empty(body, "anchor"@),
    }
}

/// What a frame does to the facts, and what it leaves to do. A fact that is
/// already there stays as it is; a supersession that was done is not done again.
pub open spec fn frame_effect(facts: FactsV, f: FrameV) -> Result<(FactsV, ReplayV), ErrV> {
    match value_of(f.payload) {
        Err(e) => Err(e),
        Ok(body) => match f.op {
            WalOp::Write => {
                let fact = written_fact(body, f.logical_at);
                if f.cell_id == FACT_ID && !facts.facts.contains_key(fact.handle)
                    && fact.handle.len() > 0 {
                    Ok(
                        (
                            facts.insert(fact),
                            ReplayV::Indexed {
                                handle: fact.handle,
                                text: fact.subject + " "@ + fact.predicate + " "@ + fact.object,
                            },
                        ),
                    )
                } else {
                    Ok((facts, ReplayV::Nothing))
                }
            },
            WalOp::Supersede => {
                let prior = text_or_empty(body, "old"@);
                let new = text_or_empty(body, "new"@);
                if starts(prior, "decision/"@) {
                    Ok((facts, ReplayV::Decision { prior, new }))
                } else {
                    match facts.supersede(prior, new) {
                        Ok(next) => Ok((next, ReplayV::Nothing)),
                        Err(_) => Ok((facts, ReplayV::Nothing)),
                    }
                }
            },
            WalOp::CuratorOutput => match CuratorPublicV::read(body) {
                Ok(p) => Ok(
                    (facts, ReplayV::Public { handle: p.output_handle, body: p.body }),
                ),
                Err(_) => Ok((facts, ReplayV::Nothing)),
            },
            _ => Ok((facts, ReplayV::Nothing)),
        },
    }
}

/// Does again what a frame says.
pub fn replay_frame(facts: &mut FactCell, frame: &WalFrame) -> (r: UcResult<Replay>)
    ensures
        final(facts).ident() == old(facts).ident(),
        old(facts)@.wf() ==> final(facts)@.wf(),
        match frame_effect(old(facts)@, frame@) {
            Ok((next, todo)) => r is Ok && r->Ok_0.deep_view() == todo && final(facts)@ == next,
            Err(e) => r is Err && r->Err_0.plain(e.0, e.1) && final(facts)@ == old(facts)@,
        },
{
    let body = match Cbor::decode(frame.payload.as_slice()) {
        Ok(b) => b,
        Err(e) => {
            return Err(e);
        },
    };
    match frame.op {
        WalOp::Write => {
            let handle = body.str_or_empty("handle");
            let payload = body.value_or_null("payload");
            if frame.cell_id == FACT_ID && !facts.has(handle.as_str()) && chars_of(
                handle.as_str(),
            ).len() > 0 {
                let fact = Fact {
                    handle: handle.as_str().to_string(),
                    subject: payload.str_or_empty("subject"),
                    predicate: payload.str_or_empty("predicate"),
                    object: payload.str_or_empty("object"),
                    confidence: None,
                    written_at: frame.logical_at,
                    superseded_by: None,
                    supersedes: payload.opt_str("supersedes"),
                    anchor: body.str_or_empty("anchor"),
                };
                let text = cat5(
                    fact.subject.as_str(),
                    " ",
                    fact.predicate.as_str(),
                    " ",
                    fact.object.as_str(),
                );
                assert(fact.deep_view() =~= written_fact(body@, frame.logical_at));
                facts.insert(fact);
                Ok(Replay::Indexed { handle, text })
            } else {
                Ok(Replay::Nothing)
            }
        },
        WalOp::Supersede => {
            let prior = body.str_or_empty("old");
            let new = body.str_or_empty("new");
            if str_starts(prior.as_str(), "decision/") {
                Ok(Replay::Decision { prior, new })
            } else {
                match facts.supersede(prior.as_str(), new.as_str()) {
                    Ok(_) => {},
                    Err(_) => {},
                }
                Ok(Replay::Nothing)
            }
        },
        WalOp::CuratorOutput => match CuratorPublic::from_cbor(&body) {
            Ok(p) => Ok(Replay::Public { handle: p.output_handle, body: p.body }),
            Err(_) => Ok(Replay::Nothing),
        },
        _ => Ok(Replay::Nothing),
    }
}

/// Doing a frame twice is doing it once: a log may overlap what is already there.
pub proof fn lemma_replay_twice(facts: FactsV, f: FrameV)
    requires
        frame_effect(facts, f) is Ok,
    ensures
        ({
            let once = frame_effect(facts, f)->Ok_0.0;
            frame_effect(once, f) is Ok && frame_effect(once, f)->Ok_0.0 == once
        }),
{
    let body = value_of(f.payload)->Ok_0;
    match f.op {
        WalOp::Supersede => {
            let prior = text_or_empty(body, "old"@);
            let new = text_or_empty(body, "new"@);
            if !starts(prior, "decision/"@) && facts.supersede(prior, new) is Ok {
                let next = facts.link(prior, new);
                assert(next.facts.contains_key(prior));
                assert(next.facts[prior].superseded_by == Some(new));
            }
        },
        _ => {},
    }
}

/// What the first `n` frames of a log do, as far as they are later than a
/// snapshot: the facts, the clock, how many were done, what they leave to do, and
/// the error that ended them.
pub struct RunV {
    pub facts: FactsV,
    pub clock: u64,
    pub count: nat,
    pub todo: Seq<ReplayV>,
    pub error: Option<ErrV>,
}

/// The run of the first `n` frames.
pub open spec fn run_of(facts: FactsV, clock: u64, frames: Seq<FrameV>, after: u64, n: nat) -> RunV
    decreases n,
{
    if n == 0 {
        RunV { facts, clock, count: 0, todo: Seq::empty(), error: None }
    } else {
        let before = run_of(facts, clock, frames, after, (n - 1) as nat);
        let f = frames[n - 1];
        if before.error is Some || f.logical_at <= after {
            before
        } else {
            match frame_effect(before.facts, f) {
                Err(e) => RunV { error: Some(e), ..before },
                Ok((next, todo)) => RunV {
                    facts: next,
                    clock: if before.clock < f.logical_at {
                        f.logical_at
                    } else {
                        before.clock
                    },
                    count: before.count + 1,
                    todo: before.todo.push(todo),
                    error: None,
                },
            }
        }
    }
}

proof fn lemma_run_ends(facts: FactsV, clock: u64, frames: Seq<FrameV>, after: u64, n: nat, m: nat)
    requires
        n <= m,
        run_of(facts, clock, frames, after, n).error is Some,
    ensures
        run_of(facts, clock, frames, after, m) == run_of(facts, clock, frames, after, n),
    decreases m,
{
    if n < m {
        lemma_run_ends(facts, clock, frames, after, n, (m - 1) as nat);
    }
}

proof fn lemma_facts_stay(facts: FactsV, f: FrameV, h: Seq<char>)
    requires
        frame_effect(facts, f) is Ok,
        facts.facts.contains_key(h),
    ensures
        frame_effect(facts, f)->Ok_0.0.facts.contains_key(h),
{
}

/// Every fact whose write is in the log, later than the snapshot, is there after
/// the log was replayed.
pub proof fn lemma_writes_recovered(
    facts: FactsV,
    clock: u64,
    frames: Seq<FrameV>,
    after: u64,
    n: nat,
    i: int,
)
    requires
        0 <= i < n <= frames.len(),
        run_of(facts, clock, frames, after, n).error is None,
        frames[i].logical_at > after,
        frames[i].op == WalOp::Write,
        frames[i].cell_id == FACT_ID,
        value_of(frames[i].payload) is Ok,
        text_or_empty(value_of(frames[i].payload)->Ok_0, "handle"@).len() > 0,
    ensures
        run_of(facts, clock, frames, after, n).facts.facts.contains_key(
            text_or_empty(value_of(frames[i].payload)->Ok_0, "handle"@),
        ),
    decreases n,
{
    let h = text_or_empty(value_of(frames[i].payload)->Ok_0, "handle"@);
    let before = run_of(facts, clock, frames, after, (n - 1) as nat);
    let f = frames[n - 1];
    assert(before.error is None);
    if i < n - 1 {
        lemma_writes_recovered(facts, clock, frames, after, (n - 1) as nat, i);
        if f.logical_at > after {
            lemma_facts_stay(before.facts, f, h);
        }
    } else {
        assert(written_fact(value_of(f.payload)->Ok_0, f.logical_at).handle == h);
    }
}

/// A value has that text under a key, or none there where the text is empty.
pub open spec fn tells(v: CborV, key: Seq<char>, t: Seq<char>) -> bool {
    v.text_field(key) == Some(t) || (v.text_field(key) is None && t.len() == 0)
}

/// A frame is the write of the fact with that handle.
pub open spec fn writes(f: FrameV, h: Seq<char>) -> bool {
    &&& f.op is Write
    &&& f.cell_id == FACT_ID
    &&& value_of(f.payload) is Ok
    &&& value_of(f.payload)->Ok_0.text_field("handle"@) == Some(h)
    &&& h.len() > 0
}

/// A stored fact is the one that the write of a frame wrote, apart from what
/// superseded it or was superseded by it since.
pub open spec fn as_written(w: FactV, f: FrameV) -> bool {
    let body = value_of(f.payload)->Ok_0;
    let payload = match body.field("payload"@) {
        Some(p) => p,
        None => CborV::Null,
    };
    &&& body.text_field("handle"@) == Some(w.handle)
    &&& tells(payload, "subject"@, w.subject)
    &&& tells(payload, "predicate"@, w.predicate)
    &&& tells(payload, "object"@, w.object)
    &&& tells(body, "anchor"@, w.anchor)
    &&& w.written_at == f.logical_at
    &&& w.confidence is None
}

/// A write whose handle is new puts back the fact as it was written, to be indexed
/// by its subject, predicate and object, and touches no other; a write whose handle
/// is there already changes nothing.
pub proof fn lemma_write_replayed(facts: FactsV, f: FrameV, h: Seq<char>)
    requires
        writes(f, h),
    ensures
        frame_effect(facts, f) is Ok,
        facts.facts.contains_key(h) ==> frame_effect(facts, f)->Ok_0 == (facts, ReplayV::Nothing),
        !facts.facts.contains_key(h) ==> {
            let (st, todo) = frame_effect(facts, f)->Ok_0;
            let w = st.facts[h];
            &&& st.facts.contains_key(h)
            &&& w.handle == h
            &&& as_written(w, f)
            &&& w.superseded_by is None
            &&& match value_of(f.payload)->Ok_0.field("payload"@) {
                Some(p) => w.supersedes == p.text_field("supersedes"@),
                None => w.supersedes is None,
            }
            &&& todo == ReplayV::Indexed {
                handle: h,
                text: w.subject + " "@ + w.predicate + " "@ + w.object,
            }
            &&& forall|k: Seq<char>| #[trigger]
                st.facts.contains_key(k) <==> facts.facts.contains_key(k) || k == h
            &&& forall|k: Seq<char>| #[trigger]
                facts.facts.contains_key(k) ==> st.facts[k] == facts.facts[k]
            &&& facts.wf() ==> st.wf() && st.active_handle(w.subject, w.predicate, h)
        },
{
    let body = value_of(f.payload)->Ok_0;
    let fact = written_fact(body, f.logical_at);
    if !facts.facts.contains_key(h) && facts.wf() {
        facts.lemma_insert(fact);
        facts.insert(fact).lemma_active_handle(fact.subject, fact.predicate, h);
    }
}

/// Replaying the write of a fact gives that very fact: whatever was written, its
/// frame puts back the same, field by field.
pub proof fn lemma_written_is_replayed(facts: FactsV, f: FrameV, body: CborV, payload: CborV, w: FactV)
    requires
        f.op is Write,
        f.cell_id == FACT_ID,
        value_of(f.payload) == Ok::<_, ErrV>(body),
        body.text_field("handle"@) == Some(w.handle),
        body.text_field("anchor"@) == Some(w.anchor),
        body.field("payload"@) == Some(payload),
        payload.text_field("subject"@) == Some(w.subject),
        payload.text_field("predicate"@) == Some(w.predicate),
        payload.text_field("object"@) == Some(w.object),
        payload.text_field("supersedes"@) == w.supersedes,
        f.logical_at == w.written_at,
        w.confidence is None,
        w.superseded_by is None,
        w.handle.len() > 0,
        !facts.facts.contains_key(w.handle),
    ensures
        frame_effect(facts, f) is Ok,
        frame_effect(facts, f)->Ok_0.0.facts == facts.facts.insert(w.handle, w),
{
    assert(written_fact(body, f.logical_at) =~= w);
}

/// A supersession of a fact is done again where both facts are there and the old
/// one was not superseded, and else nothing is; one of a decision is left to do.
pub proof fn lemma_supersession_replayed(facts: FactsV, f: FrameV, o: Seq<char>, n: Seq<char>)
    requires
        f.op is Supersede,
        value_of(f.payload) is Ok,
        value_of(f.payload)->Ok_0.text_field("old"@) == Some(o),
        value_of(f.payload)->Ok_0.text_field("new"@) == Some(n),
    ensures
        frame_effect(facts, f) is Ok,
        ({
            let (st, todo) = frame_effect(facts, f)->Ok_0;
            let due = facts.facts.contains_key(o) && facts.facts.contains_key(n)
                && facts.facts[o].superseded_by is None;
            if starts(o, "decision/"@) {
                st == facts && todo == (ReplayV::Decision { prior: o, new: n })
            } else if !due {
                st == facts && todo is Nothing
            } else {
                &&& todo is Nothing
                &&& st.facts[o].superseded_by == Some(n)
                &&& st.facts[n].supersedes == Some(o)
                &&& o != n ==> st.facts[n].superseded_by == facts.facts[n].superseded_by
                &&& st.facts.dom() == facts.facts.dom()
                &&& forall|k: Seq<char>| #[trigger]
                    facts.facts.contains_key(k) ==> st.facts[k].same_content(facts.facts[k])
                &&& forall|k: Seq<char>| #[trigger]
                    facts.facts.contains_key(k) && k != o && k != n ==> st.facts[k]
                        == facts.facts[k]
            }
        }),
{
    let st = frame_effect(facts, f)->Ok_0.0;
    assert(st.facts.dom() =~= facts.facts.dom());
}

/// The output of a curator gives its public text back under its handle; and what
/// is no write, supersession or output changes no fact and leaves nothing to do.
pub proof fn lemma_other_replayed(facts: FactsV, f: FrameV)
    requires
        value_of(f.payload) is Ok,
        !(f.op is Write),
        !(f.op is Supersede),
    ensures
        frame_effect(facts, f) is Ok,
        frame_effect(facts, f)->Ok_0.0 == facts,
        f.op is CuratorOutput && CuratorPublicV::read(value_of(f.payload)->Ok_0) is Ok ==> {
            let body = value_of(f.payload)->Ok_0;
            match frame_effect(facts, f)->Ok_0.1 {
                ReplayV::Public { handle, body: text } => body.text_field("output_handle"@) == Some(
                    handle,
                ) && tells(body, "body"@, text),
                _ => false,
            }
        },
        !(f.op is CuratorOutput) ==> frame_effect(facts, f)->Ok_0.1 is Nothing,
{
}

proof fn lemma_content_stays(facts: FactsV, f: FrameV, h: Seq<char>)
    requires
        frame_effect(facts, f) is Ok,
        facts.facts.contains_key(h),
    ensures
        frame_effect(facts, f)->Ok_0.0.facts.contains_key(h),
        frame_effect(facts, f)->Ok_0.0.facts[h].same_content(facts.facts[h]),
{
}

/// Replay invents nothing: every fact that is there afterwards was there before, or
/// is the write of some frame later than the snapshot; and what was there before
/// still says the same.
pub proof fn lemma_nothing_invented(
    facts: FactsV,
    clock: u64,
    frames: Seq<FrameV>,
    after: u64,
    n: nat,
    h: Seq<char>,
)
    requires
        n <= frames.len(),
    ensures
        run_of(facts, clock, frames, after, n).facts.facts.contains_key(h) ==> {
            ||| facts.facts.contains_key(h)
            ||| exists|i: int|
                0 <= i < n && writes(#[trigger] frames[i], h) && frames[i].logical_at > after
        },
        facts.facts.contains_key(h) ==> {
            let now = run_of(facts, clock, frames, after, n).facts.facts;
            now.contains_key(h) && now[h].same_content(facts.facts[h])
        },
    decreases n,
{
    if n > 0 {
        lemma_nothing_invented(facts, clock, frames, after, (n - 1) as nat, h);
        let before = run_of(facts, clock, frames, after, (n - 1) as nat);
        let f = frames[n - 1];
        if before.error is None && f.logical_at > after && frame_effect(before.facts, f) is Ok {
            let st = frame_effect(before.facts, f)->Ok_0.0;
            if before.facts.facts.contains_key(h) {
                lemma_content_stays(before.facts, f, h);
            } else if st.facts.contains_key(h) {
                assert(writes(frames[n - 1], h));
            }
        }
    }
}

/// Every fact whose write is in the log, later than the snapshot, and whose handle
/// was not there before and in no earlier such write, is back as it was written
/// after the log was replayed: its subject, predicate and object, its anchor and
/// its time.
pub proof fn lemma_recovered_as_written(
    facts: FactsV,
    clock: u64,
    frames: Seq<FrameV>,
    after: u64,
    n: nat,
    i: int,
    h: Seq<char>,
)
    requires
        0 <= i < n <= frames.len(),
        run_of(facts, clock, frames, after, n).error is None,
        frames[i].logical_at > after,
        writes(frames[i], h),
        !facts.facts.contains_key(h),
        forall|k: int|
            0 <= k < i && (#[trigger] frames[k]).logical_at > after ==> !writes(frames[k], h),
    ensures
        ({
            let now = run_of(facts, clock, frames, after, n).facts.facts;
            now.contains_key(h) && now[h].handle == h && as_written(now[h], frames[i])
        }),
    decreases n,
{
    let before = run_of(facts, clock, frames, after, (n - 1) as nat);
    let f = frames[n - 1];
    assert(before.error is None);
    if i < n - 1 {
        lemma_recovered_as_written(facts, clock, frames, after, (n - 1) as nat, i, h);
        if f.logical_at > after {
            lemma_content_stays(before.facts, f, h);
        }
    } else {
        lemma_nothing_invented(facts, clock, frames, after, (n - 1) as nat, h);
        assert(!before.facts.facts.contains_key(h));
        lemma_write_replayed(before.facts, f, h);
    }
}

/// A log of which every frame is as old as the snapshot changes nothing.
pub proof fn lemma_old_frames_skipped(
    facts: FactsV,
    clock: u64,
    frames: Seq<FrameV>,
    after: u64,
    n: nat,
)
    requires
        n <= frames.len(),
        forall|i: int| 0 <= i < n ==> (#[trigger] frames[i]).logical_at <= after,
    ensures
        ({
            let run = run_of(facts, clock, frames, after, n);
            run.facts == facts && run.clock == clock && run.todo.len() == 0 && run.error is None
        }),
    decreases n,
{
    if n > 0 {
        lemma_old_frames_skipped(facts, clock, frames, after, (n - 1) as nat);
    }
}

/// The clock never goes back: afterwards it is at least where it was and at least at
/// every frame that was replayed, and at one of these.
pub proof fn lemma_clock_replayed(
    facts: FactsV,
    clock: u64,
    frames: Seq<FrameV>,
    after: u64,
    n: nat,
)
    requires
        n <= frames.len(),
        run_of(facts, clock, frames, after, n).error is None,
    ensures
        ({
            let now = run_of(facts, clock, frames, after, n).clock;
            &&& clock <= now
            &&& forall|i: int|
                0 <= i < n && (#[trigger] frames[i]).logical_at > after ==> frames[i].logical_at
                    <= now
            &&& now == clock || exists|i: int|
                0 <= i < n && (#[trigger] frames[i]).logical_at > after && frames[i].logical_at
                    == now
        }),
    decreases n,
{
    if n > 0 {
        let before = run_of(facts, clock, frames, after, (n - 1) as nat);
        assert(before.error is None);
        lemma_clock_replayed(facts, clock, frames, after, (n - 1) as nat);
        let now = run_of(facts, clock, frames, after, n).clock;
        if now != clock && now == before.clock {
            let i = choose|i: int|
                0 <= i < n - 1 && (#[trigger] frames[i]).logical_at > after && frames[i].logical_at
                    == now;
            assert(frames[i].logical_at == now);
        } else if now != clock {
            assert(frames[n - 1].logical_at == now);
        }
    }
}

/// A replay ends in an error exactly where a frame later than the snapshot cannot
/// be decoded.
pub proof fn lemma_replay_error(
    facts: FactsV,
    clock: u64,
    frames: Seq<FrameV>,
    after: u64,
    n: nat,
)
    requires
        n <= frames.len(),
    ensures
        run_of(facts, clock, frames, after, n).error is Some <==> exists|i: int|
            0 <= i < n && (#[trigger] frames[i]).logical_at > after && value_of(frames[i].payload)
                is Err,
    decreases n,
{
    if n > 0 {
        lemma_replay_error(facts, clock, frames, after, (n - 1) as nat);
        let before = run_of(facts, clock, frames, after, (n - 1) as nat);
        let f = frames[n - 1];
        if before.error is None && f.logical_at > after && value_of(f.payload) is Err {
            assert(run_of(facts, clock, frames, after, n).error is Some);
        }
        if before.error is None && run_of(facts, clock, frames, after, n).error is Some {
            assert(frames[n - 1].logical_at > after && value_of(frames[n - 1].payload) is Err);
        }
    }
}

/// Does again what the frames of a log say, as far as they are later than a
/// snapshot. Gives what they leave to do, one for each.
pub fn replay_log(
    facts: &mut FactCell,
    clock: &mut LogicalClock,
    frames: &Vec<WalFrame>,
    after: u64,
) -> (r: UcResult<Vec<Replay>>)
    ensures
        final(facts).ident() == old(facts).ident(),
        old(facts)@.wf() ==> final(facts)@.wf(),
        ({
            let run = run_of(
                old(facts)@,
                old(clock)@,
                frame_views(frames@),
                after,
                frames@.len(),
            );
            &&& final(facts)@ == run.facts
            &&& final(clock)@ == run.clock
            &&& match run.error {
                None => r is Ok && r->Ok_0.deep_view() == run.todo && r->Ok_0@.len() == run.count,
                Some(e) => r is Err && r->Err_0.plain(e.0, e.1),
            }
        }),
{
    let ghost fs = frame_views(frames@);
    let ghost f0 = facts@;
    let ghost c0 = clock@;
    let ghost id = facts.ident();
    let mut out: Vec<Replay> = Vec::new();
    assert(out.deep_view() =~= Seq::empty());
    let mut i: usize = 0;
    while i < frames.len()
        invariant
            i <= frames@.len(),
            fs == frame_views(frames@),
            f0 == old(facts)@,
            c0 == old(clock)@,
            id == old(facts).ident(),
            facts.ident() == id,
            f0.wf() ==> facts@.wf(),
            ({
                let run = run_of(f0, c0, fs, after, i as nat);
                &&& run.error is None
                &&& facts@ == run.facts
                &&& clock@ == run.clock
                &&& out.deep_view() == run.todo
                &&& out@.len() == run.count
            }),
        decreases frames.len() - i,
    {
        assert(fs[i as int] == frames@[i as int]@);
        let frame = &frames[i];
        if frame.logical_at > after {
            match replay_frame(facts, frame) {
                Ok(todo) => {
                    let ghost before = out.deep_view();
                    let ghost t = todo.deep_view();
                    out.push(todo);
                    assert(out.deep_view() =~= before.push(t));
                    clock.advance_to(frame.logical_at);
                },
                Err(e) => {
                    proof {
                        lemma_run_ends(f0, c0, fs, after, (i + 1) as nat, fs.len());
                    }
                    return Err(e);
                },
            }
        }
        i += 1;
    }
    Ok(out)
}

/// The fields of the audit record of a boot.
pub fn boot_fields(node_id: &str, recovered: bool, replayed: u64, passed: u32) -> (r: Vec<
    (&'static str, Cbor),
>)
    ensures
        Seq::new(r@.len(), |i: int| (r@[i].0@, r@[i].1@)) == seq![
            ("node_id"@, CborV::Text(node_id@)),
            ("recovered"@, CborV::Bool(recovered)),
            ("replayed"@, CborV::U64(replayed)),
            ("self_test"@, CborV::U64(passed as u64)),
        ],
{
    let r = vec![
        ("node_id", Cbor::t(node_id)),
        ("recovered", Cbor::Bool(recovered)),
        ("replayed", Cbor::U64(replayed)),
        ("self_test", Cbor::U64(passed as u64)),
    ];
    assert(Seq::new(r@.len(), |i: int| (r@[i].0@, r@[i].1@)) =~= seq![
        ("node_id"@, CborV::Text(node_id@)),
        ("recovered"@, CborV::Bool(recovered)),
        ("replayed"@, CborV::U64(replayed)),
        ("self_test"@, CborV::U64(passed as u64)),
    ]);
    r
}

/// The line by which a node says that it serves.
pub fn ready_line(node_id: &str, proto_version: u64) -> (r: String)
    ensures
        r@ == "ready node_id="@ + node_id@ + " proto_version="@ + dec_text(proto_version as nat),
{
    crate::text::cat4("ready node_id=", node_id, " proto_version=", u64_text(proto_version).as_str())
}

} // verus!
