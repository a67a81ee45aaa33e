use ultracortex::cbor::Cbor;
use ultracortex::cells::CellBehavior;
use ultracortex::curator::adjudicator::{AdjudicatorCell, Dispute, Resolution, ResolutionPath};
use ultracortex::curator::backend::{
    DeterministicBackend, Exchange, ExternalGgufBackend, Worker,
};
use ultracortex::curator::frozen::FrozenPublicView;
use ultracortex::curator::guardrails::{
    BlindReauditScheduler, CalibrationTracker, ProbeScheduler, CALIBRATION_WINDOW,
};
use ultracortex::curator::ledger::{
    AgreementHealth, CrossCheckKind, CrossCheckLedgerCell, CrossCheckOutcome,
};
use ultracortex::curator::librarian::{CurationJob, LibrarianCell, OutputStatus};
use ultracortex::curator::warden::{
    audit_question, audit_with, harvest_handles, AuditVerdict, WardenCell,
};
use ultracortex::curator::{
    facet_handle, is_private_facet, ConfidenceBand, CuratorBackend, CuratorOperation,
    CuratorPublic, Verdict,
};
use ultracortex::obs::metrics::Metrics;
use ultracortex::persist::kms::{EncryptionTier, KeyRing, Kms};
use ultracortex::persist::wal::FLAG_CROSS_CHECK;
use ultracortex::vocab::{est_tokens, CellId, ErrCode, Severity};

fn view(handles: &[&str], facts: &[(&str, &str, &str, &str)]) -> FrozenPublicView {
    let mut v = FrozenPublicView::new();
    for h in handles {
        v.add_handle(h);
    }
    for (h, s, p, o) in facts {
        v.add_fact(h, s, p, o);
    }
    v
}

fn texts(items: &[&str]) -> Vec<String> {
    items.iter().map(|s| s.to_string()).collect()
}

#[test]
fn confidence_bands() {
    assert_eq!(
        ConfidenceBand::from_precise(0.2f64.to_bits()),
        ConfidenceBand::Low
    );
    assert_eq!(
        ConfidenceBand::from_precise(0.6f64.to_bits()),
        ConfidenceBand::Medium
    );
    assert_eq!(
        ConfidenceBand::from_precise(0.95f64.to_bits()),
        ConfidenceBand::High
    );
    assert_eq!(
        ConfidenceBand::from_precise(0.45f64.to_bits()),
        ConfidenceBand::Medium
    );
    assert_eq!(
        ConfidenceBand::from_precise(0.8f64.to_bits()),
        ConfidenceBand::High
    );
}

#[test]
fn private_facet_detection() {
    assert!(is_private_facet("librarian/output/01X/rationale"));
    assert!(is_private_facet("warden/judgment/01Y/reasoning_trace"));
    assert!(is_private_facet("librarian/output/01X/confidence_precise"));
    assert!(!is_private_facet("librarian/output/01X"));
    assert!(!is_private_facet("librarian/output/01X/public"));
    assert!(!is_private_facet("fact/rationale-of-the-decision"));
}

#[test]
fn deterministic_skeleton_is_stable_and_bounded() {
    let b = DeterministicBackend;
    let text = "The router validates every write. The trinity chain has five steps. \
                Failures land in quarantine. Quarantine never drops items silently. \
                The warden audits the librarian. The adjudicator resolves disputes. \
                Budgets are mandatory on every envelope. Snapshots are copy on write.";
    let s1 = b.skeleton(text, 20);
    let s2 = b.skeleton(text, 20);
    assert_eq!(s1, s2);
    assert!(est_tokens(s1.len()) as usize <= 20 + 12);
    assert!(!s1.is_empty());
}

#[test]
fn ranking_agrees_with_doubles() {
    let text = "Alpha beta gamma. Beta gamma delta. Nothing here at all. Gamma delta alpha beta. \
                Unrelated words stand alone. Delta gamma.";
    let ranked = DeterministicBackend::rank_sentences(text);
    let sentences: Vec<String> = ultracortex::curator::backend::split_sentences(text);
    let sets: Vec<std::collections::BTreeSet<String>> = sentences
        .iter()
        .map(|s| ultracortex::cells::index::tokenize(s).into_iter().collect())
        .collect();
    let mut scored: Vec<(f64, usize)> = Vec::new();
    for i in 0..sets.len() {
        let mut overlap = 0usize;
        for j in 0..sets.len() {
            if i != j {
                overlap += sets[i].intersection(&sets[j]).count();
            }
        }
        let boost = 1.0 / (1.0 + i as f64 * 0.15);
        scored.push((overlap as f64 * boost + boost, i));
    }
    scored.sort_by(|a, b| b.0.partial_cmp(&a.0).unwrap().then_with(|| a.1.cmp(&b.1)));
    let want: Vec<usize> = scored.iter().map(|x| x.1).collect();
    let got: Vec<usize> = ranked.iter().map(|x| x.0).collect();
    assert_eq!(got, want);
}

#[test]
fn deterministic_adjudication_by_evidence() {
    let b = DeterministicBackend;
    let ev_init = texts(&[
        "supports_initiator: handle exists",
        "supports_initiator: object matches",
    ]);
    assert_eq!(b.adjudicate(1, "d", &ev_init), Verdict::InitiatorCorrect);
    let ev_aud = texts(&[
        "supports_auditor: handle absent",
        "supports_auditor: conflicting fact",
    ]);
    assert_eq!(b.adjudicate(1, "d", &ev_aud), Verdict::AuditorCorrect);
    let tie: Vec<String> = vec![];
    assert_eq!(
        b.adjudicate(7, "same dispute", &tie),
        b.adjudicate(7, "same dispute", &tie)
    );
}

#[test]
fn public_cbor_roundtrip() {
    let p = CuratorPublic {
        output_handle: "librarian/output/01A".to_string(),
        operation: CuratorOperation::Skeleton,
        target_handle: "fact/01B".to_string(),
        grounded_in: texts(&["fact/01B", "fact/01C"]),
        confidence_band: ConfidenceBand::Medium,
        schema_id: "curator.librarian.output.v1".to_string(),
        spec_anchor: "LibrarianCell.md\u{00a7}3".to_string(),
        logical_at: 44,
        body: "skeleton text".to_string(),
    };
    let c = p.to_cbor();
    let p2 = CuratorPublic::from_cbor(&c).unwrap();
    assert_eq!(p2.output_handle, p.output_handle);
    assert_eq!(p2.operation, CuratorOperation::Skeleton);
    assert_eq!(p2.grounded_in.len(), 2);
    assert_eq!(p2.confidence_band, ConfidenceBand::Medium);
}

#[test]
fn external_answers_are_read() {
    let g = ExternalGgufBackend::new("gemma", "/w/gemma.gguf", "llama-cli");
    assert_eq!(g.backend_id(), "gguf.gemma");
    let args = g.skeleton_args("body", 80);
    assert_eq!(args[0], "-m");
    assert_eq!(args[7], "96");
    assert!(args[10].ends_with("\n\nbody"));
    assert_eq!(
        ExternalGgufBackend::answer(true, " <think>x</think>auditor \n"),
        Some("auditor".to_string())
    );
    assert_eq!(ExternalGgufBackend::answer(false, "auditor"), None);
    assert_eq!(ExternalGgufBackend::answer(true, "  "), None);
    let none: Vec<String> = vec![];
    assert_eq!(
        ExternalGgufBackend::verdict_from(Some("auditor".to_string()), 1, "d", &none),
        (Verdict::AuditorCorrect, false)
    );
    let (v, failed) = ExternalGgufBackend::verdict_from(None, 1, "d", &none);
    assert!(failed);
    assert_eq!(v, DeterministicBackend.adjudicate(1, "d", &none));
}

// --- librarian ------------------------------------------------------------

fn librarian() -> LibrarianCell<DeterministicBackend> {
    LibrarianCell::new(CellId(30), DeterministicBackend)
}

fn job(handle: &str, slot: Option<(&str, &str)>, text: &str, at: u64, seed: u64) -> CurationJob {
    CurationJob {
        written_handle: handle.to_string(),
        subject: slot.map(|s| s.0.to_string()),
        predicate: slot.map(|s| s.1.to_string()),
        object_text: text.to_string(),
        severity: Severity::P2,
        logical_at: at,
        seed,
    }
}

#[test]
fn skeleton_output_is_pending_and_deterministic() {
    let mut lib = librarian();
    let view = view(&["fact/01A"], &[]);
    let job = job(
        "fact/01A",
        Some(("svc.auth", "design")),
        "The auth service uses capability tokens. Tokens carry facet scopes. \
         Scopes are enforced by the router before dispatch.",
        100,
        7,
    );
    let out1 = lib.curate(&view, &job);
    assert_eq!(out1.public.operation, CuratorOperation::Skeleton);
    assert_eq!(
        lib.status(&out1.public.output_handle),
        Some(OutputStatus::Pending)
    );
    assert!(!out1.public.body.is_empty());
    let mut lib2 = librarian();
    let out2 = lib2.curate(&view, &job);
    assert_eq!(out1.public.output_handle, out2.public.output_handle);
    assert_eq!(out1.public.body, out2.public.body);
    assert_eq!(out1.private.private_seed, out2.private.private_seed);
}

#[test]
fn supersede_proposal_when_sp_slot_occupied() {
    let mut lib = librarian();
    let view = view(
        &["fact/NEW"],
        &[("fact/OLD", "svc.auth", "owner", "team-x")],
    );
    let out = lib.curate(
        &view,
        &job("fact/NEW", Some(("svc.auth", "owner")), "team-y", 200, 7),
    );
    assert_eq!(out.public.operation, CuratorOperation::SupersedeProposal);
    assert!(out.public.grounded_in.contains(&"fact/OLD".to_string()));
    assert!(out.public.grounded_in.contains(&"fact/NEW".to_string()));
    assert_eq!(
        out.public.body,
        "propose supersede: fact/OLD (\"team-x\") -> fact/NEW (\"team-y\") for (svc.auth, owner)"
    );
}

fn flag_public(op: CuratorOperation, handle: &str, grounded: &[&str]) -> CuratorPublic {
    CuratorPublic {
        output_handle: handle.to_string(),
        operation: op,
        target_handle: "librarian/output/01Q".to_string(),
        grounded_in: texts(grounded),
        confidence_band: ConfidenceBand::High,
        schema_id: "curator.warden.judgment.v1".to_string(),
        spec_anchor: "WardenCell.md\u{00a7}4".to_string(),
        logical_at: 5,
        body: "cites nonexistent fact/GHOST".to_string(),
    }
}

#[test]
fn sanity_check_agrees_with_true_hallucination_flag() {
    let lib = librarian();
    let view = view(&["fact/REAL"], &[]);
    let flag = flag_public(
        CuratorOperation::FlagHallucination,
        "warden/judgment/01Z",
        &["fact/GHOST"],
    );
    assert!(lib.sanity_check_warden(&view, &flag));
    let bogus_flag = CuratorPublic {
        grounded_in: texts(&["fact/REAL"]),
        ..flag
    };
    assert!(!lib.sanity_check_warden(&view, &bogus_flag));
}

#[test]
fn status_transitions_and_snapshot() {
    let mut lib = librarian();
    let view = view(&["fact/X"], &[]);
    let out = lib.curate(
        &view,
        &job(
            "fact/X",
            None,
            "Body text to skeletonize. It has two sentences.",
            9,
            1,
        ),
    );
    lib.register_private_facet(&out.public.output_handle, "rationale", [9u8; 32]);
    lib.set_status(&out.public.output_handle, OutputStatus::Active)
        .unwrap();
    let snap = lib.snapshot_state();
    let mut lib2 = librarian();
    lib2.restore_state(&snap).unwrap();
    assert_eq!(
        lib2.status(&out.public.output_handle),
        Some(OutputStatus::Active)
    );
    assert_eq!(
        lib2.private_facet_sha(&facet_handle(&out.public.output_handle, "rationale")),
        Some(&[9u8; 32])
    );
    assert_eq!(snap.encode(), lib2.snapshot_state().encode());
    assert!(lib2.active_skeleton_for("fact/X").is_some());
    assert_eq!(lib2.counts(), (0, 1, 0));
    assert!(lib2.set_status("librarian/output/none", OutputStatus::Active).is_err());
}

// --- warden ---------------------------------------------------------------

#[test]
fn harvest_finds_prefixed_handles_only() {
    let payload = Cbor::map(vec![
        (
            "note",
            Cbor::t("see fact/01A and decision/01B; ignore banana/split and fact/"),
        ),
        ("nested", Cbor::arr(vec![Cbor::t("blob/aa11")])),
    ]);
    let hs = harvest_handles(&payload);
    assert_eq!(hs, vec!["fact/01A", "decision/01B", "blob/aa11"]);
}

#[test]
fn envelope_gate_hallucination_and_drift() {
    let warden = WardenCell::new(CellId(31));
    let view = view(&[], &[("fact/OLD", "svc", "owner", "team-x")]);
    let bad = Cbor::map(vec![("note", Cbor::t("grounded in fact/GHOST"))]);
    assert_eq!(
        warden.judge_envelope(&view, &bad).unwrap_err().code,
        ErrCode::HallucinationDetected
    );
    let drift = Cbor::map(vec![
        ("subject", Cbor::t("svc")),
        ("predicate", Cbor::t("owner")),
        ("object", Cbor::t("team-y")),
    ]);
    assert_eq!(
        warden.judge_envelope(&view, &drift).unwrap_err().code,
        ErrCode::SemanticDrift
    );
    let ok = Cbor::map(vec![
        ("subject", Cbor::t("svc")),
        ("predicate", Cbor::t("owner")),
        ("object", Cbor::t("team-y")),
        ("supersedes", Cbor::t("fact/OLD")),
    ]);
    assert!(warden.judge_envelope(&view, &ok).is_ok());
    let same = Cbor::map(vec![
        ("subject", Cbor::t("svc")),
        ("predicate", Cbor::t("owner")),
        ("object", Cbor::t("team-x")),
    ]);
    assert!(warden.judge_envelope(&view, &same).is_ok());
}

fn audited_output(handle: &str, target: &str, grounded: &[&str], body: &str) -> CuratorPublic {
    CuratorPublic {
        output_handle: handle.to_string(),
        operation: CuratorOperation::Skeleton,
        target_handle: target.to_string(),
        grounded_in: texts(grounded),
        confidence_band: ConfidenceBand::High,
        schema_id: "curator.librarian.output.v1".to_string(),
        spec_anchor: "LibrarianCell.md\u{00a7}3".to_string(),
        logical_at: 10,
        body: body.to_string(),
    }
}

#[test]
fn audit_requires_independent_grounding_or_hash_proof() {
    let mut warden = WardenCell::new(CellId(31));
    let view1 = view(
        &[],
        &[
            ("fact/CITED", "svc", "design", "uses tokens"),
            ("fact/UNCITED", "svc", "design", "tokens carry scopes"),
        ],
    );
    let output = audited_output(
        "librarian/output/01A",
        "fact/CITED",
        &["fact/CITED"],
        "service design uses tokens",
    );
    let job1 = job("fact/CITED", Some(("svc", "design")), "uses tokens", 10, 3);
    let (rec, verdict) = warden.audit_librarian(&view1, &output, Some(&job1), 11, 3);
    assert_eq!(verdict, AuditVerdict::Pass);
    assert_eq!(rec.independent_grounds, vec!["fact/UNCITED".to_string()]);
    assert!(rec.hash_proof.is_none());

    let view2 = view(&[], &[("fact/ONLY", "x", "y", "z body")]);
    let output2 = audited_output(
        "librarian/output/01B",
        "fact/ONLY",
        &["fact/ONLY"],
        "z body summary",
    );
    let job2 = job("fact/ONLY", Some(("x", "y")), "z body", 12, 3);
    let (rec2, verdict2) = warden.audit_librarian(&view2, &output2, Some(&job2), 13, 3);
    assert_eq!(verdict2, AuditVerdict::Pass);
    assert!(rec2.independent_grounds.is_empty());
    assert!(rec2.hash_proof.is_some());

    let output3 = audited_output(
        "librarian/output/01C",
        "fact/CITED",
        &["fact/NOPE"],
        "service design uses tokens",
    );
    let (_, verdict3) = warden.audit_librarian(&view2, &output3, None, 14, 3);
    assert!(matches!(verdict3, AuditVerdict::Fail { .. }));
    assert_eq!(warden.audit_count(), 3);
    assert!(warden.audit_for_target("librarian/output/01C").is_some());
    let snap = warden.snapshot_state();
    let mut warden2 = WardenCell::new(CellId(31));
    warden2.restore_state(&snap).unwrap();
    assert_eq!(warden2.audit_count(), 3);
    assert_eq!(snap.encode(), warden2.snapshot_state().encode());
}

#[test]
fn blind_reaudit_is_order_insensitive() {
    let warden = WardenCell::new(CellId(31));
    let view = view(
        &[],
        &[
            ("fact/A", "s", "p", "alpha"),
            ("fact/B", "s", "p", "beta"),
            ("fact/C", "s", "p", "gamma"),
        ],
    );
    let output = CuratorPublic {
        output_handle: "librarian/output/01D".to_string(),
        operation: CuratorOperation::Skeleton,
        target_handle: "fact/A".to_string(),
        grounded_in: texts(&["fact/A", "fact/B", "fact/C"]),
        confidence_band: ConfidenceBand::Medium,
        schema_id: "curator.librarian.output.v1".to_string(),
        spec_anchor: "LibrarianCell.md\u{00a7}3".to_string(),
        logical_at: 20,
        body: "combined summary".to_string(),
    };
    let (orig, re) = warden.blind_reaudit(&view, &output, None, 21, 99);
    assert_eq!(orig, re);
}

#[test]
fn audits_fail_on_form() {
    let warden = WardenCell::new(CellId(31));
    let view = view(&["fact/A"], &[]);
    let empty = audited_output("librarian/output/1", "fact/A", &["fact/A"], "  ");
    let (_, v) = warden.audit_librarian_preview(&view, &empty, None, 1, 1);
    assert_eq!(
        v,
        AuditVerdict::Fail {
            reason: "empty skeleton".to_string()
        }
    );
    let ghost = audited_output(
        "librarian/output/2",
        "fact/A",
        &["fact/A"],
        "see fact/GHOST.",
    );
    let (_, v) = warden.audit_librarian_preview(&view, &ghost, None, 1, 1);
    assert_eq!(
        v,
        AuditVerdict::Fail {
            reason: "output body references nonexistent fact/GHOST".to_string()
        }
    );
    let one_side = CuratorPublic {
        operation: CuratorOperation::SupersedeProposal,
        ..audited_output("librarian/output/3", "fact/A", &["fact/A"], "x")
    };
    let (_, v) = warden.audit_librarian_preview(&view, &one_side, None, 1, 1);
    assert!(matches!(v, AuditVerdict::Fail { .. }));
}

// --- adjudicator ----------------------------------------------------------

fn pool3() -> Vec<(String, DeterministicBackend)> {
    vec![
        ("phi-3.5-mini".to_string(), DeterministicBackend),
        ("llama-3.2-3b".to_string(), DeterministicBackend),
        ("smollm2-1.7b".to_string(), DeterministicBackend),
    ]
}

#[test]
fn policy_resolves_hallucination_disputes() {
    let mut adj = AdjudicatorCell::new(CellId(32), pool3());
    let view = view(&["fact/REAL"], &[]);
    let init = audited_output("librarian/output/01I", "fact/T", &["fact/REAL"], "body");
    let f1 = flag_public(
        CuratorOperation::FlagHallucination,
        "warden/judgment/01F",
        &["fact/GHOST"],
    );
    let r1 = adj.adjudicate(
        &view,
        &Dispute {
            initiator_output: &init,
            auditor_flag: &f1,
            logical_at: 10,
            seed: 42,
        },
    );
    assert_eq!(r1.resolution, Resolution::AuditorUpheld);
    assert_eq!(r1.path, ResolutionPath::Policy);
    let f2 = flag_public(
        CuratorOperation::FlagHallucination,
        "warden/judgment/02F",
        &["fact/REAL"],
    );
    let r2 = adj.adjudicate(
        &view,
        &Dispute {
            initiator_output: &init,
            auditor_flag: &f2,
            logical_at: 11,
            seed: 42,
        },
    );
    assert_eq!(r2.resolution, Resolution::InitiatorUpheld);
    let (policy, _, _, _) = adj.stats();
    assert_eq!(policy, 2);
}

#[test]
fn pool_rotation_is_seed_deterministic() {
    let mut adj = AdjudicatorCell::new(CellId(32), pool3());
    let view = view(&[], &[]);
    let init = audited_output("librarian/output/01I", "fact/T", &[], "body");
    let f = flag_public(CuratorOperation::AuditFail, "warden/judgment/03F", &[]);
    let mk = |seed| Dispute {
        initiator_output: &init,
        auditor_flag: &f,
        logical_at: 20,
        seed,
    };
    let a = adj.adjudicate(&view, &mk(0));
    let b = adj.adjudicate(&view, &mk(1));
    let c = adj.adjudicate(&view, &mk(2));
    assert_eq!(a.judge.as_deref(), Some("phi-3.5-mini"));
    assert_eq!(b.judge.as_deref(), Some("llama-3.2-3b"));
    assert_eq!(c.judge.as_deref(), Some("smollm2-1.7b"));
    let mut adj2 = AdjudicatorCell::new(CellId(32), pool3());
    let a2 = adj2.adjudicate(&view, &mk(0));
    assert_eq!(a.resolution, a2.resolution);
    assert_eq!(a.judge, a2.judge);
    // What was made once can be replayed, and replaying again changes nothing.
    let mut adj3 = AdjudicatorCell::new(CellId(32), pool3());
    adj3.replay_adjudication(a.clone());
    adj3.replay_adjudication(a);
    assert_eq!(adj3.stats().1 + adj3.stats().2, 1);
    let snap = adj.snapshot_state();
    let mut adj4 = AdjudicatorCell::new(CellId(32), pool3());
    adj4.restore_state(&snap).unwrap();
    assert_eq!(adj4.stats(), adj.stats());
    assert_eq!(snap.encode(), adj4.snapshot_state().encode());
}

#[test]
fn human_escalation_flow() {
    let mut adj = AdjudicatorCell::new(CellId(32), pool3());
    let view = view(&[], &[]);
    let init = audited_output("librarian/output/01I", "fact/T", &[], "body");
    let f = flag_public(CuratorOperation::AuditFail, "warden/judgment/04F", &[]);
    let mut escalated = None;
    for seed in 0..512u64 {
        let r = adj.adjudicate(
            &view,
            &Dispute {
                initiator_output: &init,
                auditor_flag: &f,
                logical_at: 30,
                seed,
            },
        );
        if r.resolution == Resolution::HumanEscalation {
            escalated = Some(r);
            break;
        }
    }
    let rec = escalated.expect("some seed must escalate");
    assert_eq!(adj.escalations().len(), 1);
    let resolved = adj.resolve_human(&rec.handle, true).unwrap();
    assert_eq!(resolved.resolution, Resolution::AuditorUpheld);
    assert!(resolved.human_resolved);
    assert!(adj.escalations().is_empty());
    assert!(adj.resolve_human(&rec.handle, false).is_err());
    assert_eq!(
        adj.resolve_human("adjudication/none", false).unwrap_err().code,
        ErrCode::NotFound
    );
}

// --- ledger ---------------------------------------------------------------

fn append_audit(ledger: &mut CrossCheckLedgerCell, m: &mut Metrics, at: u64, agree: bool) {
    ledger
        .append(
            m,
            at,
            CrossCheckKind::WardenAudit,
            &format!("librarian/output/{at:04}"),
            &format!("warden/judgment/{at:04}"),
            if agree {
                CrossCheckOutcome::Agree
            } else {
                CrossCheckOutcome::Disagree
            },
            None,
            Ok(()),
            None,
        )
        .unwrap();
}

#[test]
fn suspicious_agreement_at_100_of_100() {
    let mut ledger = CrossCheckLedgerCell::new(CellId(33));
    let mut m = Metrics::new();
    for i in 0..100 {
        append_audit(&mut ledger, &mut m, i, true);
    }
    assert_eq!(ledger.health(), AgreementHealth::SuspiciousAgreement);
    assert!(m.counter("curator.suspicious_agreement") > 0);
    assert_eq!(f64::from_bits(ledger.probe_boost()), 10.0);
}

#[test]
fn healthy_band_and_miscalibration() {
    let mut ledger = CrossCheckLedgerCell::new(CellId(33));
    let mut m = Metrics::new();
    for i in 0..100 {
        append_audit(&mut ledger, &mut m, i, i % 20 != 0);
    }
    assert_eq!(ledger.health(), AgreementHealth::Healthy);
    for i in 100..200 {
        append_audit(&mut ledger, &mut m, i, i % 3 != 0);
    }
    assert_eq!(ledger.health(), AgreementHealth::Miscalibration);
    assert!(m.counter("curator.miscalibration") > 0);
}

#[test]
fn window_is_rolling() {
    let mut ledger = CrossCheckLedgerCell::new(CellId(33));
    let mut m = Metrics::new();
    for i in 0..200 {
        append_audit(&mut ledger, &mut m, i, false);
    }
    assert_eq!(ledger.health(), AgreementHealth::Miscalibration);
    for i in 200..400 {
        append_audit(&mut ledger, &mut m, i, true);
    }
    assert_eq!(ledger.health(), AgreementHealth::SuspiciousAgreement);
    assert_eq!(ledger.agreement_rate().map(f64::from_bits), Some(1.0));
}

#[test]
fn snapshot_restores_window_and_indices() {
    let mut ledger = CrossCheckLedgerCell::new(CellId(33));
    let mut m = Metrics::new();
    for i in 0..50 {
        append_audit(&mut ledger, &mut m, i, i % 10 != 0);
    }
    assert_eq!(ledger.agreement_rate().map(f64::from_bits), Some(0.9));
    let snap = ledger.snapshot_state();
    let mut ledger2 = CrossCheckLedgerCell::new(CellId(33));
    ledger2.restore_state(&snap).unwrap();
    assert_eq!(ledger2.len(), 50);
    assert_eq!(ledger.agreement_rate(), ledger2.agreement_rate());
    assert_eq!(snap.encode(), ledger2.snapshot_state().encode());
    assert_eq!(ledger2.outcome_counts().get("agree"), Some(&45));
}

#[test]
fn full_batches_are_signed() {
    let kms = Kms::new(EncryptionTier::T2, KeyRing::first([3u8; 32]));
    let mut ledger = CrossCheckLedgerCell::new(CellId(33));
    let mut m = Metrics::new();
    for i in 0..256u64 {
        let frame = ledger.frame(
            i,
            CrossCheckKind::Probe,
            "a",
            "b",
            CrossCheckOutcome::Agree,
            &None,
        );
        assert_eq!(frame.flags, FLAG_CROSS_CHECK);
        ledger
            .append(
                &mut m,
                i,
                CrossCheckKind::Probe,
                "a",
                "b",
                CrossCheckOutcome::Agree,
                None,
                Ok(()),
                Some(&kms),
            )
            .unwrap();
    }
    assert_eq!(ledger.batch_signatures().len(), 1);
    assert_eq!(ledger.batch_signatures()[0].0, 255);
    let err = ledger
        .append(
            &mut m,
            300,
            CrossCheckKind::Probe,
            "a",
            "b",
            CrossCheckOutcome::Agree,
            None,
            Err("disk full".to_string()),
            Some(&kms),
        )
        .unwrap_err();
    assert_eq!(err.message, "disk full");
    assert_eq!(ledger.len(), 256);
}

// --- guardrails -----------------------------------------------------------

#[test]
fn probe_rate_is_deterministic_and_boostable() {
    let run = |boost: f64| -> Vec<bool> {
        let mut p = ProbeScheduler::new(42, 0.01f64.to_bits());
        (0..1000).map(|_| p.should_probe(boost.to_bits())).collect()
    };
    let a = run(1.0);
    let b = run(1.0);
    assert_eq!(a, b);
    let base_hits = a.iter().filter(|x| **x).count();
    let boosted_hits = run(10.0).iter().filter(|x| **x).count();
    assert!((1..=40).contains(&base_hits), "base_hits={base_hits}");
    assert!(
        boosted_hits > base_hits * 3,
        "boosted={boosted_hits} base={base_hits}"
    );
}

#[test]
fn fabricated_handles_look_real() {
    let mut p = ProbeScheduler::new(7, 0.001f64.to_bits());
    let h = p.fabricated_handle(500);
    assert!(h.starts_with("fact/"));
    assert_eq!(h.len(), "fact/".len() + 26);
    assert_ne!(h, p.fabricated_handle(500));
}

#[test]
fn calibration_degrades_and_recovers() {
    let mut c = CalibrationTracker::new();
    for _ in 0..20 {
        c.record(ConfidenceBand::High, true);
    }
    assert!(!c.degraded());
    for _ in 0..10 {
        c.record(ConfidenceBand::High, false);
    }
    assert!(c.degraded());
    for _ in 0..CALIBRATION_WINDOW {
        c.record(ConfidenceBand::High, true);
    }
    assert!(!c.degraded());
}

#[test]
fn blind_reaudit_rate() {
    let mut b = BlindReauditScheduler::new(1, 0.01f64.to_bits());
    let hits = (0..10_000).filter(|_| b.should_reaudit()).count();
    assert!(hits > 40 && hits < 220, "hits={hits}");
}

#[test]
fn a_model_may_reject_but_not_save() {
    let v = view(&["fact/1", "fact/2"], &[("fact/2", "s", "p", "other")]);
    let output = CuratorPublic {
        output_handle: "librarian/output/1".into(),
        operation: CuratorOperation::Skeleton,
        target_handle: "fact/1".into(),
        grounded_in: vec!["fact/1".into()],
        confidence_band: ConfidenceBand::High,
        schema_id: "curator.librarian.output.v1".into(),
        spec_anchor: "a".into(),
        logical_at: 3,
        body: "a summary".into(),
    };
    let asked = audit_question(&v, &output, None).unwrap();
    assert!(asked.contains(
        &"supports_initiator: structural grounding and schema checks passed".to_string()
    ));
    assert!(asked.windows(2).all(|w| w[0] <= w[1]));
    let passes = |said| matches!(audit_with(&v, &output, None, 3, 7, said).1, AuditVerdict::Pass);
    assert!(passes(None));
    assert!(passes(Some(Verdict::InitiatorCorrect)));
    assert!(passes(Some(Verdict::Uncertain)));
    assert!(!passes(Some(Verdict::AuditorCorrect)));
    let ungrounded = CuratorPublic { grounded_in: vec!["fact/9".into()], ..output };
    assert!(audit_question(&v, &ungrounded, None).is_none());
    let (rec, verdict) =
        audit_with(&v, &ungrounded, None, 3, 7, Some(Verdict::InitiatorCorrect));
    assert!(!rec.verdict_pass);
    match verdict {
        AuditVerdict::Fail { reason } => assert_eq!(reason, "cited grounding missing: fact/9"),
        AuditVerdict::Pass => panic!("passed"),
    }
}

#[test]
fn missing_evidence_is_named_alike_in_any_order() {
    let warden = WardenCell::new(CellId(31));
    let view = view(&["fact/A"], &[]);
    let output = audited_output(
        "librarian/output/1",
        "fact/A",
        &["fact/Z", "fact/A", "fact/M"],
        "body",
    );
    let (_, v) = warden.audit_librarian_preview(&view, &output, None, 1, 1);
    match &v {
        AuditVerdict::Fail { reason } => {
            assert!(reason.find("fact/M").unwrap() < reason.find("fact/Z").unwrap());
        }
        other => panic!("{other:?}"),
    }
    for seed in 0..20 {
        let (first, again) = warden.blind_reaudit(&view, &output, None, 2, seed);
        assert_eq!(first, again);
        assert_eq!(first, v);
    }
}

fn append_probe(ledger: &mut CrossCheckLedgerCell, kms: &Kms, at: u64) {
    ledger
        .append(
            &mut Metrics::new(),
            at,
            CrossCheckKind::Probe,
            &format!("a{at}"),
            "b",
            CrossCheckOutcome::Agree,
            None,
            Ok(()),
            Some(kms),
        )
        .unwrap();
}

#[test]
fn signed_batches_hold_after_rotation_and_restart() {
    let mut kms = Kms::new(EncryptionTier::T3, KeyRing::first([3u8; 32]));
    let mut ledger = CrossCheckLedgerCell::new(CellId(33));
    assert_eq!(ledger.verify_batch_signatures(&kms), (0, true));
    for i in 0..300u64 {
        append_probe(&mut ledger, &kms, i);
    }
    kms.rotate(1, true, [4u8; 32]).unwrap();
    assert_eq!(ledger.verify_batch_signatures(&kms), (1, true));
    let mut later = CrossCheckLedgerCell::new(CellId(33));
    later.restore_state(&ledger.snapshot_state()).unwrap();
    later.reload_signature_state();
    for i in 300..520u64 {
        append_probe(&mut ledger, &kms, i);
        append_probe(&mut later, &kms, i);
    }
    assert_eq!(later.verify_batch_signatures(&kms), (2, true));
    assert_eq!(later.batch_signatures(), ledger.batch_signatures());
    let other = Kms::new(EncryptionTier::T3, KeyRing::first([9u8; 32]));
    assert_eq!(ledger.verify_batch_signatures(&other), (0, false));
    let unsigning = Kms::new(EncryptionTier::T1, KeyRing::first([3u8; 32]));
    assert_eq!(ledger.verify_batch_signatures(&unsigning), (0, false));
}

#[test]
fn a_changed_record_breaks_its_batch() {
    let kms = Kms::new(EncryptionTier::T2, KeyRing::first([3u8; 32]));
    let mut ledger = CrossCheckLedgerCell::new(CellId(33));
    for i in 0..512u64 {
        append_probe(&mut ledger, &kms, i);
    }
    let snap = ledger.snapshot_state();
    let mut records = snap.opt_array("records").unwrap().to_vec();
    records[400] = Cbor::map(vec![
        ("seq", Cbor::U64(400)),
        ("kind", Cbor::t("probe")),
        ("initiator", Cbor::t("x")),
        ("outcome", Cbor::t("agree")),
    ]);
    let forged = Cbor::map(vec![
        ("records", Cbor::Array(records)),
        (
            "batch_signatures",
            Cbor::Array(snap.opt_array("batch_signatures").unwrap().to_vec()),
        ),
    ]);
    let mut other = CrossCheckLedgerCell::new(CellId(33));
    other.restore_state(&forged).unwrap();
    assert_eq!(other.verify_batch_signatures(&kms), (1, false));
}

#[test]
fn workers_speak_for_their_models() {
    let model = ExternalGgufBackend::new("phi", "weights/phi", "llama-cli");
    let mut w = Worker::new(Some(model));
    assert_eq!(w.backend_id(), "gguf.phi");
    assert_eq!(Worker::new(None).backend_id(), "deterministic.v1");
    let text = "One thing. Another thing.";
    assert_eq!(w.skeleton(text, 10), DeterministicBackend.skeleton(text, 10));
    let asked = w.model.as_ref().unwrap().skeleton_args(text, 10);
    w.heard = Some(Exchange {
        asked,
        answer: Some("a summary".to_string()),
    });
    assert_eq!(w.skeleton(text, 10), "a summary");
    assert_eq!(w.skeleton(text, 11), DeterministicBackend.skeleton(text, 11));
    assert_eq!(w.skeleton("Other.", 10), DeterministicBackend.skeleton("Other.", 10));
    let plain = DeterministicBackend.adjudicate(1, "d", &vec![]);
    assert_eq!(w.adjudicate(1, "d", &vec![]), plain);
    for (answer, verdict) in [
        ("the auditor, I think", Verdict::AuditorCorrect),
        ("Initiator", Verdict::InitiatorCorrect),
        ("uncertain", Verdict::Uncertain),
        ("no idea", plain),
    ] {
        let asked = w.model.as_ref().unwrap().adjudicate_args(1, "d", &vec![]);
        w.heard = Some(Exchange {
            asked,
            answer: Some(answer.to_string()),
        });
        assert_eq!(w.adjudicate(1, "d", &vec![]), verdict);
    }
    w.model = None;
    assert_eq!(w.skeleton(text, 10), DeterministicBackend.skeleton(text, 10));
}

fn local_model() -> Worker {
    Worker::new(Some(ExternalGgufBackend::new("phi", "weights/phi", "llama-cli")))
}

#[test]
fn the_librarian_asks_for_what_it_summarises() {
    let mut librarian = LibrarianCell::new(CellId(30), local_model());
    let view = view(&[], &[("fact/1", "s", "p", "old")]);
    let mut job = CurationJob {
        written_handle: "fact/2".to_string(),
        subject: None,
        predicate: None,
        object_text: "Body text. It has two sentences.".to_string(),
        severity: Severity::P2,
        logical_at: 5,
        seed: 7,
    };
    let asked = librarian.asks(&view, &job).unwrap();
    assert!(asked.last().unwrap().ends_with("Body text. It has two sentences."));
    librarian.hear(Exchange {
        asked,
        answer: Some("said".to_string()),
    });
    assert_eq!(librarian.curate(&view, &job).public.body, "said");
    job.object_text = "Something else.".to_string();
    assert_eq!(librarian.curate(&view, &job).public.body, "Something else.");
    job.subject = Some("s".to_string());
    job.predicate = Some("p".to_string());
    assert!(librarian.asks(&view, &job).is_none());
    let plain = LibrarianCell::new(CellId(30), Worker::new(None));
    job.subject = None;
    assert!(plain.asks(&view, &job).is_none());
}

#[test]
fn the_warden_goes_by_its_model() {
    let mut warden = WardenCell::with_backend(CellId(31), local_model());
    let view = view(&[], &[("fact/A", "s", "p", "alpha")]);
    let output = audited_output("librarian/output/1", "fact/A", &["fact/A"], "body");
    let missing = audited_output("librarian/output/1", "fact/A", &["fact/Z"], "body");
    assert!(warden.asks(&view, &missing, None, 1).is_none());
    let said = |answer: &str| Exchange {
        asked: warden.asks(&view, &output, None, 1).unwrap(),
        answer: Some(answer.to_string()),
    };
    let (no, yes) = (said("AUDITOR"), said("INITIATOR"));
    warden.hear(no);
    let (_, refused) = warden.audit_librarian_preview(&view, &output, None, 1, 1);
    assert!(matches!(refused, AuditVerdict::Fail { .. }));
    warden.hear(yes);
    let (_, passed) = warden.audit_librarian_preview(&view, &output, None, 1, 1);
    assert_eq!(passed, AuditVerdict::Pass);
}

#[test]
fn only_active_skeletons_are_served() {
    let mut librarian = LibrarianCell::new(CellId(30), DeterministicBackend);
    let view = view(&[], &[]);
    let job = CurationJob {
        written_handle: "fact/1".to_string(),
        subject: None,
        predicate: None,
        object_text: "Body text. It has two sentences.".to_string(),
        severity: Severity::P2,
        logical_at: 5,
        seed: 7,
    };
    let handle = librarian.curate(&view, &job).public.output_handle;
    assert!(librarian.active_skeleton_for("fact/1").is_none());
    assert_eq!((librarian.pending().len(), librarian.counts()), (1, (1, 0, 0)));
    librarian.set_status(&handle, OutputStatus::Active).unwrap();
    let served = librarian.active_skeleton_for("fact/1").unwrap();
    assert_eq!(served.output_handle, handle);
    assert!(librarian.active_skeleton_for("fact/2").is_none());
    librarian.set_status(&handle, OutputStatus::Quarantined).unwrap();
    assert!(librarian.active_skeleton_for("fact/1").is_none());
}
