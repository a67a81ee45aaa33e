use ultracortex::bootstrap::admin::{
    budget_reply, congruence_accepted, congruence_audit, congruence_preview, contract_reply,
    gap_reply, quarantine_reply, reinject_reply, BudgetItem, ContractItem, GapItem, QuarantineItem,
};
use ultracortex::bootstrap::drill::{look, Drill, Seen};
use ultracortex::bootstrap::provision::{provision_plan, Provision};
use ultracortex::bootstrap::recovery::{check_signatures, note_recovery, replay_log, Replay};
use ultracortex::bootstrap::selftest::{check_backends, facet_to_probe, Caller, Reply, CHECKS};
use ultracortex::cbor::Cbor;
use ultracortex::cells::fact::{Fact, FactCell};
use ultracortex::cells::registry::AgentRegistryCell;
use ultracortex::cells::CellType;
use ultracortex::curator::adjudicator::AdjudicatorCell;
use ultracortex::curator::backend::DeterministicBackend;
use ultracortex::cells::blob::BlobCell;
use ultracortex::curator::{is_private_facet, SubstrateView};
use ultracortex::curator::librarian::LibrarianCell;
use ultracortex::curator::warden::WardenCell;
use ultracortex::obs::audit::AuditChain;
use ultracortex::node::{seal_frame, NodeView, FACT_ID};
use ultracortex::obs::metrics::Metrics;
use ultracortex::obs::otlp::{
    http_request, http_status, parse_http_endpoint, OtlpConfig, OtlpExporter,
};
use ultracortex::persist::kms::{EncryptionTier, KeyRing, Kms};
use ultracortex::persist::wal::{payload_purpose, replay_bytes, WalFrame, WalOp};
use ultracortex::proto::hello_message;
use ultracortex::textmap::TextMap;
use ultracortex::ulid::Ulid;
use ultracortex::vocab::{
    AnchorRef, CellId, ErrCode, Intent, LogicalClock, UcError,
};

fn items(c: &Cbor, key: &str) -> Vec<Cbor> {
    c.get(key).unwrap().as_array().unwrap().to_vec()
}

#[test]
fn lists_are_answered_item_by_item() {
    let q = quarantine_reply(
        &vec![QuarantineItem {
            qid: "q1".into(),
            cause: "anchor_missing".into(),
            detail: "d".into(),
            status: "pending".into(),
            absorbed_at: 4,
        }],
        100_000,
    );
    assert_eq!(q.opt_u64("resolved_retention_logical"), Some(100_000));
    assert_eq!(q.opt_bool("pending_never_pruned"), Some(true));
    assert_eq!(items(&q, "items")[0].opt_str("qid").as_deref(), Some("q1"));

    let g = gap_reply(&vec![GapItem {
        gap_id: "GAP-0001".into(),
        state: "open".into(),
        description: "x".into(),
        dispatches_since_transition: 2,
    }]);
    assert_eq!(items(&g, "gaps")[0].opt_str("gap_id").as_deref(), Some("GAP-0001"));

    let c = contract_reply(&vec![ContractItem {
        schema_id: "fact.v1".into(),
        required: vec!["subject".into()],
        deprecated: true,
        superseded_by: Some("fact.v2".into()),
        migration_plan_handle: None,
        decision_handle: None,
        deprecated_after: Some(9),
        migration_applied_at: None,
    }]);
    let row = &items(&c, "contracts")[0];
    assert_eq!(row.opt_str("superseded_by").as_deref(), Some("fact.v2"));
    assert_eq!(row.opt_u64("deprecated_after"), Some(9));

    let b = budget_reply(
        1_000_000,
        &vec![BudgetItem { namespace: "bootstrap".into(), grant: 10_000_000 }],
    );
    assert_eq!(b.opt_u64("default_grant"), Some(1_000_000));
    assert_eq!(items(&b, "namespace_defaults")[0].opt_u64("grant"), Some(10_000_000));
}

#[test]
fn single_answers_say_what_was_done() {
    let r = reinject_reply("q1", true, Cbor::u(5), "");
    assert_eq!(r.opt_u64("result"), Some(5));
    let r = reinject_reply("q1", false, Cbor::u(5), "no");
    assert_eq!(r.opt_str("result").as_deref(), Some("no"));
    let a = congruence_audit(28, &vec!["P42".into()]);
    assert_eq!(a.opt_u64("known_entities"), Some(28));
    assert_eq!(a.opt_u64("accepted_deltas"), Some(1));
    assert_eq!(congruence_preview(None).opt_bool("delta"), Some(false));
    let p = congruence_preview(Some("TelepathyCell".into()));
    assert_eq!(p.opt_str("detail").as_deref(), Some("TelepathyCell"));
    let done = congruence_accepted(&vec!["P42".into()], 3);
    assert_eq!(done.opt_u64("accepted_deltas"), Some(3));
    let hello = hello_message("agent-1");
    assert_eq!(hello.opt_str("type").as_deref(), Some("hello"));
    assert_eq!(hello.opt_u64("proto_version"), Some(1));
}

#[test]
fn a_node_that_cannot_police_itself_refuses() {
    assert!(check_signatures(3, true).is_ok());
    assert!(check_signatures(3, false)
        .unwrap_err()
        .message
        .starts_with("cross-check batch signature verification failed after 3 verified batches"));
    assert!(check_backends(false, "deterministic", "deterministic").is_ok());
    assert!(check_backends(true, "gguf.a", "deterministic").is_err());
    assert!(check_backends(true, "gguf.a", "gguf.b").is_ok());
    let f = facet_to_probe(None, Some("librarian/output/1".into())).unwrap();
    assert!(is_private_facet(&f));
    assert!(facet_to_probe(None, None).is_err());
    let mut m = Metrics::new();
    note_recovery(&mut m, false, 2);
    assert_eq!(m.counter("boot.unclean_recovery"), 1);
    assert_eq!(m.counter("boot.torn_tails"), 2);
}

#[test]
fn a_changed_record_breaks_the_chain() {
    let mut chain = AuditChain::ephemeral();
    let mut lines = Vec::new();
    for at in 1..4 {
        let entry = chain.entry(at, "e", vec![]);
        lines.push(entry.line().to_string());
        chain.append(entry, Ok(())).unwrap();
    }
    assert_eq!(AuditChain::verify(&lines).unwrap(), (3, true));
    // A record of its own, well-formed, in the place of the first.
    let forged = AuditChain::ephemeral()
        .entry(9, "forged", vec![])
        .line()
        .to_string();
    let mut changed = lines.clone();
    changed[0] = forged;
    assert_eq!(AuditChain::verify(&changed).unwrap(), (1, false));
    // Every changed digit is seen at its own line.
    for k in 0..3 {
        for i in 0..lines[k].len() {
            let mut bytes = lines[k].clone().into_bytes();
            bytes[i] = match bytes[i] {
                b' ' => continue,
                b'0' => b'F',
                _ => b'0',
            };
            let mut changed = lines.clone();
            changed[k] = String::from_utf8(bytes).unwrap();
            assert_eq!(AuditChain::verify(&changed).unwrap(), (k as u64, false));
        }
    }
}

fn fact(handle: &str) -> Fact {
    Fact {
        handle: handle.into(),
        subject: "s".into(),
        predicate: "p".into(),
        object: "o".into(),
        confidence: None,
        written_at: 1,
        superseded_by: None,
        supersedes: None,
        anchor: "a".into(),
    }
}

#[test]
fn a_fact_takes_the_place_of_another_at_once() {
    let mut cell = FactCell::new(CellId(2));
    cell.insert_with_supersede(fact("fact/1"), None).unwrap();
    cell.insert_with_supersede(fact("fact/2"), Some("fact/1")).unwrap();
    assert_eq!(cell.active_for_sp("s", "p").len(), 1);
    assert!(cell.insert_with_supersede(fact("fact/2"), None).is_err());
    assert!(cell.insert_with_supersede(fact("fact/3"), Some("fact/1")).is_err());
    assert!(cell.get("fact/3").is_none());
}

#[test]
fn small_questions_are_answered() {
    assert!(CellType::Warden.is_curator());
    assert!(!CellType::Fact.is_curator());
    assert!(CellType::Cache.anchor_exempt());
    assert!(!CellType::Fact.anchor_exempt());
    assert!(Intent::Write.is_state_changing());
    assert!(!Intent::Recall.is_state_changing());
    assert_eq!(Ulid::nil().0, 0);
    let mut reg = AgentRegistryCell::new(CellId(11));
    reg.add_escalation_subscriber("b");
    reg.add_escalation_subscriber("a");
    assert_eq!(reg.escalation_subscribers(), vec!["a".to_string(), "b".to_string()]);
    let e = UcError::denied("no")
        .with_cause(ErrCode::Internal)
        .with_quarantine(Ulid(7))
        .with_anchor(AnchorRef::new("D.md", "3"));
    assert_eq!(e.cause_chain, vec![ErrCode::Internal]);
    assert_eq!(e.quarantine_id, Some(Ulid(7)));
    let (v, used) = Cbor::decode_prefix(&[0x01, 0xff]).unwrap();
    assert_eq!((v.as_u64(), used), (Some(1), 1));
    let a = Kms::new(EncryptionTier::T1, KeyRing::first([1; 32]));
    assert_ne!(a.subkey("captoken"), a.subkey("other"));
    let none: LibrarianCell<DeterministicBackend> =
        LibrarianCell::new(CellId(30), DeterministicBackend);
    assert!(none.get_public("librarian/output/1").is_none());
    let warden: WardenCell<DeterministicBackend> =
        WardenCell::with_backend(CellId(31), DeterministicBackend);
    let flag = warden.flag_from_error(
        5,
        7,
        "fact/1",
        &UcError::denied("why"),
        vec!["fact/2".into()],
    );
    assert_eq!(flag.public.target_handle, "fact/1");
}

fn seen() -> Seen {
    Seen {
        superseded: true,
        active: Some("librarian/output/1".into()),
        pending: None,
        queued: 0,
        hits: 0,
        denied: 1,
    }
}

/// The answers of a node that polices itself, in order.
fn good_answers() -> Vec<(Reply, Seen)> {
    let ok = |result: Cbor| Reply { ok: true, result, err_code: None, quarantine_id: None };
    let refused = |code: ErrCode| Reply {
        ok: false,
        result: Cbor::Null,
        err_code: Some(code),
        quarantine_id: Some("quarantine/1".into()),
    };
    vec![
        (ok(Cbor::map(vec![("handle", Cbor::t("fact/1"))])), seen()),
        (ok(Cbor::map(vec![("items", Cbor::u(1))])), seen()),
        (ok(Cbor::Null), seen()),
        (refused(ErrCode::AnchorMissing), seen()),
        (refused(ErrCode::BudgetExceeded), seen()),
        (ok(Cbor::Null), seen()),
        (ok(Cbor::Null), Seen { hits: 1, ..seen() }),
        (refused(ErrCode::HallucinationDetected), seen()),
        (refused(ErrCode::PermissionDenied), seen()),
        (ok(Cbor::map(vec![("body", Cbor::t("why"))])), seen()),
    ]
}

#[test]
fn the_drill_leads_through_all_checks() {
    let mut drill = Drill::new();
    for (reply, seen) in good_answers() {
        assert!(drill.passed() < CHECKS);
        assert!(drill.ask().is_some());
        drill.take(reply, "", seen).unwrap();
    }
    assert!(drill.ask().is_none());
    assert_eq!(drill.passed(), CHECKS);
    assert_eq!(drill.written(), "fact/1");
}

#[test]
fn each_bad_answer_ends_the_drill() {
    let names = [
        "B5.1 write",
        "B5.2 recall",
        "B5.3 supersede",
        "B5.4 anchor quarantine",
        "B5.5 budget",
        "",
        "B5.6 view+cache",
        "B5.8 warden gate",
        "B5.10 P19 denial",
        "B5.11 operator hydrate",
    ];
    for (bad, name) in names.iter().enumerate() {
        if name.is_empty() {
            continue;
        }
        let mut drill = Drill::new();
        for (i, (mut reply, seen)) in good_answers().into_iter().enumerate() {
            if i < bad {
                drill.take(reply, "", seen).unwrap();
            } else {
                reply.ok = !reply.ok;
                let before = drill.passed();
                let e = drill.take(reply, "why", seen).unwrap_err();
                assert_eq!(e.message, format!("self-test B5 `{name}` failed: why"));
                assert_eq!(drill.passed(), before);
                break;
            }
        }
    }
}

#[test]
fn the_drill_looks_at_the_node() {
    let mut facts = FactCell::new(CellId(2));
    let mut f = fact("fact/1");
    f.subject = "selftest".into();
    f.predicate = "status".into();
    facts.insert(f);
    let librarian = LibrarianCell::new(CellId(30), DeterministicBackend);
    let judges = vec![("judge".to_string(), DeterministicBackend)];
    let adjudicator = AdjudicatorCell::new(CellId(32), judges);
    let mut m = Metrics::new();
    m.inc("cache.hit");
    let s = look("fact/1", &facts, &librarian, &adjudicator, &m);
    assert!(!s.superseded);
    assert!(s.active.is_none());
    assert_eq!((s.hits, s.denied, s.queued), (1, 0, 0));
    let mut drill = Drill::new();
    let probe = drill.ask().unwrap();
    assert_eq!(probe.caller, Caller::Agent);
    assert_eq!(probe.seed, 11);
    let (reply, _) = good_answers().remove(0);
    drill.take(reply, "", s).unwrap();
    assert_eq!(drill.ask().unwrap().seed, 12);
}

#[test]
fn fresh_boot_passes_self_test() {
    let mut drill = Drill::new();
    for (reply, seen) in good_answers() {
        drill.take(reply, "", seen).unwrap();
    }
    assert_eq!(drill.passed(), 11);
    // Governance first: contracts, anchors and decisions exist.
    let plan = provision_plan(&Vec::new());
    let count = |f: fn(&Provision) -> bool| plan.iter().filter(|p| f(p)).count();
    assert!(count(|p| matches!(p, Provision::Contract { .. })) >= 5);
    assert!(count(|p| matches!(p, Provision::Anchor { .. })) >= 30);
    assert_eq!(count(|p| matches!(p, Provision::Decision { .. })), 2);
}

#[test]
fn recovery_restores_written_facts() {
    let kms = Kms::new(EncryptionTier::T1, KeyRing::first([5; 32]));
    let body = |handle: &str, object: &str| {
        let payload = Cbor::map(vec![
            ("subject", Cbor::t("selftest")),
            ("predicate", Cbor::t("status")),
            ("object", Cbor::t(object)),
        ]);
        Cbor::map(vec![
            ("handle", Cbor::t(handle)),
            ("payload", payload),
            ("anchor", Cbor::t("Architecture.md")),
        ])
    };
    let frame = |at: u64, op: WalOp, body: Cbor| WalFrame {
        logical_at: at,
        cell_id: FACT_ID,
        op,
        schema_ver: 1,
        flags: 0,
        payload: body.encode(),
    };
    let supersede = Cbor::map(vec![("old", Cbor::t("fact/1")), ("new", Cbor::t("fact/2"))]);
    let mut log = Vec::new();
    for f in [
        frame(3, WalOp::Write, body("fact/1", "a")),
        frame(4, WalOp::Write, body("fact/2", "b")),
        frame(5, WalOp::Supersede, supersede),
    ] {
        log.extend(seal_frame(&kms, &f).to_bytes());
    }
    let frames: Vec<WalFrame> = replay_bytes(&log)
        .frames
        .into_iter()
        .map(|f| {
            let payload = kms
                .unseal(&payload_purpose(f.cell_id, f.flags), &f.payload)
                .unwrap();
            WalFrame { payload, ..f }
        })
        .collect();
    let mut facts = FactCell::new(CellId(FACT_ID));
    let mut clock = LogicalClock::new(1);
    let todo = replay_log(&mut facts, &mut clock, &frames, 0).unwrap();
    assert_eq!(todo.len(), 3);
    match &todo[0] {
        Replay::Indexed { handle, text } => {
            assert_eq!((handle.as_str(), text.as_str()), ("fact/1", "selftest status a"))
        }
        other => panic!("{other:?}"),
    }
    assert_eq!(clock.now(), 5);
    let none = TextMap::new();
    let blobs = BlobCell::new(CellId(10));
    let view = NodeView {
        facts: &facts,
        blobs: &blobs,
        blob_texts: &none,
        decisions: &none,
        public: &none,
    };
    assert!(view.handle_exists("fact/1"));
    assert!(view.handle_exists("fact/2"));
    assert_eq!(facts.active_for_sp("selftest", "status")[0].handle, "fact/2");
    // What the snapshot holds already is not done again.
    let mut later = FactCell::new(CellId(FACT_ID));
    assert!(replay_log(&mut later, &mut clock, &frames, 5).unwrap().is_empty());
}

#[test]
fn otlp_metrics_smoke_posts_json_to_loopback_collector() {
    let cfg = OtlpConfig {
        enabled: true,
        metrics_endpoint: "http://127.0.0.1:4318/v1/metrics".into(),
        ..OtlpConfig::default()
    };
    let exporter = OtlpExporter::new(cfg);
    let mut metrics = Metrics::new();
    metrics.inc("ultracortex.test");
    let body = exporter.metrics_body(&metrics).unwrap();
    let endpoint = exporter.config().metrics_endpoint;
    let (host, port, path) = parse_http_endpoint(&endpoint).unwrap();
    let request = http_request(&host, port, &path, &body);
    let status = http_status(
        &endpoint,
        b"HTTP/1.1 200 OK\r\nContent-Length: 0\r\nConnection: close\r\n\r\n",
    )
    .unwrap();
    let receipt = exporter.export_metrics(Ok((status, body.len()))).unwrap();
    assert_eq!(receipt.status_code, Some(200));
    assert!(!receipt.skipped);
    assert!(request.contains("POST /v1/metrics HTTP/1.1"));
    assert!(request.contains("\"resourceMetrics\""));
    assert!(request.contains("ultracortex.test"));
}
