use ultracortex::bootstrap::admin::{
    budget_reply, kms_rotated, quarantine_reply, AdminCall, AuditReply, BudgetItem, KvBudgets,
};
use ultracortex::bootstrap::plane::{serve, AdminStep, Desk};
use ultracortex::bootstrap::provision::register_agents;
use ultracortex::cbor::Cbor;
use ultracortex::cells::registry::AgentRegistryCell;
use ultracortex::cells::fact::Fact;
use ultracortex::config::{CuratorConfig, CuratorKvBudgetProfile};
use ultracortex::curator::adjudicator::AdjudicatorCell;
use ultracortex::curator::backend::DeterministicBackend;
use ultracortex::curator::guardrails::{
    CalibrationTracker, CALIBRATION_WINDOW, HIGH_BAND_FLOOR, MEDIUM_BAND_FLOOR,
};
use ultracortex::curator::ledger::{CrossCheckLedgerCell, TEN};
use ultracortex::curator::librarian::LibrarianCell;
use ultracortex::curator::warden::WardenCell;
use ultracortex::curator::SubstrateView;
use ultracortex::idmap::IdMap;
use ultracortex::node::{
    public_index, seal_frame, state_hashes, NodeView, SnapshotPolicy, ADJUDICATOR_ID,
    AUTO_SNAPSHOT_LOGICAL_INTERVAL, BLOB_ID, CROSS_CHECK_ID, FACT_ID, LIBRARIAN_ID,
    SNAPSHOT_PAUSE_TARGET_US, TIMELINE_ID, VECTOR_ID, WARDEN_ID,
};
use ultracortex::obs::audit::AuditChain;
use ultracortex::obs::metrics::Metrics;
use ultracortex::persist::kms::{EncryptionTier, KeyRing, Kms, T3_ROTATION_INTERVAL_OPS};
use ultracortex::persist::snapshot::write_snapshot;
use ultracortex::persist::wal::{payload_purpose, replay_bytes, WalFrame, WalOp};
use ultracortex::proto::{
    admin_reply, events_reply, handle_message, Action, Event, EventsMode, TokenFacts,
};
use ultracortex::snapshots::{mark_clean, mark_snapshot, SnapshotOutcome, SnapshotTimes};
use ultracortex::substrate::{cells_can_restore, curators_can_restore, Cells, Curators};
use ultracortex::textmap::TextMap;
use ultracortex::vocab::{CellId, LogicalClock, ShardTopology, UcError};
use ultracortex::wiring::{
    configured_curator_backend, configured_judges, first_manifest, shard_dir, BackendChoice,
    Guardrails,
};

fn curators() -> Curators<DeterministicBackend> {
    Curators {
        librarian: LibrarianCell::new(CellId(LIBRARIAN_ID), DeterministicBackend),
        warden: WardenCell::with_backend(CellId(WARDEN_ID), DeterministicBackend),
        adjudicator: AdjudicatorCell::new(
            CellId(ADJUDICATOR_ID),
            vec![("judge".to_string(), DeterministicBackend)],
        ),
    }
}

/// The states of the cells that a node holds besides.
fn others() -> IdMap<Cbor> {
    let mut out = IdMap::new();
    for id in [9, 20, 21, 22, 23, 24, 25, 26] {
        out.insert(id, Cbor::Null);
    }
    out
}

fn fact() -> Fact {
    Fact {
        handle: "fact/T1".into(),
        subject: "s".into(),
        predicate: "p".into(),
        object: "o".into(),
        confidence: None,
        written_at: 1,
        superseded_by: None,
        supersedes: None,
        anchor: "Architecture.md\u{00a7}4".into(),
    }
}

fn same(_: u32, _: u32) -> u64 {
    1
}

#[test]
fn node_opens_snapshots_and_restores() {
    let mut cells = Cells::new(256, 42);
    let ledger = CrossCheckLedgerCell::new(CellId(CROSS_CHECK_ID));
    cells.fact.insert(fact());
    cells.bm25.add("d1".into(), "Quarantine holds writes");
    cells.vector.add("d1".into(), "Quarantine holds writes", &same);
    cells.graph.add_edge("fact/A", "supports", "fact/B");
    let mut snap = others();
    cells.snapshot_all(&mut snap);
    curators().snapshot_all(&ledger, &mut snap);
    assert!(snap.len() >= 25);

    let mut cells2 = Cells::new(256, 43);
    cells2.fact.insert(Fact { handle: "fact/gone".into(), ..fact() });
    let mut curators2 = curators();
    let mut ledger2 = CrossCheckLedgerCell::new(CellId(CROSS_CHECK_ID));
    assert!(cells_can_restore(&snap));
    assert!(curators_can_restore(&snap));
    cells2.restore_all(&snap, &same).unwrap();
    curators2.restore_all(&mut ledger2, &snap).unwrap();
    let none = TextMap::new();
    let public = public_index(&snap);
    let view = NodeView {
        facts: &cells2.fact,
        blobs: &cells2.blob,
        blob_texts: &none,
        decisions: &none,
        public: &public,
    };
    assert!(view.handle_exists("fact/T1"));
    assert!(!view.handle_exists("fact/gone"));
    assert_eq!(view.public_text("fact/T1").as_deref(), Some("o"));
    assert_eq!(
        view.active_sp("s", "p"),
        vec![("fact/T1".to_string(), "o".to_string())]
    );
    // State hashes match after restore.
    let mut snap2 = others();
    cells2.snapshot_all(&mut snap2);
    curators2.snapshot_all(&ledger2, &mut snap2);
    let (a, b) = (state_hashes(&snap), state_hashes(&snap2));
    assert_eq!(a.len(), b.len());
    for i in 0..a.len() {
        assert_eq!(a.key_at(i), b.key_at(i));
        assert_eq!(a.value_at(i), b.value_at(i), "cell {}", a.key_at(i));
    }
}

#[test]
fn restoring_stops_at_the_first_error() {
    let mut good = Cells::new(256, 42);
    good.fact.insert(fact());
    good.timeline.append(5, "s", Cbor::t("x"));
    let mut states = IdMap::new();
    good.snapshot_all(&mut states);
    let bad = Cbor::map(vec![("facts", Cbor::arr(vec![Cbor::u(1)]))]);
    states.insert(FACT_ID, bad);
    let mut cells = Cells::new(256, 42);
    assert!(cells.restore_all(&states, &same).is_err());
    // What comes after the error was not taken up.
    assert_eq!(
        cells.timeline_bytes(),
        Cells::new(256, 42).timeline_bytes()
    );
    let mut rest = IdMap::new();
    good.snapshot_all(&mut rest);
    let mut only = IdMap::new();
    only.insert(TIMELINE_ID, rest.get(TIMELINE_ID).unwrap().clone());
    cells.restore_all(&only, &same).unwrap();
    assert_eq!(cells.timeline_bytes(), good.timeline_bytes());
}

trait TimelineBytes {
    fn timeline_bytes(&self) -> Vec<u8>;
}

impl TimelineBytes for Cells {
    fn timeline_bytes(&self) -> Vec<u8> {
        let mut out = IdMap::new();
        self.snapshot_all(&mut out);
        out.get(TIMELINE_ID).unwrap().encode()
    }
}

#[test]
fn states_beyond_the_limits_are_told() {
    let mut states: IdMap<Cbor> = IdMap::new();
    let short = Cbor::map(vec![("sha256", Cbor::bytes(vec![1, 2]))]);
    states.insert(BLOB_ID, Cbor::map(vec![("blobs", Cbor::arr(vec![short]))]));
    assert!(!cells_can_restore(&states));
    states.insert(BLOB_ID, Cbor::Null);
    states.insert(VECTOR_ID, Cbor::Null);
    assert!(cells_can_restore(&states));
    states.insert(
        ADJUDICATOR_ID,
        Cbor::map(vec![("policy_count", Cbor::u(u64::MAX))]),
    );
    assert!(!curators_can_restore(&states));
}

#[test]
fn t1_wal_boundary_does_not_store_plaintext_payload() {
    let kms = Kms::new(EncryptionTier::T1, KeyRing::first([0x42; 32]));
    let sentinel = b"wal-boundary-secret";
    let payload = Cbor::map(vec![(
        "secret",
        Cbor::t(&String::from_utf8(sentinel.to_vec()).unwrap()),
    )])
    .encode();
    let frame = WalFrame {
        logical_at: 1,
        cell_id: FACT_ID,
        op: WalOp::Write,
        schema_ver: 1,
        flags: 0,
        payload: payload.clone(),
    };
    let raw = seal_frame(&kms, &frame).to_bytes();
    assert!(!raw.windows(sentinel.len()).any(|w| w == sentinel));
    let replayed = replay_bytes(&raw).frames;
    assert_eq!(replayed.len(), 1);
    let purpose = payload_purpose(replayed[0].cell_id, replayed[0].flags);
    assert_eq!(kms.unseal(&purpose, &replayed[0].payload).unwrap(), payload);
}

fn times(capture_us: u64) -> SnapshotTimes {
    SnapshotTimes { total_us: 900, capture_us, hash_us: 1, write_us: 2, manifest_us: 3 }
}

#[test]
fn snapshot_outcome_surfaces_pause_measurement() {
    let mut states = others();
    Cells::new(256, 42).snapshot_all(&mut states);
    let ledger = CrossCheckLedgerCell::new(CellId(CROSS_CHECK_ID));
    curators().snapshot_all(&ledger, &mut states);
    let (name, _) = write_snapshot(7, &states);
    let snap = SnapshotOutcome::new(name, states.len(), times(40));
    assert!(snap.name.starts_with("snap-"));
    assert!(snap.cells >= 25);
    assert_eq!(
        snap.within_target,
        snap.pause_us <= SNAPSHOT_PAUSE_TARGET_US
    );
    let mut m = Metrics::new();
    snap.note(&mut m);
    let metrics = m.snapshot();
    assert!(metrics.get("snapshot.pause_us.count").copied().unwrap_or(0) > 0);
    assert_eq!(m.gauge("snapshot.last_pause_us"), snap.pause_us as i64);
    assert_eq!(m.gauge("snapshot.last_cells"), snap.cells as i64);
    assert_eq!(m.counter("snapshot.pause_target_exceeded"), 0);
    assert_eq!(snap.event(), ("info", "snapshot.completed"));
    assert_eq!(snap.fields().len(), 5);
}

#[test]
fn long_pauses_are_noted() {
    let snap = SnapshotOutcome::new("snap-1".into(), 25, times(50_001));
    assert!(!snap.within_target);
    let mut m = Metrics::new();
    snap.note(&mut m);
    assert_eq!(m.counter("snapshot.pause_target_exceeded"), 1);
    assert_eq!(snap.event(), ("warn", "snapshot.pause_target_exceeded"));
    assert_eq!(snap.fields()[0], ("pause_us".to_string(), "50001".to_string()));
}

#[test]
fn snapshot_admin_surfaces_pause_breakdown() {
    let mut states = others();
    Cells::new(256, 42).snapshot_all(&mut states);
    let ledger = CrossCheckLedgerCell::new(CellId(CROSS_CHECK_ID));
    curators().snapshot_all(&ledger, &mut states);
    let (name, _) = write_snapshot(7, &states);
    let snap = SnapshotOutcome::new(name, states.len(), times(40)).to_reply().reply();
    let pause = snap.opt_u64("pause_us").unwrap_or(0);
    assert!(snap
        .opt_str("snapshot")
        .unwrap_or_default()
        .starts_with("snap-"));
    assert!(snap.opt_u64("cells").unwrap_or(0) >= 25);
    assert_eq!(snap.opt_u64("pause_target_us"), Some(SNAPSHOT_PAUSE_TARGET_US));
    assert_eq!(
        snap.opt_bool("within_target"),
        Some(pause <= SNAPSHOT_PAUSE_TARGET_US)
    );
    assert!(snap.opt_u64("total_us").is_some());
    assert!(snap.opt_u64("capture_us").is_some());
    assert!(snap.opt_u64("hash_us").is_some());
    assert!(snap.opt_u64("write_us").is_some());
    assert!(snap.opt_u64("manifest_us").is_some());
}

#[test]
fn logical_snapshot_threshold_triggers_automatic_snapshot() {
    let mut p = SnapshotPolicy::new();
    let mut m = Metrics::new();
    p.set_snapshot_watermark(0);
    assert!(p.due(AUTO_SNAPSHOT_LOGICAL_INTERVAL));
    p.set_snapshot_watermark(AUTO_SNAPSHOT_LOGICAL_INTERVAL);
    m.inc("snapshot.automatic");
    assert_eq!(m.counter("snapshot.automatic"), 1);
    assert!(!p.due(AUTO_SNAPSHOT_LOGICAL_INTERVAL));
}

#[test]
fn manifests_say_what_was_written() {
    let mut m = first_manifest("n", 1, EncryptionTier::T1, 2);
    assert_eq!((m.logical_at, m.clean_shutdown, m.encryption_tier.as_str()), (0, false, "T1"));
    let mut hashes = IdMap::new();
    hashes.insert(2, [7u8; 32]);
    mark_snapshot(&mut m, 9, "snap-9", Some(hashes));
    mark_snapshot(&mut m, 10, "snap-10", None);
    assert_eq!(m.last_snapshot.as_deref(), Some("snap-10"));
    assert_eq!(m.state_hashes.len(), 1);
    mark_clean(&mut m, 11);
    assert!(m.clean_shutdown);
    assert_eq!(m.logical_at, 11);
}

#[test]
fn backends_follow_the_pins() {
    let mut cfg = CuratorConfig::default();
    assert!(cfg.strict_model_pins);
    let e = configured_curator_backend(&cfg, "warden", "m").unwrap_err();
    assert_eq!(
        e.message,
        "curator warden default requires pinned m weights and a local GGUF runner"
    );
    cfg.adjudicator_pool = vec!["j1".into()];
    assert_eq!(
        configured_judges(&cfg).unwrap_err().message,
        "strict curator mode requires a GGUF runner"
    );
    cfg.external_cmd = Some("run".into());
    assert_eq!(
        configured_judges(&cfg).unwrap_err().message,
        "missing curator pin for adjudicator: j1"
    );
    cfg.pinned.insert("j1".into(), "aa".into());
    cfg.pinned.insert("warden".into(), "bb".into());
    match &configured_judges(&cfg).unwrap()[0].1 {
        BackendChoice::Runner { slot, sha, .. } => assert_eq!((slot.as_str(), sha.as_str()), ("j1", "aa")),
        other => panic!("{other:?}"),
    }
    match configured_curator_backend(&cfg, "warden", "m").unwrap() {
        BackendChoice::Runner { model, command, .. } => assert_eq!((model, command), ("m".into(), "run".into())),
        other => panic!("{other:?}"),
    }
    let dev = CuratorConfig::development();
    assert!(matches!(
        configured_curator_backend(&dev, "warden", "m").unwrap(),
        BackendChoice::Deterministic
    ));
}

#[test]
fn nodes_are_wired_from_their_settings() {
    assert_eq!(shard_dir(7), "wal/shard-007");
    assert_eq!(shard_dir(1234), "wal/shard-1234");
    let cfg = CuratorConfig::default();
    let mut a = Guardrails::new(42, &cfg);
    let mut b = Guardrails::new(42, &cfg);
    assert_eq!(a.probe.fabricated_handle(5), b.probe.fabricated_handle(5));
    assert!(!a.calibration.degraded());
}

const RETENTION: &str = "append-only; pruned with its epoch";

struct Office {
    cfg: CuratorConfig,
    ledger: CrossCheckLedgerCell,
    registry: AgentRegistryCell,
    kms: Kms,
    calibration: CalibrationTracker,
    clock: LogicalClock,
    metrics: Metrics,
    curators: Curators<DeterministicBackend>,
    trinity_topology: ShardTopology,
    kv: KvBudgets,
}

impl Office {
    fn new(tier: EncryptionTier) -> Office {
        Office {
            cfg: CuratorConfig::development(),
            ledger: CrossCheckLedgerCell::new(CellId(CROSS_CHECK_ID)),
            registry: AgentRegistryCell::new(CellId(11)),
            kms: Kms::new(tier, KeyRing::first([7; 32])),
            calibration: CalibrationTracker::new(),
            clock: LogicalClock::new(1),
            metrics: Metrics::new(),
            curators: curators(),
            trinity_topology: ShardTopology::Dedicated,
            kv: KvBudgets { librarian_mib: 384, warden_mib: 384, adjudicator_mib: 256 },
        }
    }

    fn ask(&mut self, verb: &str, args: Cbor) -> AdminStep {
        let desk = Desk {
            node_id: "node-x",
            shards: 2,
            trinity_topology: self.trinity_topology,
            cfg: &self.cfg,
            ledger: &self.ledger,
            registry: &self.registry,
            kms: &self.kms,
            custody_path: Some("data/kms/keyring.cbor".into()),
            calibration: &self.calibration,
            kv: self.kv,
            retention: RETENTION,
            quarantine_pending: 3,
        };
        let msg = Cbor::map(vec![("verb", Cbor::t(verb)), ("args", args)]);
        serve(&msg, &mut self.clock, &mut self.metrics, &mut self.curators, &desk)
    }

    fn answer(&mut self, verb: &str) -> Cbor {
        match self.ask(verb, Cbor::Null) {
            AdminStep::Reply(r) => r.unwrap(),
            other => panic!("{other:?}"),
        }
    }
}

#[test]
fn admin_verbs_respond() {
    let mut office = Office::new(EncryptionTier::T1);
    for v in [
        "status",
        "budget defaults",
        "quarantine list",
        "gap list",
        "kms status",
        "congruence audit",
        "contract list",
        "curator status",
        "cross-check tail",
        "adjudicator stats",
        "metrics",
        "metrics export",
        "audit verify",
    ] {
        if let AdminStep::Reply(Err(e)) = office.ask(v, Cbor::Null) {
            panic!("verb {v}: {}", e.message);
        }
    }
    // Unknown verb rejected.
    assert!(matches!(
        office.ask("frobnicate", Cbor::Null),
        AdminStep::Reply(Err(_))
    ));
    assert_eq!(office.clock.now(), 15);
    assert_eq!(office.metrics.counter("admin.kms_status"), 1);
}

#[test]
fn the_node_answers_from_its_state() {
    let mut office = Office::new(EncryptionTier::T1);
    let status = office.answer("status");
    assert_eq!(status.opt_str("node_id").as_deref(), Some("node-x"));
    assert_eq!(status.opt_u64("logical_at"), Some(2));
    assert_eq!(status.opt_u64("quarantine_pending"), Some(3));
    assert_eq!(status.opt_str("trinity_topology").as_deref(), Some("dedicated"));
    let curator = office.answer("curator status");
    assert_eq!(curator.opt_u64("total_kv_cache_mib"), Some(1024));
    assert_eq!(curator.opt_u64("calibration_window"), Some(50));
    let e = match office.ask("resolve", Cbor::map(vec![("handle", Cbor::t("adjudication/0"))])) {
        AdminStep::Reply(Err(e)) => e,
        other => panic!("{other:?}"),
    };
    assert!(!e.message.is_empty());
    match office.ask("kms rotate", Cbor::map(vec![("emergency", Cbor::Bool(true))])) {
        AdminStep::Outside(AdminCall::KmsRotate { emergency }) => assert!(emergency),
        other => panic!("{other:?}"),
    }
}

#[test]
fn kms_status_and_rotate_surface_custody_and_keep_audit_chain_intact() {
    let mut office = Office::new(EncryptionTier::T3);
    let status = office.answer("kms status");
    assert_eq!(status.opt_str("tier"), Some("T3".to_string()));
    assert_eq!(status.opt_u64("active_key_id"), Some(1));
    assert_eq!(status.opt_u64("rotation_interval_ops"), Some(T3_ROTATION_INTERVAL_OPS));
    assert!(status.opt_str("custody_path").unwrap_or_default().ends_with("keyring.cbor"));

    let at = office.clock.tick();
    let event = office.kms.rotate(at, true, [9; 32]).unwrap();
    let mut chain = AuditChain::ephemeral();
    let fields = vec![
        ("tier", Cbor::t(office.kms.tier().as_str())),
        ("previous_key_id", Cbor::U64(event.previous_key_id)),
        ("active_key_id", Cbor::U64(event.active_key_id)),
        ("emergency", Cbor::Bool(event.emergency)),
    ];
    let entry = chain.entry(at, "kms.key_rotated", fields);
    let line = entry.line().to_string();
    chain.append(entry, Ok(())).unwrap();
    let rotated = kms_rotated(&office.kms, &event, at).reply();
    assert_eq!(rotated.opt_u64("previous_key_id"), Some(1));
    assert_eq!(rotated.opt_u64("active_key_id"), Some(2));
    assert_eq!(rotated.opt_bool("emergency"), Some(true));
    assert_eq!(rotated.opt_bool("audited"), Some(true));

    let (records, intact) = AuditChain::verify(&vec![line]).unwrap();
    let audit = AuditReply {
        records,
        intact,
        cross_check_batches_expected: 0,
        cross_check_batches_verified: 0,
        cross_check_signatures_intact: true,
    }
    .reply();
    assert_eq!(audit.opt_bool("intact"), Some(true));
    assert_eq!(audit.opt_bool("cross_check_signatures_intact"), Some(true));
}

fn double(c: &Cbor, key: &str) -> Option<u64> {
    match c.get(key) {
        Some(Cbor::F64(bits)) => Some(*bits),
        _ => None,
    }
}

#[test]
fn admin_status_surfaces_gap_policy_defaults() {
    let mut office = Office::new(EncryptionTier::T1);
    register_agents(&mut office.registry, 1);
    let status = office.answer("status");
    assert_eq!(status.opt_u64("shards"), Some(2));
    assert_eq!(status.opt_str("trinity_topology"), Some("dedicated".to_string()));
    assert_eq!(status.opt_str("curator_topology"), Some("dedicated".to_string()));

    let quarantine = quarantine_reply(&Vec::new(), 1_000_000);
    assert_eq!(quarantine.opt_u64("resolved_retention_logical"), Some(1_000_000));
    assert_eq!(quarantine.opt_bool("pending_never_pruned"), Some(true));

    let grant = |namespace: &str, grant: u64| BudgetItem { namespace: namespace.into(), grant };
    let budgets = budget_reply(
        100_000,
        &vec![grant("admin", 250_000), grant("bootstrap", 1_000_000), grant("curator", 10_000_000)],
    );
    assert_eq!(budgets.opt_u64("default_grant"), Some(100_000));
    let by_namespace = budgets
        .get("namespace_defaults")
        .and_then(|v| v.as_array())
        .unwrap()
        .iter()
        .map(|item| {
            (
                item.req_str("namespace").unwrap(),
                item.opt_u64("grant").unwrap_or(0),
            )
        })
        .collect::<std::collections::BTreeMap<_, _>>();
    assert_eq!(by_namespace.get("bootstrap").copied(), Some(1_000_000));
    assert_eq!(by_namespace.get("curator").copied(), Some(10_000_000));
    assert_eq!(by_namespace.get("admin").copied(), Some(250_000));

    let curator = office.answer("curator status");
    assert_eq!(double(&curator, "probe_rate"), Some(0.001f64.to_bits()));
    assert_eq!(double(&curator, "probe_boost_on_suspicious"), Some(TEN));
    assert_eq!(TEN, 10.0f64.to_bits());
    assert_eq!(curator.opt_str("kv_budget_profile"), Some("reference".to_string()));
    assert_eq!(curator.opt_u64("librarian_kv_cache_mib"), Some(384));
    assert_eq!(curator.opt_u64("warden_kv_cache_mib"), Some(384));
    assert_eq!(curator.opt_u64("adjudicator_kv_cache_mib"), Some(256));
    assert_eq!(curator.opt_u64("total_kv_cache_mib"), Some(1_024));
    assert_eq!(double(&curator, "blind_reaudit_rate"), Some(0.01f64.to_bits()));
    assert_eq!(curator.opt_str("topology"), Some("dedicated".to_string()));
    assert_eq!(
        curator.opt_str("cross_check_retention_policy"),
        Some(RETENTION.to_string())
    );
    assert_eq!(curator.opt_u64("calibration_window"), Some(CALIBRATION_WINDOW as u64));
    assert_eq!(double(&curator, "high_band_floor"), Some(HIGH_BAND_FLOOR));
    assert_eq!(double(&curator, "medium_band_floor"), Some(MEDIUM_BAND_FLOOR));
    assert_eq!(curator.opt_bool("degraded"), Some(false));

    let adjudicator = office.answer("adjudicator stats");
    let subscribers = adjudicator
        .get("escalation_subscribers")
        .and_then(|v| v.as_array())
        .unwrap()
        .iter()
        .filter_map(|v| v.as_str())
        .collect::<Vec<_>>();
    assert!(subscribers.contains(&"operator"));
}

#[test]
fn topology_overrides_and_cross_check_policy_surface_cleanly() {
    let mut office = Office::new(EncryptionTier::T1);
    office.trinity_topology = ShardTopology::CoTenantShard0;
    office.cfg.topology = ShardTopology::CoTenantShard0;
    office.cfg.kv_budget_profile = CuratorKvBudgetProfile::Small;
    office.kv = KvBudgets { librarian_mib: 256, warden_mib: 256, adjudicator_mib: 128 };
    let status = office.answer("status");
    assert_eq!(
        status.opt_str("trinity_topology"),
        Some("co-tenant-shard-0".to_string())
    );
    assert_eq!(
        status.opt_str("curator_topology"),
        Some("co-tenant-shard-0".to_string())
    );
    let curator = office.answer("curator status");
    assert_eq!(curator.opt_str("topology"), Some("co-tenant-shard-0".to_string()));
    assert_eq!(curator.opt_str("kv_budget_profile"), Some("small".to_string()));
    assert_eq!(curator.opt_u64("librarian_kv_cache_mib"), Some(256));
    assert_eq!(curator.opt_u64("warden_kv_cache_mib"), Some(256));
    assert_eq!(curator.opt_u64("adjudicator_kv_cache_mib"), Some(128));
    assert_eq!(curator.opt_u64("total_kv_cache_mib"), Some(640));
    assert_eq!(
        curator.opt_str("cross_check_retention_policy"),
        Some(RETENTION.to_string())
    );
    let tail = office.answer("cross-check tail");
    assert_eq!(tail.opt_str("retention_policy"), Some(RETENTION.to_string()));
}

fn holds(agent: &str) -> Result<TokenFacts, UcError> {
    Ok(TokenFacts { agent_id: agent.into(), token_id: "t".into(), grants: true })
}

#[test]
fn admin_requires_operator_and_events_pull_delivers() {
    let mut office = Office::new(EncryptionTier::T1);
    register_agents(&mut office.registry, 1);
    let bare = Cbor::map(vec![
        ("type", Cbor::t("admin")),
        ("verb", Cbor::t("status")),
        ("args", Cbor::Null),
    ]);
    let unauthenticated =
        match handle_message(&bare, "n", Err(UcError::denied("no token")), &office.registry) {
            Action::Reply(c) => c,
            other => panic!("{other:?}"),
        };
    assert_eq!(unauthenticated.opt_bool("ok"), Some(false));

    let admin = |agent: &str| {
        Cbor::map(vec![
            ("type", Cbor::t("admin")),
            ("verb", Cbor::t("status")),
            ("args", Cbor::Null),
            ("agent_id", Cbor::t(agent)),
            ("capability", Cbor::Null),
        ])
    };
    assert!(matches!(
        handle_message(&admin("operator"), "n", holds("operator"), &office.registry),
        Action::Admin
    ));
    let authenticated = admin_reply(Ok(office.answer("status")));
    assert_eq!(authenticated.opt_bool("ok"), Some(true));
    assert!(matches!(
        handle_message(&admin("curator.warden"), "n", holds("curator.warden"), &office.registry),
        Action::Reply(_)
    ));

    office.registry.register(1, "events-agent", "agent");
    let pull = Cbor::map(vec![
        ("type", Cbor::t("events")),
        ("agent_id", Cbor::t("events-agent")),
        ("capability", Cbor::Null),
        ("mode", Cbor::t("pending")),
    ]);
    let delivered = match handle_message(&pull, "n", holds("events-agent"), &office.registry) {
        Action::Events { agent_id, mode } => {
            assert_eq!(mode, EventsMode::Pending);
            let event = Event {
                seq: 1,
                name: "node.test".into(),
                payload: Cbor::t("delivered"),
                logical_at: 2,
            };
            events_reply(&agent_id, mode, &vec![event], 1)
        }
        other => panic!("{other:?}"),
    };
    assert_eq!(delivered.opt_bool("ok"), Some(true));
    let events = delivered.get("events").and_then(|v| v.as_array()).unwrap();
    assert!(events
        .iter()
        .any(|event| { event.opt_str("name").as_deref() == Some("node.test") }));
}
