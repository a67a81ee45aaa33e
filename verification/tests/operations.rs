use ultracortex::bootstrap::admin::{admin_dispatch, count_verb, AdminCall, AdminVerb};
use ultracortex::bootstrap::provision::{cited_section, provision_plan, Provision};
use ultracortex::bootstrap::recovery::{check_audit, check_owner, replay_log, Replay};
use ultracortex::bootstrap::selftest::{
    check_backends, request, self_test, Evidence, Reply, SelfTest, Step,
};
use ultracortex::cbor::Cbor;
use ultracortex::cells::fact::FactCell;
use ultracortex::cells::registry::AgentRegistryCell;
use ultracortex::cli::{parse_command, parse_run, render};
use ultracortex::config::{
    apply_kv, Config, CuratorKvBudgetProfile, Given, Rate,
};
use ultracortex::minitoml;
use ultracortex::net::{validate_tcp_listen_addr, Ip};
use ultracortex::node::{shard_for, SnapshotPolicy};
use ultracortex::obs::audit::AuditChain;
use ultracortex::obs::json::{json_escape, log_line};
use ultracortex::obs::metrics::Metrics;
use ultracortex::obs::otlp::{
    http_request, http_status, parse_http_endpoint, OtlpConfig, OtlpExporter,
};
use ultracortex::persist::wal::{WalFrame, WalOp};
use ultracortex::proto::{
    admin_reply, admin_result, hello_ack, read_frame, route, verify_admin_capability,
    verify_capability, write_frame, Route, TokenFacts, MAX_FRAME,
};
use ultracortex::vocab::{CellId, ErrCode, Intent, LogicalClock, UcError};

/// What a resolver says of a name that it does not know.
fn nowhere() -> Result<Vec<Ip>, String> {
    Err("invalid socket address".to_string())
}

#[test]
fn metrics_roundtrip() {
    let mut m = Metrics::new();
    m.inc("curator.rationale_access_denied");
    m.add("curator.rationale_access_denied", 2);
    assert_eq!(m.counter("curator.rationale_access_denied"), 3);
    m.gauge_set("quarantine.depth", 7);
    assert_eq!(m.gauge("quarantine.depth"), 7);
    m.observe("router.write_us", 100);
    m.observe("router.write_us", 300);
    let snap = m.snapshot();
    assert_eq!(snap.get("router.write_us.count"), Some(&2));
    assert_eq!(snap.get("router.write_us.mean"), Some(&200));
    assert_eq!(snap.get("router.write_us.max"), Some(&300));
    assert_eq!(snap.get("quarantine.depth(gauge)"), Some(&7));
}

#[test]
fn export_is_json() {
    let mut m = Metrics::new();
    m.inc("a\"b");
    m.gauge_set("g", -2);
    let text = m.otlp_json();
    assert!(text.contains("{\"name\":\"a\\\"b\",\"sum\":{\"aggregationTemporality\":2,\"isMonotonic\":true,\"dataPoints\":[{\"asInt\":1}]}}"));
    assert!(text.contains("{\"name\":\"g\",\"gauge\":{\"dataPoints\":[{\"asInt\":-2}]}}"));
}

#[test]
fn audit_chain_verify_detects_tamper() {
    let mut chain = AuditChain::ephemeral();
    let mut lines: Vec<String> = Vec::new();
    for (at, event, fields) in [
        (1, "boot.start", vec![("node", Cbor::t("n1"))]),
        (2, "boot.ready", vec![("cells", Cbor::U64(25))]),
    ] {
        let entry = chain.entry(at, event, fields);
        lines.push(entry.line().to_string());
        chain.append(entry, Ok(())).unwrap();
    }
    assert_eq!(AuditChain::verify(&lines).unwrap(), (2, true));
    let mut chain = AuditChain::open(&lines, "audit.chain").unwrap();
    assert_eq!(chain.head().1, 2);
    let entry = chain.entry(3, "shutdown.clean", vec![]);
    assert!(chain.append(entry, Err("disk full".to_string())).is_err());
    assert_eq!(chain.head().1, 2);
    let entry = chain.entry(3, "shutdown.clean", vec![]);
    lines.push(entry.line().to_string());
    assert_eq!(chain.append(entry, Ok(())).unwrap(), chain.head().0);
    assert_eq!(AuditChain::verify(&lines).unwrap(), (3, true));
    // A changed digit in the middle.
    let mut bad = lines.clone();
    let mid = bad[1].len() / 4;
    let c = if &bad[1][mid..mid + 1] == "0" { "1" } else { "0" };
    bad[1].replace_range(mid..mid + 1, c);
    let (_, ok) = AuditChain::verify(&bad).unwrap();
    assert!(!ok);
    assert!(AuditChain::open(&bad, "audit.chain").is_err());
    // A line left out, and one that is no hex.
    assert_eq!(
        AuditChain::verify(&vec![lines[0].clone(), lines[2].clone()]).unwrap(),
        (1, false)
    );
    assert_eq!(
        AuditChain::verify(&vec!["zz 00".to_string()]).unwrap_err(),
        "audit line 1: bad hex body"
    );
}

#[test]
fn logger_writes_json_lines() {
    let content = log_line(
        42,
        "info",
        "test.event",
        &vec![("k".to_string(), "v\"q".to_string())],
    );
    assert!(content.contains("\"at\":42"));
    assert!(content.contains("\\\"q"));
    assert!(content.ends_with("}\n"));
    assert_eq!(json_escape("a\u{1}\n\\"), "a\\u0001\\n\\\\");
}

#[test]
fn otlp_defaults_are_conventional_and_overrideable() {
    let cfg = OtlpConfig::default();
    assert_eq!(cfg.metrics_endpoint, "http://127.0.0.1:4318/v1/metrics");
    assert_eq!(cfg.traces_endpoint, "http://127.0.0.1:4318/v1/traces");
    assert_eq!(cfg.logs_endpoint, "http://127.0.0.1:4318/v1/logs");
    assert!(cfg.enabled);
    assert!(parse_http_endpoint("http://localhost:4318/v1/metrics").is_ok());
    assert!(parse_http_endpoint("https://localhost:4318/v1/metrics").is_err());
    assert_eq!(
        parse_http_endpoint("http://[::1]:80").unwrap(),
        ("::1".to_string(), 80, "/".to_string())
    );
    assert!(parse_http_endpoint("http://h:99999/").is_err());
    assert!(parse_http_endpoint("http://:1/").is_err());
}

#[test]
fn exports_are_judged_by_status() {
    let exporter = OtlpExporter::new(OtlpConfig::default());
    let m = Metrics::new();
    assert!(exporter.metrics_body(&m).is_some());
    let r = exporter.export_metrics(Ok((200, 10))).unwrap();
    assert_eq!(r.status_code, Some(200));
    assert!(!r.skipped);
    assert_eq!(
        exporter.export_metrics(Ok((503, 10))).unwrap_err(),
        "OTLP metrics endpoint http://127.0.0.1:4318/v1/metrics returned HTTP 503"
    );
    assert!(exporter.export_metrics(Err("down".to_string())).is_err());
    let off = OtlpExporter::new(OtlpConfig {
        enabled: false,
        ..OtlpConfig::default()
    });
    assert!(off.metrics_body(&m).is_none());
    assert!(off.export_metrics(Ok((500, 1))).unwrap().skipped);
    assert_eq!(
        http_status("e", b"HTTP/1.1 204 No Content\r\n\r\n").unwrap(),
        204
    );
    assert!(http_status("e", b"garbage").is_err());
    let text = http_request("h", 80, "/p", "{}");
    assert!(text.starts_with("POST /p HTTP/1.1\r\nHost: h:80\r\n"));
    assert!(text.contains("Content-Length: 2\r\n"));
}

#[test]
fn frame_roundtrip_and_limits() {
    let mut buf: Vec<u8> = Vec::new();
    write_frame(&mut buf, b"hello").unwrap();
    write_frame(&mut buf, b"").unwrap();
    let (body, at) = read_frame(&buf, 0).unwrap().unwrap();
    assert_eq!(body, b"hello");
    let (body, at) = read_frame(&buf, at).unwrap().unwrap();
    assert_eq!(body, b"");
    assert!(read_frame(&buf, at).unwrap().is_none());
    let mut sink: Vec<u8> = Vec::new();
    let big = vec![0u8; MAX_FRAME + 1];
    assert!(write_frame(&mut sink, &big).is_err());
    let mut evil = ((MAX_FRAME + 1) as u32).to_le_bytes().to_vec();
    evil.extend_from_slice(&[0u8; 8]);
    assert!(read_frame(&evil, 0).is_err());
}

#[test]
fn truncated_frame_is_an_error_not_a_hang() {
    let mut buf = 100u32.to_le_bytes().to_vec();
    buf.extend_from_slice(b"abc");
    assert!(read_frame(&buf, 0).is_err());
}

#[test]
fn a_cut_off_length_is_no_end() {
    for n in 1..4 {
        let e = read_frame(&[5u8, 0, 0][..n], 0).unwrap_err();
        assert_eq!(e, "failed to fill whole buffer");
    }
    assert!(read_frame(&[], 0).unwrap().is_none());
}

#[test]
fn tcp_listener_policy_is_loopback_only() {
    assert!(validate_tcp_listen_addr("127.0.0.1:7741", &nowhere()).is_ok());
    assert!(validate_tcp_listen_addr("[::1]:7741", &nowhere()).is_ok());
    assert!(validate_tcp_listen_addr("0.0.0.0:7741", &nowhere()).is_err());
    assert!(validate_tcp_listen_addr("192.168.1.25:7741", &nowhere()).is_err());
    assert!(validate_tcp_listen_addr("[::]:7741", &nowhere()).is_err());
}

#[test]
fn addresses_are_read_in_every_form() {
    for good in [
        "127.255.0.1:0",
        "[0:0:0:0:0:0:0:1]:65535",
        "[::0001%3]:1",
        "[0::1]:1",
    ] {
        assert!(validate_tcp_listen_addr(good, &nowhere()).is_ok(), "{good}");
    }
    for (bad, part) in [
        ("127.0.0.01:1", "bad listen.tcp"),
        ("127.0.0.1:65536", "bad listen.tcp"),
        ("[::1:1", "bad listen.tcp"),
        ("[1:2:3:4:5:6:7:8:9]:1", "bad listen.tcp"),
        ("[:::1]:1", "bad listen.tcp"),
        ("[::ffff:127.0.0.1]:1", "non-loopback"),
        ("[2001:db8::1]:1", "non-loopback"),
        ("localhost:1", "bad listen.tcp"),
    ] {
        let e = validate_tcp_listen_addr(bad, &nowhere()).unwrap_err();
        assert!(e.message.contains(part), "{bad}: {}", e.message);
    }
    assert!(validate_tcp_listen_addr("localhost:1", &Ok(vec![Ip::V4(vec![127, 0, 0, 1])])).is_ok());
    assert!(validate_tcp_listen_addr("far:1", &Ok(vec![Ip::V4(vec![10, 0, 0, 1])])).is_err());
    assert!(validate_tcp_listen_addr("none:1", &Ok(vec![])).is_err());
}

#[test]
fn curator_kv_budget_profile_rejects_unknown_values() {
    let mut cfg = Config::default();
    apply_kv(&mut cfg, "curator.kv_budget_profile", "heavy", &nowhere()).unwrap();
    assert_eq!(
        cfg.curator.kv_budget_profile.as_str(),
        CuratorKvBudgetProfile::Heavy.as_str()
    );
    assert!(apply_kv(&mut cfg, "curator.kv_budget_profile", "gigantic", &nowhere()).is_err());
    let good = minitoml::parse("[curator]\nkv_budget_profile = \"small\"\n").unwrap();
    cfg.apply_toml(&good, &nowhere()).unwrap();
    assert_eq!(
        cfg.curator.kv_budget_profile.as_str(),
        CuratorKvBudgetProfile::Small.as_str()
    );
    let bad = minitoml::parse("[curator]\nkv_budget_profile = \"tiny\"\n").unwrap();
    assert!(cfg.apply_toml(&bad, &nowhere()).is_err());
}

#[test]
fn tcp_listener_policy_rejects_non_loopback_config() {
    let mut cfg = Config::default();
    apply_kv(&mut cfg, "listen.tcp", "127.0.0.1:7741", &nowhere()).unwrap();
    assert_eq!(cfg.tcp_addr, Some("127.0.0.1:7741".to_string()));
    assert!(apply_kv(&mut cfg, "listen.tcp", "0.0.0.0:7741", &nowhere()).is_err());
    let good = minitoml::parse("[listen]\ntcp = \"[::1]:7741\"\n").unwrap();
    cfg.apply_toml(&good, &nowhere()).unwrap();
    assert_eq!(cfg.tcp_addr, Some("[::1]:7741".to_string()));
    let bad = minitoml::parse("[listen]\ntcp = \"192.168.1.25:7741\"\n").unwrap();
    assert!(cfg.apply_toml(&bad, &nowhere()).is_err());
    apply_kv(
        &mut cfg,
        "listen.tcp",
        "localhost:7741",
        &Ok(vec![Ip::V4(vec![127, 0, 0, 1])]),
    )
    .unwrap();
    assert_eq!(cfg.tcp_addr, Some("localhost:7741".to_string()));
}

#[test]
fn otlp_config_override_surface_roundtrips() {
    let mut cfg = Config::default();
    apply_kv(
        &mut cfg,
        "observability.otlp_metrics_endpoint",
        "http://127.0.0.1:9999/v1/metrics",
        &nowhere(),
    )
    .unwrap();
    apply_kv(&mut cfg, "observability.otlp_enabled", "false", &nowhere()).unwrap();
    apply_kv(&mut cfg, "observability.otlp_timeout_ms", "2500", &nowhere()).unwrap();
    assert!(!cfg.observability.enabled);
    assert_eq!(
        cfg.observability.metrics_endpoint,
        "http://127.0.0.1:9999/v1/metrics"
    );
    assert_eq!(cfg.observability.timeout_ms, 2500);
    let doc = minitoml::parse(
        "[observability]\notlp_enabled = true\notlp_logs_endpoint = \"http://localhost:4318/v1/logs\"\n",
    )
    .unwrap();
    cfg.apply_toml(&doc, &nowhere()).unwrap();
    assert!(cfg.observability.enabled);
    assert_eq!(
        cfg.observability.logs_endpoint,
        "http://localhost:4318/v1/logs"
    );
}

#[test]
fn settings_are_read_and_refused() {
    let mut cfg = Config::for_cores(8);
    assert_eq!(cfg.shards, 6);
    assert_eq!(Config::default().shards, 2);
    let doc = minitoml::parse(
        "[node]\nid = \"n1\"\nshards = 0\nboot_seed = -1\nembedder_dim = 4\n\
         [curator]\npool = \"a, ,b\"\nprobe_rate = 1\n[curator.pinned]\nlibrarian = \"ab\"\n",
    )
    .unwrap();
    cfg.apply_toml(&doc, &nowhere()).unwrap();
    assert_eq!(cfg.node_id, "n1");
    assert_eq!(cfg.shards, 1);
    assert_eq!(cfg.boot_seed, u64::MAX);
    assert_eq!(cfg.embedder_dim, 16);
    assert_eq!(cfg.curator.adjudicator_pool, vec!["a", "b"]);
    assert_eq!(cfg.curator.pinned.get("librarian"), Some(&"ab".to_string()));
    cfg.set_rate(Rate::Probe, 1.0f64.to_bits());
    assert_eq!(f64::from_bits(cfg.curator.probe_rate), 1.0);
    for (k, v, want) in [
        ("node.shards", "x1", "invalid digit found in string"),
        ("node.shards", "", "cannot parse integer from empty string"),
        (
            "node.shards",
            "99999999999999999999",
            "number too large to fit in target type",
        ),
        ("node.boot_seed", "x", "bad boot_seed"),
        ("shards.trinity_topology", "x", "bad trinity topology"),
        (
            "persist.encryption_tier",
            "T7",
            "unknown encryption_tier: T7 (expected T0..T3)",
        ),
        ("nothing", "x", "unknown config key `nothing`"),
    ] {
        assert_eq!(apply_kv(&mut cfg, k, v, &nowhere()).unwrap_err().message, want);
    }
    let none = Err("unused".to_string());
    assert_eq!(
        cfg.apply_env("UC_TRINITY_TOPOLOGY", "x", &none)
            .unwrap_err()
            .message,
        "bad UC_TRINITY_TOPOLOGY"
    );
    cfg.apply_env("UC_OTLP_ENABLED", "YES", &none).unwrap();
    cfg.apply_env("HOME", "x", &none).unwrap();
    assert!(cfg.observability.enabled);
}

#[test]
fn wal_sharding_is_stable() {
    let a = shard_for("fact/01ABC", 2);
    let b = shard_for("fact/01ABC", 2);
    assert_eq!(a, b);
    assert!(a < 2);
}

#[test]
fn snapshots_fall_due() {
    let mut p = SnapshotPolicy::new();
    assert!(!p.due(299_999));
    assert!(p.due(300_000));
    p.set_snapshot_watermark(300_000);
    assert!(!p.due(300_000));
    p.logged(1 << 30);
    assert!(p.due(300_001));
}

fn token(grants: bool) -> Result<TokenFacts, UcError> {
    Ok(TokenFacts {
        agent_id: "op-1".to_string(),
        token_id: "tok-1".to_string(),
        grants,
    })
}

#[test]
fn access_needs_a_token_that_holds() {
    let mut reg = AgentRegistryCell::new(CellId(11));
    reg.register(1, "op-1", "agent");
    let bare = Cbor::map(vec![("type", Cbor::t("admin"))]);
    let with = Cbor::map(vec![
        ("type", Cbor::t("admin")),
        ("capability", Cbor::Null),
        ("agent_id", Cbor::t("op-1")),
    ]);
    let message = |r: Result<TokenFacts, UcError>| r.unwrap_err().message;
    assert_eq!(
        message(verify_capability(&bare, token(true), &reg, Intent::Subscribe)),
        "message missing capability token"
    );
    assert!(verify_capability(&with, token(true), &reg, Intent::Subscribe).is_ok());
    assert!(message(verify_capability(
        &with,
        token(false),
        &reg,
        Intent::Subscribe
    ))
    .starts_with("capability token does not grant"));
    assert_eq!(
        verify_admin_capability(&with, token(true), &reg)
            .unwrap_err()
            .message,
        "admin capability must belong to an active operator"
    );
    reg.register(2, "op-1", "operator");
    assert!(verify_admin_capability(&with, token(true), &reg).is_ok());
    reg.revoke_token(3, "tok-1");
    assert_eq!(
        message(verify_capability(&with, token(true), &reg, Intent::Admin)),
        "capability token is revoked"
    );
    let other = Cbor::map(vec![
        ("capability", Cbor::Null),
        ("agent_id", Cbor::t("someone")),
    ]);
    assert!(message(verify_capability(
        &other,
        token(true),
        &reg,
        Intent::Admin
    ))
    .contains("does not match"));
}

#[test]
fn messages_are_routed_and_answered() {
    assert!(matches!(
        route(&Cbor::map(vec![("type", Cbor::t("hello"))])),
        Route::Hello
    ));
    assert!(matches!(route(&Cbor::Null), Route::Unknown { kind: None }));
    let ack = hello_ack("n1");
    assert_eq!(
        ack.get("capability_bits")
            .unwrap()
            .opt_bool("admin_capability_required"),
        Some(true)
    );
    let ok = admin_reply(Ok(Cbor::U64(7)));
    assert_eq!(admin_result(&ok).unwrap().as_u64(), Some(7));
    let bad = admin_reply(Err(UcError::not_found("x")));
    assert_eq!(admin_result(&bad).unwrap_err().message, "x");
}

fn ask(verb: &str, args: Cbor) -> Result<AdminCall, UcError> {
    admin_dispatch(&Cbor::map(vec![("verb", Cbor::t(verb)), ("args", args)]))
}

#[test]
fn verbs_are_read() {
    assert!(matches!(
        ask("status", Cbor::Null).unwrap(),
        AdminCall::Plain {
            verb: AdminVerb::Status
        }
    ));
    assert_eq!(
        ask("dance", Cbor::Null).unwrap_err().message,
        "unknown admin verb `dance`"
    );
    assert!(ask("quarantine reject", Cbor::Null).is_err());
    match ask("cross-check tail", Cbor::Null).unwrap() {
        AdminCall::CrossCheckTail { n } => assert_eq!(n, 20),
        _ => panic!("expected a tail"),
    }
    match ask(
        "congruence accept",
        Cbor::map(vec![("entity", Cbor::t("X"))]),
    )
    .unwrap()
    {
        AdminCall::CongruenceAccept { entities } => assert_eq!(entities, vec!["X"]),
        _ => panic!("expected an acceptance"),
    }
    match ask(
        "contract plan-migration",
        Cbor::map(vec![
            ("schema_id", Cbor::t("a")),
            ("target_schema_id", Cbor::t("b")),
            ("migration_plan_handle", Cbor::t("c")),
            ("decision_handle", Cbor::t("d")),
            ("deprecated_after", Cbor::t("12")),
        ]),
    )
    .unwrap()
    {
        AdminCall::ContractPlan {
            deprecated_after, ..
        } => assert_eq!(deprecated_after, 12),
        _ => panic!("expected a plan"),
    }
    let mut m = Metrics::new();
    count_verb(&mut m, "quarantine list");
    assert_eq!(m.counter("admin.quarantine_list"), 1);
}

fn words(s: &str) -> Vec<String> {
    s.split(' ').map(|w| w.to_string()).collect()
}

#[test]
fn command_lines_are_read() {
    let r = parse_run(&words("--config a.toml --set node.id=x=y --dry-run")).unwrap();
    assert_eq!(r.config.as_deref(), Some("a.toml"));
    assert_eq!(
        r.overrides,
        vec![("node.id".to_string(), "x=y".to_string())]
    );
    assert!(r.dry_run);
    assert_eq!(
        parse_run(&words("--set x")).unwrap_err(),
        "bad --set `x` (want key=value)"
    );
    assert_eq!(
        parse_run(&words("--config")).unwrap_err(),
        "--config requires a path"
    );
    assert_eq!(parse_run(&words("--x")).unwrap_err(), "unknown flag `--x`");
    assert_eq!(parse_command(&words("kms rotate --emergency")).unwrap().verb, "kms rotate");
    assert_eq!(
        parse_command(&words("congruence accept A B"))
            .unwrap()
            .args
            .get("entities")
            .unwrap()
            .as_array()
            .unwrap()
            .len(),
        2
    );
    assert_eq!(
        parse_command(&words("resolve h --x")).unwrap_err(),
        "unknown resolve flag `--x`"
    );
    assert_eq!(
        parse_command(&words("cross-check tail x")).unwrap_err(),
        "n must be a number"
    );
    assert_eq!(
        parse_command(&words("do it")).unwrap_err(),
        "unknown or malformed command `do it`"
    );
}

#[test]
fn answers_are_shown_in_lines() {
    let v = Cbor::map(vec![
        ("a", Cbor::U64(1)),
        (
            "b",
            Cbor::arr(vec![Cbor::t("x"), Cbor::map(vec![("c", Cbor::Bool(true))])]),
        ),
        ("d", Cbor::bytes(vec![1, 2])),
        ("e", Cbor::Null),
    ]);
    assert_eq!(
        render(&v, 0),
        "a: 1\nb:\n  - x\n  -\n    c: true\nd: <2 bytes>\ne: -"
    );
    let keys = vec![
        Cbor::U64(7),
        Cbor::I64(-2),
        Cbor::Bool(false),
        Cbor::Null,
        Cbor::bytes(vec![1, 2]),
        Cbor::arr(vec![Cbor::t("a\"b"), Cbor::U64(1)]),
        Cbor::Pairs(vec![(Cbor::t("k"), Cbor::Null)]),
    ];
    let odd = Cbor::Pairs(keys.into_iter().map(|k| (k, Cbor::U64(1))).collect());
    assert_eq!(
        render(&odd, 0),
        "U64(7): 1\nI64(-2): 1\nBool(false): 1\nNull: 1\nBytes([1, 2]): 1\n\
         Array([Text(\"a\\\"b\"), U64(1)]): 1\nMap([(Text(\"k\"), Null)]): 1"
    );
}

#[test]
fn provisioning_puts_governance_first() {
    let plan = provision_plan(&vec![
        ("Extra.md".to_string(), "4.2, more".to_string()),
        ("Skip.md".to_string(), "...".to_string()),
    ]);
    let first_agent = plan
        .iter()
        .position(|p| matches!(p, Provision::Agent { .. }))
        .unwrap();
    assert!(plan[first_agent..]
        .iter()
        .all(|p| matches!(p, Provision::Agent { .. })));
    assert_eq!(plan.len() - first_agent, 4);
    let anchors = plan
        .iter()
        .filter(|p| matches!(p, Provision::Anchor { .. }))
        .count();
    assert_eq!(anchors, 53 + 1);
    assert_eq!(
        plan.iter()
            .filter(|p| matches!(p, Provision::Decision { .. }))
            .count(),
        2
    );
    assert_eq!(cited_section("B.1. and so on"), "B.1");
}

#[test]
fn logs_are_replayed_after_the_snapshot() {
    let body = |handle: &str, o: &str| {
        Cbor::map(vec![
            ("handle", Cbor::t(handle)),
            (
                "payload",
                Cbor::map(vec![
                    ("subject", Cbor::t("s")),
                    ("predicate", Cbor::t("p")),
                    ("object", Cbor::t(o)),
                ]),
            ),
        ])
        .encode()
    };
    let frame = |at: u64, op: WalOp, payload: Vec<u8>| WalFrame {
        logical_at: at,
        cell_id: 2,
        op,
        schema_ver: 1,
        flags: 0,
        payload,
    };
    let supersede = Cbor::map(vec![("old", Cbor::t("fact/A")), ("new", Cbor::t("fact/B"))]).encode();
    let frames = vec![
        frame(1, WalOp::Write, body("fact/Z", "before")),
        frame(5, WalOp::Write, body("fact/A", "one")),
        frame(6, WalOp::Write, body("fact/B", "two")),
        frame(7, WalOp::Supersede, supersede),
    ];
    let mut facts = FactCell::new(CellId(2));
    let mut clock = LogicalClock::new(1);
    let todo = replay_log(&mut facts, &mut clock, &frames, 4).unwrap();
    assert_eq!(todo.len(), 3);
    assert!(matches!(&todo[0], Replay::Indexed { text, .. } if text == "s p one"));
    assert_eq!(clock.now(), 7);
    assert_eq!(facts.len(), 2);
    let again = replay_log(&mut facts, &mut clock, &frames, 4).unwrap();
    assert!(matches!(again[0], Replay::Nothing));
    assert_eq!(facts.active_for_sp("s", "p").len(), 1);
    assert!(check_owner("a", "b").is_err());
    assert!(check_audit(3, false).is_err());
}

fn reply(ok: bool, result: Cbor, code: Option<ErrCode>) -> Reply {
    Reply {
        ok,
        result,
        err_code: code,
        quarantine_id: Some("quarantine/1".to_string()),
    }
}

fn good_evidence() -> Vec<(Evidence, String)> {
    let done = || reply(true, Cbor::Null, None);
    let all = vec![
        Evidence::Written {
            reply: reply(true, Cbor::map(vec![("handle", Cbor::t("fact/1"))]), None),
        },
        Evidence::Recalled {
            reply: reply(true, Cbor::map(vec![("items", Cbor::U64(1))]), None),
        },
        Evidence::Superseded {
            reply: done(),
            superseded: true,
        },
        Evidence::Quarantined {
            reply: reply(false, Cbor::Null, Some(ErrCode::AnchorMissing)),
        },
        Evidence::Refused {
            reply: reply(false, Cbor::Null, Some(ErrCode::BudgetExceeded)),
        },
        Evidence::Cached {
            first: done(),
            second: done(),
            hits_before: 0,
            hits_after: 1,
        },
        Evidence::SkeletonActive { active: true },
        Evidence::Gated {
            reply: reply(false, Cbor::Null, Some(ErrCode::HallucinationDetected)),
        },
        Evidence::Counted { queued: 0 },
        Evidence::Denied {
            reply: reply(false, Cbor::Null, Some(ErrCode::PermissionDenied)),
            denied: 1,
        },
        Evidence::Hydrated {
            reply: reply(true, Cbor::map(vec![("body", Cbor::t("why"))]), None),
        },
    ];
    all.into_iter().map(|e| (e, "detail".to_string())).collect()
}

#[test]
fn self_test_passes_only_as_a_whole() {
    assert_eq!(self_test(&good_evidence()).unwrap(), 11);
    let mut bad = good_evidence();
    bad[6].0 = Evidence::SkeletonActive { active: false };
    assert_eq!(
        self_test(&bad).unwrap_err().message,
        "self-test B5 `B5.7 librarian active` failed: detail"
    );
    let mut t = SelfTest::new();
    t.check(&good_evidence()[0].0, "").unwrap();
    assert_eq!(t.passed(), 1);
    let p = request(Step::Supersede, "fact/1", "");
    assert_eq!(p.payload.opt_str("supersedes").as_deref(), Some("fact/1"));
    assert_eq!(p.seed, 13);
    assert!(check_backends(true, "gguf.a", "deterministic.v1").is_err());
    assert!(check_backends(false, "deterministic.v1", "deterministic.v1").is_ok());
}

#[test]
fn later_settings_override_earlier_ones() {
    let given = |k: &str, v: &str| Given {
        key: k.into(),
        value: v.into(),
        resolved: Ok(vec![Ip::V4(vec![127, 0, 0, 1])]),
    };
    let doc = minitoml::parse("[node]\nid = \"file\"\nshards = 5\n").unwrap();
    let none: Result<Vec<Ip>, String> = Ok(Vec::new());
    let rates = vec![(Rate::Probe, (0.5f64).to_bits())];
    let cfg = Config::load(
        8,
        Some(&doc),
        &none,
        &rates,
        &vec![given("UC_NODE_ID", "env"), given("UC_SHARDS", "7")],
        &vec![given("node.id", "cli")],
    )
    .unwrap();
    assert_eq!((cfg.node_id.as_str(), cfg.shards), ("cli", 7));
    assert_eq!(cfg.curator.probe_rate, (0.5f64).to_bits());
    let cfg = Config::load(8, None, &none, &vec![], &vec![], &vec![]).unwrap();
    assert_eq!((cfg.node_id.as_str(), cfg.shards), ("ultracortex-0", 6));
    assert_eq!(cfg.uds_path, Some(format!("{}/ultracortex.sock", cfg.data_dir)));
    for (dir, socket) in [("", "ultracortex.sock"), ("d/", "d/ultracortex.sock")] {
        let there = vec![given("node.data_dir", dir)];
        let cfg = Config::load(8, None, &none, &vec![], &vec![], &there).unwrap();
        assert_eq!(cfg.uds_path.as_deref(), Some(socket));
    }
    let own = vec![given("listen.uds", "s")];
    let cfg = Config::load(8, None, &none, &vec![], &vec![], &own).unwrap();
    assert_eq!(cfg.uds_path.as_deref(), Some("s"));
    assert!(Config::load(8, None, &none, &vec![], &vec![given("UC_SHARDS", "x")], &vec![]).is_err());
    assert!(Config::load(8, None, &none, &vec![], &vec![], &vec![given("no.such", "x")]).is_err());
}
