use ultracortex::cbor::Cbor;
use ultracortex::cells::blob::BlobCell;
use ultracortex::cells::cache::CacheCell;
use ultracortex::cells::fact::{Fact, FactCell};
use ultracortex::cells::graph::GraphCell;
use ultracortex::cells::index::{token_overlap, tokenize, Bm25Cell};
use ultracortex::cells::proposal::{ProposalCell, ProposalStatus};
use ultracortex::cells::registry::AgentRegistryCell;
use ultracortex::cells::scratchpad::ScratchpadCell;
use ultracortex::cells::subscription::SubscriptionCell;
use ultracortex::cells::timeline::TimelineCell;
use ultracortex::cells::{CatalogCell, CatalogEntry, CellBehavior, CellType};
use ultracortex::deepseek::{
    fim_wrap, frame_edit_prompt, r1_strip, tools_manifest, DeepSeekClientKind,
};
use ultracortex::vocab::CellId;

#[test]
fn proposal_quorum_two_others() {
    let mut pc = ProposalCell::new(CellId(12));
    let pid = pc.open(1, "agent-a", Cbor::t("switch embedder dim"));
    assert_eq!(pc.vote(&pid, "agent-a", true).unwrap(), ProposalStatus::Open);
    assert_eq!(pc.vote(&pid, "agent-b", true).unwrap(), ProposalStatus::Open);
    assert_eq!(
        pc.vote(&pid, "agent-c", true).unwrap(),
        ProposalStatus::Accepted
    );
    assert!(pc.vote(&pid, "agent-d", false).is_err());
}

#[test]
fn registry_revocation_and_escalation() {
    let mut ar = AgentRegistryCell::new(CellId(11));
    ar.register(1, "op-1", "operator");
    ar.register(1, "agent-1", "agent");
    assert_eq!(ar.escalation_subscribers(), vec!["op-1".to_string()]);
    ar.revoke_token(5, "tok-123");
    assert!(ar.is_revoked("tok-123"));
    assert!(!ar.is_revoked("tok-456"));
    let snap = ar.snapshot_state();
    let mut ar2 = AgentRegistryCell::new(CellId(11));
    ar2.restore_state(&snap).unwrap();
    assert!(ar2.is_revoked("tok-123"));
    assert_eq!(ar2.escalation_subscribers(), vec!["op-1".to_string()]);
}

#[test]
fn subscription_pattern_match() {
    let mut sc = SubscriptionCell::new(CellId(13));
    sc.subscribe(1, "agent-a", "node.*");
    sc.subscribe(1, "agent-b", "curator.**");
    sc.subscribe(1, "agent-c", "node.written");
    assert_eq!(
        sc.matching("node.written"),
        vec!["agent-a".to_string(), "agent-c".to_string()]
    );
    assert_eq!(
        sc.matching("curator.warden.flag"),
        vec!["agent-b".to_string()]
    );
}

#[test]
fn graph_neighbors_sorted() {
    let mut g = GraphCell::new(CellId(8));
    g.add_edge("fact/A", "supports", "decision/2");
    g.add_edge("fact/A", "supports", "decision/1");
    g.add_edge("fact/A", "contradicts", "fact/B");
    assert_eq!(
        g.neighbors("fact/A", Some("supports")),
        vec!["decision/1".to_string(), "decision/2".to_string()]
    );
    assert_eq!(g.neighbors("fact/A", None).len(), 3);
}

fn fact(handle: &str, object: &str, at: u64) -> Fact {
    Fact {
        handle: handle.to_string(),
        subject: "svc.auth".to_string(),
        predicate: "owner".to_string(),
        object: object.to_string(),
        confidence: None,
        written_at: at,
        superseded_by: None,
        supersedes: None,
        anchor: "Architecture.md\u{00a7}4".to_string(),
    }
}

#[test]
fn fact_supersession_and_sp_index() {
    let mut fc = FactCell::new(CellId(2));
    fc.insert(fact("fact/A", "team-x", 1));
    fc.insert(fact("fact/B", "team-y", 2));
    assert_eq!(fc.active_for_sp("svc.auth", "owner").len(), 2);
    fc.supersede("fact/A", "fact/B").unwrap();
    let active = fc.active_for_sp("svc.auth", "owner");
    assert_eq!(active.len(), 1);
    assert_eq!(active[0].handle, "fact/B");
    assert_eq!(active[0].supersedes.as_deref(), Some("fact/A"));
    assert!(fc.supersede("fact/A", "fact/B").is_err());
    let snap = fc.snapshot_state();
    let mut fc2 = FactCell::new(CellId(2));
    fc2.restore_state(&snap).unwrap();
    assert_eq!(
        fc2.get("fact/A").unwrap().superseded_by.as_deref(),
        Some("fact/B")
    );
    assert_eq!(snap.encode(), fc2.snapshot_state().encode());
}

#[test]
fn scratchpad_ttl_expiry() {
    let mut sp = ScratchpadCell::new(CellId(5));
    sp.put(10, "k1".to_string(), Cbor::t("v1"), Some(5));
    sp.put(10, "k2".to_string(), Cbor::t("v2"), Some(100));
    assert!(sp.get(14, "k1").is_some());
    assert!(sp.get(15, "k1").is_none());
    assert!(sp.get(15, "k2").is_some());
    sp.put(16, "k2".to_string(), Cbor::t("v2b"), Some(5));
    assert!(sp.get(20, "k2").is_some());
    assert!(sp.get(21, "k2").is_none());
}

#[test]
fn timeline_ring_and_order() {
    let mut tl = TimelineCell::new(CellId(3));
    for i in 0..5 {
        tl.append(i, "node.written", Cbor::U64(i));
    }
    let tail = tl.tail("node.written", 3);
    assert_eq!(tail.len(), 3);
    assert_eq!(tail[0].0, 4);
}

#[test]
fn cache_lru_eviction_deterministic() {
    let mut cc = CacheCell::new(CellId(10));
    cc.capacity = 2;
    for (at, key) in [(1, "a"), (2, "b"), (3, "c")] {
        cc.on_update(
            at,
            &Cbor::map(vec![("key", Cbor::t(key)), ("value", Cbor::U64(at))]),
        )
        .unwrap();
    }
    assert!(cc
        .on_query(4, &Cbor::map(vec![("key", Cbor::t("a"))]))
        .is_err());
    assert!(cc
        .on_query(4, &Cbor::map(vec![("key", Cbor::t("b"))]))
        .is_ok());
}

#[test]
fn catalog_register_lookup_snapshot() {
    let mut cat = CatalogCell::new(CellId(1));
    cat.register(CatalogEntry {
        cell_id: 2,
        cell_type: "Fact".to_string(),
        namespace: "default".to_string(),
        schema_id: "fact.v1".to_string(),
        registered_at: 1,
    });
    assert_eq!(cat.lookup(2).unwrap().cell_type, "Fact");
    assert_eq!(cat.cells_in_namespace("default"), vec![2]);
    let snap = cat.snapshot_state();
    let mut cat2 = CatalogCell::new(CellId(1));
    cat2.restore_state(&snap).unwrap();
    assert_eq!(cat2.lookup(2).unwrap().schema_id, "fact.v1");
    assert_eq!(snap.encode(), cat2.snapshot_state().encode());
}

#[test]
fn cell_types_are_found_by_name() {
    assert_eq!(CellType::parse("BM25"), Some(CellType::Bm25));
    assert_eq!(CellType::parse(CellType::Warden.as_str()), Some(CellType::Warden));
    assert_eq!(CellType::parse("bm25"), None);
}

#[test]
fn blobs_are_registered_by_digest() {
    let mut bc = BlobCell::new(CellId(10));
    let h = bc.register([7u8; 32], 12, "text/plain".to_string());
    assert!(bc.has(&h));
    assert_eq!(bc.lookup(&h).unwrap().size, 12);
    let snap = bc.snapshot_state();
    let mut bc2 = BlobCell::new(CellId(10));
    bc2.restore_state(&snap).unwrap();
    assert_eq!(bc2.iter_hashes(), vec![[7u8; 32]]);
}

#[test]
fn tokens_are_lower_case_words() {
    assert_eq!(
        tokenize("The Router, pre-validates\u{2014}EVERY write!"),
        vec!["the", "router", "pre", "validates", "every", "write"]
    );
    let a = tokenize("warden audits drift");
    let b = tokenize("the Warden found drift");
    assert_eq!(token_overlap(&a, &b), (2, 5));
}

#[test]
fn documents_are_counted_by_token() {
    let mut b = Bm25Cell::new(CellId(7));
    b.add("d1".to_string(), "Quarantine absorbs rejected writes");
    b.add("d2".to_string(), "quarantine quarantine");
    assert_eq!(b.len(), 2);
    assert_eq!(b.total_len(), 6);
    let q = tokenize("QUARANTINE");
    let counts = b.counts(1, &q);
    assert_eq!(counts.len(), 1);
}

#[test]
fn fim_frame_shape() {
    assert_eq!(
        fim_wrap("fn a() {", "}"),
        "<|fim_begin|>fn a() {<|fim_hole|>}<|fim_end|>"
    );
}

#[test]
fn variant_fim_framing() {
    assert_eq!(
        frame_edit_prompt(DeepSeekClientKind::Coder, "fn a() {", "}"),
        "<|fim_begin|>fn a() {<|fim_hole|>}<|fim_end|>"
    );
    assert_eq!(
        frame_edit_prompt(DeepSeekClientKind::V3, "fn a() {", "}"),
        "fn a() {}"
    );
    assert_eq!(
        frame_edit_prompt(DeepSeekClientKind::R1, "fn a() {", "}"),
        "fn a() {}"
    );
}

#[test]
fn r1_strip_variants() {
    let (a, r) = r1_strip("<think>chain of thought</think>The answer is 4.");
    assert_eq!(a, "The answer is 4.");
    assert_eq!(r, "chain of thought");
    let (a, r) = r1_strip("x<think>one</think>y<think>two</think>z");
    assert_eq!(a, "xyz");
    assert_eq!(r, "onetwo");
    let (a, r) = r1_strip("visible<think>truncated reasoning");
    assert_eq!(a, "visible");
    assert_eq!(r, "truncated reasoning");
    let (a, r) = r1_strip("plain");
    assert_eq!(a, "plain");
    assert!(r.is_empty());
}

#[test]
fn manifest_verbs_lowercase_flat() {
    let m = tools_manifest();
    let arr = m.as_array().unwrap();
    assert_eq!(arr.len(), 6);
    for v in arr {
        let name = v.req_str("name").unwrap();
        assert_eq!(name, name.to_lowercase());
        let args = v.get("args").unwrap().as_map().unwrap();
        for (_, val) in args {
            assert!(val.as_str().is_some());
        }
    }
}

#[test]
fn a_rewritten_fact_stands_once_where_it_belongs() {
    let mut fc = FactCell::new(CellId(2));
    fc.insert(fact("fact/A", "team-x", 1));
    fc.insert(fact("fact/A", "team-y", 2));
    let active = fc.active_for_sp("svc.auth", "owner");
    assert_eq!(active.len(), 1);
    assert_eq!(active[0].object, "team-y");
    let mut moved = fact("fact/A", "team-z", 3);
    moved.subject = "svc.mail".to_string();
    fc.insert(moved);
    assert!(fc.active_for_sp("svc.auth", "owner").is_empty());
    assert!(fc.active_for_subject("svc.auth").is_empty());
    assert_eq!(fc.active_for_sp("svc.mail", "owner").len(), 1);
    assert_eq!(fc.active_for_subject("svc.mail").len(), 1);
    let mut back = FactCell::new(CellId(2));
    back.restore_state(&fc.snapshot_state()).unwrap();
    assert!(back.active_for_sp("svc.auth", "owner").is_empty());
    assert_eq!(back.active_for_subject("svc.mail")[0].object, "team-z");
}
