use ultracortex::cbor::Cbor;
use ultracortex::cells::hnsw::Hnsw;
use ultracortex::cells::index::{token_overlap, tokenize, Bm25Cell};
use ultracortex::cells::ranking::{best, rank};
use ultracortex::cells::vector::{
    indexed, indexed_at, rank_hits, read_item, read_query, read_rerank, HashEmbedder, VectorCell,
};
use ultracortex::digest::sha256;
use ultracortex::fixed::{order_key, order_value};
use ultracortex::persist::viewcache::{view_path, CacheTier, PrefixCacheStore, ViewKey};
use ultracortex::vocab::CellId;

fn embed(e: &HashEmbedder, text: &str) -> Vec<f32> {
    let mut v: Vec<f32> = e.weights(text).iter().map(|w| *w as f32 * 0.5).collect();
    let norm: f32 = v.iter().map(|x| x * x).sum::<f32>().sqrt();
    if norm > 0.0 {
        for x in v.iter_mut() {
            *x /= norm;
        }
    }
    v
}

fn cosine(a: &[f32], b: &[f32]) -> f32 {
    a.iter().zip(b.iter()).map(|(x, y)| x * y).sum()
}

fn key(x: f32) -> u64 {
    order_key((x as f64).to_bits())
}

fn near(vectors: &[Vec<f32>]) -> impl Fn(u32, u32) -> u64 + '_ {
    move |a, b| key(cosine(&vectors[a as usize], &vectors[b as usize]))
}

#[test]
fn embedder_deterministic_and_normalized() {
    let e = HashEmbedder::new(768);
    let a = embed(&e, "the router pre-validates every write");
    let b = embed(&e, "the router pre-validates every write");
    assert_eq!(a, b);
    let norm: f32 = a.iter().map(|x| x * x).sum::<f32>().sqrt();
    assert!((norm - 1.0).abs() < 1e-4);
    assert!(cosine(&a, &b) > 0.999);
    assert_eq!(e.dim(), 768);
}

#[test]
fn hnsw_finds_nearest() {
    let e = HashEmbedder::new(256);
    let mut h = Hnsw::new(42);
    let corpus = [
        "quarantine absorbs failed writes",
        "the librarian summarizes memory into skeletons",
        "the warden audits librarian output for drift",
        "wal frames carry crc32c checksums",
        "capability tokens gate facet hydration",
        "hnsw builds a navigable small world graph",
        "bm25 ranks documents by term frequency",
        "snapshots use copy on write semantics",
    ];
    let mut vectors: Vec<Vec<f32>> = Vec::new();
    for text in &corpus {
        vectors.push(embed(&e, text));
        h.insert(&near(&vectors));
    }
    vectors.push(embed(&e, "warden audits the librarian"));
    let hits = h.search(&near(&vectors), 3);
    assert!(!hits.is_empty());
    assert_eq!(hits[0].1, 2); // the warden sentence
    // The same seed and insertions give the same results.
    let mut h2 = Hnsw::new(42);
    for i in 0..corpus.len() {
        h2.insert(&near(&vectors[..i + 1]));
    }
    let hits2 = h2.search(&near(&vectors), 3);
    assert_eq!(
        hits.iter().map(|(_, n)| *n).collect::<Vec<_>>(),
        hits2.iter().map(|(_, n)| *n).collect::<Vec<_>>()
    );
}

#[test]
fn hnsw_finds_the_nearest_of_many_numbers() {
    // Points on a line; nearness falls with distance.
    let place = |n: u32| -> u64 { (n as u64 * 7919) % 1009 };
    let mut h = Hnsw::new(7);
    assert!(h.is_empty());
    assert!(h.search(&|_, _| 0, 5).is_empty());
    let sim = |a: u32, b: u32| -> u64 { 100_000 - place(a).abs_diff(place(b)) };
    for i in 0..400u32 {
        assert_eq!(h.insert(&sim), i);
    }
    assert_eq!(h.len(), 400);
    let hits = h.search(&sim, 10);
    assert_eq!(hits.len(), 10);
    for w in hits.windows(2) {
        assert!(w[0].0 > w[1].0 || (w[0].0 == w[1].0 && w[0].1 < w[1].1));
    }
    for (s, n) in &hits {
        assert!(*n < 400);
        assert_eq!(*s, sim(400, *n));
    }
    let nearest = (0..400u32).map(|n| sim(400, n)).max().unwrap();
    assert_eq!(hits[0].0, nearest);
    assert!(h.search(&sim, 0).is_empty());
    assert_eq!(h.search(&sim, 60).len(), 60);
}

fn cell_vectors(cell: &VectorCell, texts: &[&str]) -> Vec<Vec<f32>> {
    texts.iter().map(|t| embed(&cell.embedder(), t)).collect()
}

#[test]
fn vector_cell_snapshot_rebuild_identical() {
    let texts = [
        "chacha20 stream cipher",
        "hnsw vector index layers",
        "canonical cbor sorted keys",
        "vector index",
    ];
    let mut vc = VectorCell::new(CellId(6), 256, 7);
    let vectors = cell_vectors(&vc, &texts);
    vc.add("fact/A".into(), texts[0], &near(&vectors));
    vc.add("fact/B".into(), texts[1], &near(&vectors));
    vc.add("fact/C".into(), texts[2], &near(&vectors));
    let snap = vc.snapshot_state();
    let mut vc2 = VectorCell::new(CellId(6), 256, 7);
    vc2.restore_state(&snap, &near(&vectors)).unwrap();
    assert_eq!(vc.query(&near(&vectors), 2), vc2.query(&near(&vectors), 2));
    assert_eq!(vc.query(&near(&vectors), 2)[0].1, "fact/B");
    assert_eq!(snap.encode(), vc2.snapshot_state().encode());
    assert_eq!(vc2.len(), 3);
    assert_eq!(vc2.schema_id().0, "vector.hnsw.256d.v1");
}

#[test]
fn vector_restore_stops_at_a_bad_item() {
    let bad = Cbor::map(vec![
        ("seed", Cbor::u(9)),
        (
            "items",
            Cbor::arr(vec![
                Cbor::map(vec![("handle", Cbor::t("a")), ("text", Cbor::t("x"))]),
                Cbor::map(vec![("handle", Cbor::t("b"))]),
            ]),
        ),
    ]);
    let mut vc = VectorCell::new(CellId(6), 256, 7);
    assert!(vc.restore_state(&bad, &|_, _| 1).is_err());
    assert_eq!(vc.len(), 1);
    assert_eq!(vc.embedder().dim(), 768);
}

fn bm25_scores(b: &Bm25Cell, query: &str) -> Vec<u64> {
    let q = tokenize(query);
    let n = b.len() as f32;
    let avg = b.total_len() as f32 / n;
    (0..b.len())
        .map(|i| {
            let dl = b.doc(i).1 as f32;
            let mut score = 0f32;
            for c in b.counts(i, &q) {
                let (f, df) = (c.in_doc as f32, c.docs as f32);
                let idf = ((n - df + 0.5) / (df + 0.5) + 1.0).ln();
                score += idf * (f * 2.2) / (f + 1.2 * (1.0 - 0.75 + 0.75 * dl / avg));
            }
            (score as f64).to_bits()
        })
        .collect()
}

#[test]
fn bm25_ranks_relevant_first() {
    let mut b = Bm25Cell::new(CellId(7));
    b.add("d1".into(), "the quarantine cell absorbs rejected writes");
    b.add("d2".into(), "vector search over embeddings");
    b.add("d3".into(), "quarantine retention and reinjection policy");
    let scores = bm25_scores(&b, "quarantine reinjection");
    let hits = b.best(&scores, 2);
    assert_eq!(hits[0].1, "d3");
    assert_eq!(hits[1].1, "d1");
    // A document without any term is no hit.
    assert_eq!(b.best(&scores, 8).len(), 2);
}

#[test]
fn bm25_comes_back_from_its_snapshot() {
    let mut b = Bm25Cell::new(CellId(7));
    b.add("d1".into(), "Quarantine, cell");
    b.add("d2".into(), "vector");
    let snap = b.snapshot_state();
    let mut c = Bm25Cell::new(CellId(7));
    c.add("old".into(), "gone");
    c.restore_state(&snap).unwrap();
    assert_eq!(c.len(), 2);
    assert_eq!(c.total_len(), 3);
    assert_eq!(c.snapshot_state().encode(), snap.encode());
    let bad = Cbor::map(vec![("items", Cbor::arr(vec![Cbor::u(1)]))]);
    assert!(c.restore_state(&bad).is_err());
    assert_eq!(c.len(), 0);
}

#[test]
fn reranker_prefers_lexical_and_semantic_match() {
    let e = HashEmbedder::new(256);
    let query = "warden drift audit";
    let qv = embed(&e, query);
    let candidates = [
        ("h1", "grocery list for the weekend"),
        ("h2", "the warden audit found semantic drift"),
        ("h3", "audit chain verification"),
    ];
    let scored: Vec<(u64, String)> = candidates
        .iter()
        .map(|(h, t)| {
            let c = cosine(&qv, &embed(&e, t));
            let (inter, union) = token_overlap(&tokenize(query), &tokenize(t));
            let lex = inter as f32 / (union.max(1)) as f32;
            (((0.6f32 * c + (1.0 - 0.6f32) * lex) as f64).to_bits(), h.to_string())
        })
        .collect();
    let ranked = rank_hits(scored);
    assert_eq!(ranked[0].1, "h2");
}

#[test]
fn hits_are_ranked_by_score_and_handle() {
    let hits = vec![
        ((0.5f64).to_bits(), "b".to_string()),
        ((0.5f64).to_bits(), "a".to_string()),
        ((-1.0f64).to_bits(), "c".to_string()),
        ((2.0f64).to_bits(), "d".to_string()),
        ((0.0f64).to_bits(), "f".to_string()),
        ((-0.0f64).to_bits(), "e".to_string()),
    ];
    let names: Vec<String> = rank_hits(hits).into_iter().map(|(_, h)| h).collect();
    assert_eq!(names, vec!["d", "a", "b", "e", "f", "c"]);
    assert_eq!(rank(&vec![(1, 4), (3, 9), (3, 2)]), vec![(3, 2), (3, 9), (1, 4)]);
    assert_eq!(best(&vec![(1, 4), (3, 9), (3, 2)], 1), vec![(3, 2)]);
}

#[test]
fn order_keys_follow_the_doubles() {
    let xs = [-1e300, -1.0, -1e-310, 0.0, 1e-310, 0.5, 7.0, f64::INFINITY];
    for i in 0..xs.len() {
        for j in 0..xs.len() {
            let (a, b) = (order_key(xs[i].to_bits()), order_key(xs[j].to_bits()));
            assert_eq!(a < b, xs[i] < xs[j]);
        }
    }
    assert_eq!(order_key((0.0f64).to_bits()), order_key((-0.0f64).to_bits()));
    for x in xs {
        assert_eq!(order_value(order_key(x.to_bits())), x.to_bits());
    }
}

#[test]
fn index_requests_are_read() {
    let q = Cbor::map(vec![("text", Cbor::t("x")), ("k", Cbor::u(3))]);
    assert_eq!(read_query(&q).unwrap(), ("x".to_string(), 3));
    let q = Cbor::map(vec![("text", Cbor::t("x"))]);
    assert_eq!(read_query(&q).unwrap(), ("x".to_string(), 8));
    assert!(read_query(&Cbor::map(vec![])).is_err());
    let item = Cbor::map(vec![("handle", Cbor::t("h")), ("text", Cbor::t("t"))]);
    assert_eq!(read_item(&item).unwrap(), ("h".to_string(), "t".to_string()));
    let r = Cbor::map(vec![
        ("query", Cbor::t("q")),
        ("candidates", Cbor::arr(vec![item])),
    ]);
    let (text, xs) = read_rerank(&r).unwrap();
    assert_eq!(text, "q");
    assert_eq!(xs, vec![("h".to_string(), "t".to_string())]);
    let bad = Cbor::map(vec![
        ("query", Cbor::t("q")),
        ("candidates", Cbor::arr(vec![Cbor::u(1)])),
    ]);
    assert!(read_rerank(&bad).is_err());
    assert_eq!(indexed("h").req_str("indexed").unwrap(), "h");
    assert_eq!(indexed_at("h", 4).req_u64("node").unwrap(), 4);
}

fn view_key() -> ViewKey {
    ViewKey {
        view_id: "fact_subject".into(),
        ns: "default".into(),
        version: 3,
        params_hash: sha256(b"subject=alice"),
    }
}

#[test]
fn cache_put_get_invalidate_persist() {
    let key = view_key();
    let written = view_path(&key, b"rendered-view".len());
    let saved;
    {
        let mut cache = PrefixCacheStore::new();
        let gone = cache.put(
            key.clone(),
            b"rendered-view".len(),
            vec!["fact/01A".into()],
            10,
        );
        assert!(gone.is_empty());
        assert_eq!(cache.get(&key, 11).unwrap(), written);
        assert_eq!(cache.stats().0, 1);
        saved = cache.save_index().encode();
    }
    // The index survives.
    {
        let index = Cbor::decode(&saved).unwrap();
        let mut cache = PrefixCacheStore::load_index(&index).unwrap();
        assert_eq!(cache.get(&key, 12).unwrap(), written);
        // Invalidation by dependent handle.
        assert_eq!(cache.invalidate_handle("fact/01A"), 1);
        assert!(cache.get(&key, 13).is_none());
        assert_eq!(cache.stats(), (0, 13));
        assert_eq!(cache.invalidate_handle("fact/01A"), 0);
        assert_eq!(cache.purge_all(), vec![written]);
        assert_eq!(cache.stats(), (0, 0));
    }
}

#[test]
fn cache_drops_the_longest_unused() {
    let mut cache = PrefixCacheStore::new();
    let key = |n: u64| ViewKey { version: n, ..view_key() };
    let big = 1usize << 30;
    for n in 0..4 {
        assert!(cache.put(key(n), big, vec![], 10 + n).is_empty());
    }
    assert_eq!(cache.get(&key(0), 50), Some(view_path(&key(0), big)));
    let gone = cache.put(key(9), big, vec![], 60);
    assert_eq!(gone, vec![view_path(&key(1), big)]);
    assert!(cache.get(&key(1), 61).is_none());
    assert_eq!(cache.stats(), (4, 4 << 30));
    // Replacing counts the new size alone.
    assert!(cache.put(key(9), 5, vec![], 62).is_empty());
    assert_eq!(cache.used().get(CacheTier::L3), 3 << 30);
    assert_eq!(cache.used().get(CacheTier::L1), 5);
}

#[test]
fn cache_tiers_go_by_size() {
    assert_eq!(CacheTier::for_size(65_536), CacheTier::L1);
    assert_eq!(CacheTier::for_size(65_537), CacheTier::L2);
    assert_eq!(CacheTier::for_size(1_048_576), CacheTier::L2);
    assert_eq!(CacheTier::for_size(1_048_577), CacheTier::L3);
    assert_eq!(CacheTier::L1.capacity(), 256 << 20);
    assert_eq!(CacheTier::L2.capacity(), 1 << 30);
    assert_eq!(CacheTier::L3.capacity(), 4 << 30);
    assert!(view_path(&view_key(), 10).starts_with("tier-l1/"));
    let bad = Cbor::arr(vec![Cbor::map(vec![("tier", Cbor::t("tier-l9"))])]);
    assert_eq!(PrefixCacheStore::load_index(&bad).unwrap().stats(), (0, 0));
    let full = |n: u64| {
        Cbor::map(vec![
            ("tier", Cbor::t("tier-l1")),
            ("params_hash", Cbor::bytes(vec![0; 32])),
            ("version", Cbor::u(n)),
            ("size", Cbor::u(u64::MAX)),
        ])
    };
    assert!(PrefixCacheStore::load_index(&Cbor::arr(vec![full(1), full(2)])).is_none());
}
