use ultracortex::cbor::{Cbor, Number};
use ultracortex::codec::head;
use ultracortex::glob::{glob_match, FacetScope};
use ultracortex::hex::{hex, unhex};
use ultracortex::minitoml::{parse, FloatText, TomlValue};
use ultracortex::ulid::{DetRng, Ulid};
use ultracortex::vocab::{est_tokens, fnv1a64, ErrCode, LogicalClock, Severity, Tier, UcError};

fn enc_hex(v: &Cbor) -> String {
    hex(&v.encode())
}

#[test]
fn rfc8949_int_vectors() {
    assert_eq!(enc_hex(&Cbor::u(0)), "00");
    assert_eq!(enc_hex(&Cbor::u(23)), "17");
    assert_eq!(enc_hex(&Cbor::u(24)), "1818");
    assert_eq!(enc_hex(&Cbor::u(100)), "1864");
    assert_eq!(enc_hex(&Cbor::u(1000)), "1903e8");
    assert_eq!(enc_hex(&Cbor::u(1_000_000)), "1a000f4240");
    assert_eq!(enc_hex(&Cbor::i(-1)), "20");
    assert_eq!(enc_hex(&Cbor::i(-10)), "29");
    assert_eq!(enc_hex(&Cbor::i(-100)), "3863");
}

#[test]
fn rfc8949_misc_vectors() {
    assert_eq!(enc_hex(&Cbor::t("a")), "6161");
    assert_eq!(enc_hex(&Cbor::t("IETF")), "6449455446");
    assert_eq!(enc_hex(&Cbor::arr(vec![])), "80");
    assert_eq!(
        enc_hex(&Cbor::arr(vec![Cbor::u(1), Cbor::u(2), Cbor::u(3)])),
        "83010203"
    );
    assert_eq!(enc_hex(&Cbor::Pairs(vec![])), "a0");
    assert_eq!(enc_hex(&Cbor::Bool(true)), "f5");
    assert_eq!(enc_hex(&Cbor::Bool(false)), "f4");
    assert_eq!(enc_hex(&Cbor::Null), "f6");
}

#[test]
fn canonical_map_key_order() {
    let a = Cbor::map(vec![("b", Cbor::u(2)), ("a", Cbor::u(1))]);
    let b = Cbor::map(vec![("a", Cbor::u(1)), ("b", Cbor::u(2))]);
    assert_eq!(a.encode(), b.encode());
    let c = Cbor::map(vec![("aa", Cbor::u(2)), ("a", Cbor::u(1))]);
    let bytes = c.encode();
    let dec = Cbor::decode(&bytes).unwrap();
    let m = dec.as_map().unwrap();
    assert_eq!(m[0].0.as_str(), Some("a"));
    assert_eq!(m[1].0.as_str(), Some("aa"));
}

#[test]
fn roundtrip_nested() {
    let v = Cbor::map(vec![
        (
            "handles",
            Cbor::text_array(&["fact/AAA".to_string(), "blob/bbb".to_string()]),
        ),
        ("n", Cbor::u(42)),
        ("neg", Cbor::i(-7)),
        ("f", Cbor::f(1.5f64.to_bits())),
        ("ok", Cbor::Bool(true)),
        ("none", Cbor::Null),
        ("raw", Cbor::bytes(vec![1, 2, 3])),
        (
            "inner",
            Cbor::map(vec![
                ("k", Cbor::t("v")),
                ("arr", Cbor::arr(vec![Cbor::u(1)])),
            ]),
        ),
    ]);
    let bytes = v.encode();
    let back = Cbor::decode(&bytes).unwrap();
    assert_eq!(back.encode(), bytes);
    assert_eq!(back.req_u64("n").unwrap(), 42);
    assert_eq!(back.get("neg").unwrap().as_i64(), Some(-7));
    match back.get("f").unwrap().as_f64() {
        Some(Number::Bits(bits)) => assert_eq!(f64::from_bits(bits), 1.5),
        _ => panic!("expected a float"),
    }
}

#[test]
fn rejects_trailing_and_truncated() {
    let mut bytes = Cbor::u(1).encode();
    bytes.push(0x00);
    assert!(Cbor::decode(&bytes).is_err());
    assert!(Cbor::decode(&[0x1a, 0x00]).is_err());
}

#[test]
fn collect_texts_walks_everything() {
    let v = Cbor::map(vec![
        ("a", Cbor::t("fact/X")),
        ("b", Cbor::arr(vec![Cbor::t("blob/Y"), Cbor::u(1)])),
    ]);
    let mut out = Vec::new();
    v.collect_texts(&mut out);
    assert!(out.contains(&"fact/X"));
    assert!(out.contains(&"blob/Y"));
}

#[test]
fn decode_errors_are_told_apart() {
    assert_eq!(Cbor::decode(&[]).unwrap_err().message, "cbor: truncated");
    assert_eq!(
        Cbor::decode(&[0xf6, 0xf6]).unwrap_err().message,
        "cbor: trailing bytes"
    );
    assert!(Cbor::decode(&[0xff]).is_err());
    assert!(Cbor::decode(&[0x61, 0xff]).is_err());
}

#[test]
fn short_floats_are_widened() {
    for (bytes, want) in [
        (vec![0xf9, 0x3e, 0x00], 1.5f64),
        (vec![0xf9, 0x00, 0x01], 5.960464477539063e-8),
        (vec![0xfa, 0x47, 0xc3, 0x50, 0x00], 100000.0),
        (vec![0xfb, 0x3f, 0xf1, 0x99, 0x99, 0x99, 0x99, 0x99, 0x9a], 1.1),
    ] {
        match Cbor::decode(&bytes).unwrap() {
            Cbor::F64(bits) => assert_eq!(f64::from_bits(bits), want),
            _ => panic!("expected a float"),
        }
    }
}

#[test]
fn basic_wildcards() {
    assert!(glob_match("fact/*", "fact/ABC"));
    assert!(!glob_match("fact/*", "fact/a/b"));
    assert!(glob_match("fact/**", "fact/a/b"));
    assert!(glob_match("**", "anything/at/all"));
    assert!(glob_match("a?c", "abc"));
    assert!(!glob_match("a?c", "a/c"));
    assert!(glob_match("src/router/**", "src/router/mod.rs"));
    assert!(glob_match("librarian/output/*", "librarian/output/X"));
    assert!(!glob_match(
        "librarian/output/*",
        "librarian/output/X/rationale"
    ));
    assert!(glob_match(
        "librarian/output/*/rationale*",
        "librarian/output/X/rationale"
    ));
}

#[test]
fn p19_warden_scope_blocks_rationale() {
    let scope = FacetScope::parse(
        "librarian/output/**  fact/**  decision/**  contract/**  anchor/** \
         !librarian/output/*/rationale**  !librarian/output/*/considered_alts** \
         !librarian/output/*/reasoning_trace**  !librarian/output/*/confidence_precise",
    );
    assert!(scope.allows("librarian/output/01ABC/public"));
    assert!(scope.allows("fact/01ABC"));
    assert!(!scope.allows("librarian/output/01ABC/rationale"));
    assert!(scope.excluded("librarian/output/01ABC/rationale"));
    assert!(!scope.allows("librarian/output/01ABC/reasoning_trace"));
    assert!(!scope.allows("librarian/output/01ABC/confidence_precise"));
    assert!(!scope.allows("scratch/x"));
    assert!(!scope.excluded("scratch/x"));
}

#[test]
fn adjudicator_scope_blocks_ledger() {
    let scope = FacetScope::parse(
        "librarian/output/** warden/judgment/** fact/** decision/** \
         !*/rationale** !**/reasoning_trace** !cross_check/**",
    );
    assert!(scope.allows("warden/judgment/01X/public"));
    assert!(!scope.allows("cross_check/01Y"));
    assert!(scope.excluded("cross_check/01Y"));
}

#[test]
fn canonicalization() {
    let a = FacetScope::parse("  fact/**   !x/**  fact/** ");
    assert_eq!(a.includes, vec!["fact/**".to_string()]);
    assert_eq!(a.excludes, vec!["x/**".to_string()]);
    assert_eq!(a.canonical(), "fact/** !x/**");
    let empty = FacetScope::parse("   ");
    assert!(empty.allows("anything"));
}

#[test]
fn parses_config_shape() {
    let doc = parse(
        r#"
# UltraCortex config
data_dir = "/var/lib/ultracortex"   # comment after value
shards = 4
encryption_tier = "T1"

[listen]
uds = "/run/ultracortex/ultracortex.sock"
tcp = "127.0.0.1:7741"
tcp_enabled = false

[curator]
disagreement_quota_low = 0.92
disagreement_quota_high = 0.97
probe_rate = 0.001
adjudicator_pool = ["phi-3.5-mini", "llama-3.2-3b", "smollm2-1.7b"]
"#,
    )
    .unwrap();
    let at = |s: &str, k: &str| doc.get(s).unwrap().get(k).unwrap();
    assert_eq!(at("", "shards").as_int(), Some(4));
    assert_eq!(at("", "encryption_tier").as_str(), Some("T1"));
    assert_eq!(at("listen", "tcp_enabled").as_bool(), Some(false));
    match at("curator", "disagreement_quota_low").as_float() {
        Some(FloatText::Literal(s)) => assert_eq!(s.parse::<f64>().unwrap(), 0.92),
        _ => panic!("expected a float"),
    }
    match at("curator", "adjudicator_pool") {
        TomlValue::Array(items) => assert_eq!(items.len(), 3),
        _ => panic!("expected array"),
    }
}

#[test]
fn string_escapes_and_hash_in_string() {
    let doc = parse(r##"path = "a#b\nc""##).unwrap();
    assert_eq!(
        doc.get("").unwrap().get("path").unwrap().as_str(),
        Some("a#b\nc")
    );
}

#[test]
fn rejects_garbage() {
    assert!(parse("[unclosed").is_err());
    assert!(parse("novalue").is_err());
    assert!(parse("k = ").is_err());
}

#[test]
fn clock_monotonic() {
    let mut c = LogicalClock::new(0);
    let a = c.tick();
    let b = c.tick();
    assert!(b > a);
    c.advance_to(100);
    assert!(c.now() >= 100);
    c.advance_to(5);
    assert!(c.now() >= 100);
}

#[test]
fn errcode_roundtrip() {
    for c in [
        ErrCode::Quarantined,
        ErrCode::SemanticDrift,
        ErrCode::HallucinationDetected,
        ErrCode::AdjudicationPending,
        ErrCode::Internal,
    ] {
        assert_eq!(ErrCode::from_str(c.as_str()), Some(c));
    }
    assert!(ErrCode::SemanticDrift.is_trinity());
    assert!(!ErrCode::RateLimited.is_trinity());
}

#[test]
fn fnv_stable() {
    assert_eq!(fnv1a64(b""), 0xcbf29ce484222325);
    assert_ne!(fnv1a64(b"fact-0"), fnv1a64(b"fact-1"));
    assert_eq!(fnv1a64(b"a"), 0xaf63dc4c8601ec8c);
}

#[test]
fn ulid_roundtrip() {
    let mut rng = DetRng::new(42);
    let u = Ulid::from_parts(123456, &mut rng);
    let s = u.to_base32();
    assert_eq!(s.len(), 26);
    assert_eq!(Ulid::from_base32(&s), Some(u));
    assert_eq!(u.time48(), 123456);
    assert_eq!(Ulid::from_bytes(u.to_bytes()), u);
    assert_eq!(Ulid::from_base32("short"), None);
}

#[test]
fn ulid_deterministic() {
    let mut a = DetRng::new(7);
    let mut b = DetRng::new(7);
    assert_eq!(
        Ulid::from_parts(1, &mut a).to_base32(),
        Ulid::from_parts(1, &mut b).to_base32()
    );
}

#[test]
fn ulid_sorts_by_time() {
    let mut rng = DetRng::new(1);
    let a = Ulid::from_parts(10, &mut rng);
    let b = Ulid::from_parts(11, &mut rng);
    assert!(a < b);
}

#[test]
fn detrng_stable_sequence() {
    let mut r1 = DetRng::new(0xDEADBEEF);
    let mut r2 = DetRng::new(0xDEADBEEF);
    for _ in 0..16 {
        assert_eq!(r1.next_u64(), r2.next_u64());
    }
    let f = DetRng::new(9).next_unit() as f64 / (1u64 << 53) as f64;
    assert!((0.0..1.0).contains(&f));
}

#[test]
fn hex_round_trips_and_rejects() {
    assert_eq!(hex(&[0x00, 0xff, 0x1a]), "00ff1a");
    assert_eq!(unhex("00FF1a"), Some(vec![0x00, 0xff, 0x1a]));
    assert_eq!(unhex("abc"), None);
    assert_eq!(unhex("zz"), None);
}

#[test]
fn names_are_found_again() {
    assert_eq!(Severity::from_str("P0"), Some(Severity::P0));
    assert_eq!(Tier::from_str(Tier::L2.as_str()), Some(Tier::L2));
    assert_eq!(Tier::from_str("nothing"), None);
    assert_eq!(est_tokens(0), 0);
    assert_eq!(est_tokens(5), 2);
}

#[test]
fn errors_are_described_by_code_and_message() {
    let e = UcError::not_found("fact/A");
    assert!(e.describe().ends_with(": fact/A"));
}

#[test]
fn base32_texts_sort_as_their_bytes_do() {
    let mut rng = DetRng::new(3);
    let mut all: Vec<Ulid> = (0..40u64).map(|i| Ulid::from_parts(i * 7919 % 64, &mut rng)).collect();
    all.push(Ulid::nil());
    for a in &all {
        for b in &all {
            assert_eq!(a.to_base32() < b.to_base32(), a.to_bytes() < b.to_bytes());
        }
    }
}

#[test]
fn heads_are_as_short_as_they_can_be() {
    for (v, n) in [
        (0, 1),
        (23, 1),
        (24, 2),
        (0xff, 2),
        (0x100, 3),
        (0xffff, 3),
        (0x1_0000, 5),
        (0xffff_ffff, 5),
        (0x1_0000_0000, 9),
        (u64::MAX, 9),
    ] {
        let bytes = Cbor::U64(v).encode();
        assert_eq!(bytes.len(), n);
        for major in 0..8u8 {
            let mut out = vec![9];
            head(major, v, &mut out);
            assert_eq!((out[0], out.len(), out[1] >> 5), (9, n + 1, major));
            assert_eq!(out[2..], bytes[1..]);
        }
        assert_eq!(bytes[0] >> 5, 0);
        assert!(matches!(Cbor::decode(&bytes), Ok(Cbor::U64(w)) if w == v));
    }
    let ordered = Cbor::map(vec![("a", Cbor::U64(1)), ("b", Cbor::t("x")), ("aa", Cbor::Null)]);
    let back = Cbor::decode(&ordered.encode()).unwrap();
    assert_eq!(format!("{back:?}"), format!("{ordered:?}"));
}
