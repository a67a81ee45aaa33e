use ultracortex::bytes::slice_of;
use ultracortex::cbor::Cbor;
use ultracortex::cipher::chacha20_xor;
use ultracortex::digest::{crc32c, hmac_sha256, sha256};
use ultracortex::hex::{hex, unhex};
use ultracortex::idmap::IdMap;
use ultracortex::persist::kms::{EncryptionTier, KeyRing, Kms, T3_ROTATION_INTERVAL_OPS};
use ultracortex::persist::manifest::Manifest;
use ultracortex::persist::snapshot::{load_snapshot, write_snapshot};
use ultracortex::persist::store::{verify_weight_file, weight_path, CasStore};
use ultracortex::persist::wal::{
    epoch_name, epoch_number, epoch_order, replay_bytes, replay_epochs, Flusher, WalFrame, WalOp,
    FLAG_CROSS_CHECK, WAL_MAGIC,
};
use ultracortex::vocab::ErrCode;

fn frame(at: u64, cell: u64, flags: u16, payload: Vec<u8>) -> WalFrame {
    WalFrame {
        logical_at: at,
        cell_id: cell,
        op: WalOp::Write,
        schema_ver: 1,
        flags,
        payload,
    }
}

#[test]
fn frame_roundtrip_bytes() {
    let bytes = frame(42, 7, 0, vec![0xA0]).to_bytes();
    assert_eq!(&bytes[0..4], &WAL_MAGIC.to_le_bytes());
    assert_eq!(u32::from_le_bytes(bytes[4..8].try_into().unwrap()), 25);
}

#[test]
fn write_replay_roundtrip() {
    let mut flusher = Flusher::new(0, 0);
    let mut file: Vec<u8> = Vec::new();
    for i in 0..10u64 {
        let f = frame(
            i,
            i % 3,
            if i % 2 == 0 { 0 } else { FLAG_CROSS_CHECK },
            vec![0x41, i as u8],
        );
        flusher.take_frame(&f.to_bytes());
        file.extend_from_slice(flusher.pending());
        for pos in flusher.commit() {
            assert_eq!(pos.epoch, 0);
            assert_eq!(pos.offset, file.len() as u64);
        }
    }
    let out = replay_epochs(&vec![(0, file)]).unwrap();
    assert!(out.torn_tail.is_none());
    assert_eq!(out.frames.len(), 10);
    assert_eq!(out.frames[3].logical_at, 3);
    assert_eq!(out.frames[5].flags, FLAG_CROSS_CHECK);
}

#[test]
fn torn_tail_is_truncated_not_fatal() {
    let mut file: Vec<u8> = Vec::new();
    for i in 0..3u64 {
        file.extend_from_slice(&frame(i, 1, 0, vec![0xF6]).to_bytes());
    }
    file.extend_from_slice(&WAL_MAGIC.to_le_bytes());
    file.extend_from_slice(&100u32.to_le_bytes());
    file.extend_from_slice(&[0u8; 10]);
    let out = replay_epochs(&vec![(0, file)]).unwrap();
    assert_eq!(out.frames.len(), 3);
    assert!(out.torn_tail.is_some());
}

#[test]
fn corrupt_middle_frame_detected() {
    let mut data: Vec<u8> = Vec::new();
    for i in 0..3u64 {
        data.extend_from_slice(&frame(i, 1, 0, vec![0xF6]).to_bytes());
    }
    data[60] ^= 0xFF;
    let out = replay_bytes(&data);
    assert_eq!(out.frames.len(), 1);
    assert!(out.torn_tail.unwrap().contains("crc mismatch"));
}

#[test]
fn epochs_are_named_and_ordered() {
    assert_eq!(epoch_name(7), "epoch-00000007.wal");
    assert_eq!(epoch_number("epoch-00000007.wal"), Some(7));
    assert_eq!(epoch_number("snap-1.cbor"), None);
    let names = vec![
        "epoch-00000010.wal".to_string(),
        "junk".to_string(),
        "epoch-00000002.wal".to_string(),
    ];
    assert_eq!(epoch_order(&names), vec![2, 10]);
}

#[test]
fn digests_have_known_answers() {
    assert_eq!(
        hex(&sha256(b"abc")),
        "ba7816bf8f01cfea414140de5dae2223b00361a396177a9cb410ff61f20015ad"
    );
    assert_eq!(
        hex(&sha256(b"")),
        "e3b0c44298fc1c149afbf4c8996fb92427ae41e4649b934ca495991b7852b855"
    );
    assert_eq!(
        hex(&sha256(b"abcdbcdecdefdefgefghfghighijhijkijkljklmklmnlmnomnopnopq")),
        "248d6a61d20638b8e5c026930c3e6039a33ce45964ff2167f6ecedd419db06c1"
    );
    assert_eq!(
        hex(&hmac_sha256(b"Jefe", b"what do ya want for nothing?")),
        "5bdcc146bf60754e6a042426089575c75a003f089d2739839dec58b964ec3843"
    );
    assert_eq!(
        hex(&hmac_sha256(
            &[0xaau8; 131],
            b"Test Using Larger Than Block-Size Key - Hash Key First"
        )),
        "60e431591ee0b67f0d8a26aacbf5b77f8e0bc6213728c5140546040f0ee37f54"
    );
    assert_eq!(crc32c(b"123456789"), 0xE3069283);
}

#[test]
fn cipher_has_known_answers() {
    let mut key = [0u8; 32];
    for i in 0..32 {
        key[i] = i as u8;
    }
    let nonce = [0, 0, 0, 0, 0, 0, 0, 0x4a, 0, 0, 0, 0];
    let plain = b"Ladies and Gentlemen of the class of '99: If I could offer you only one tip for the future, sunscreen would be it.";
    let ct = chacha20_xor(&key, &nonce, 1, plain);
    assert_eq!(
        hex(&ct[0..16]),
        "6e2e359a2568f98041ba0728dd0d6981"
    );
    assert_eq!(hex(&ct[112..114]), "874d");
    assert_eq!(chacha20_xor(&key, &nonce, 1, &ct), plain.to_vec());
}

#[test]
fn manifest_roundtrip() {
    let mut m = Manifest {
        node_id: "node-01".to_string(),
        proto_version: 1,
        logical_at: 99,
        clean_shutdown: true,
        encryption_tier: "T1".to_string(),
        shard_count: 4,
        state_hashes: IdMap::new(),
        last_snapshot: None,
    };
    m.state_hashes.insert(3, [7u8; 32]);
    let loaded = Manifest::load(&m.save()).unwrap();
    assert_eq!(loaded.node_id, "node-01");
    assert_eq!(loaded.state_hashes.get(3), Some(&[7u8; 32]));
    assert!(loaded.clean_shutdown);
    assert!(loaded.last_snapshot.is_none());
    let bare = Cbor::map(vec![
        ("node_id", Cbor::t("n")),
        ("proto_version", Cbor::U64(1)),
        ("logical_at", Cbor::U64(0)),
    ]);
    let m = Manifest::from_cbor(&bare).unwrap();
    assert_eq!(m.encryption_tier, "T0");
    assert_eq!(m.shard_count, 2);
    assert!(Manifest::from_cbor(&Cbor::Null).is_err());
}

fn kms(tier: EncryptionTier) -> Kms {
    Kms::new(tier, KeyRing::first([0x5a; 32]))
}

fn reopened(k: &Kms) -> Kms {
    let bytes = k.keyring_cbor().encode();
    let ring = KeyRing::from_cbor(&Cbor::decode(&bytes).unwrap()).unwrap();
    Kms::new(k.tier(), ring)
}

#[test]
fn kms_t1_seal_unseal_and_tamper() {
    let k = kms(EncryptionTier::T1);
    let sealed = k.seal("wal.shard-00", 42, b"secret payload");
    assert_eq!(sealed[0], 0x02);
    let pt = k.unseal("wal.shard-00", &sealed).unwrap();
    assert_eq!(pt, b"secret payload");
    let mut bad = sealed.clone();
    let mid = bad.len() / 2;
    bad[mid] ^= 1;
    assert!(k.unseal("wal.shard-00", &bad).is_err());
    let kms2 = reopened(&k);
    assert_eq!(
        kms2.unseal("wal.shard-00", &sealed).unwrap(),
        b"secret payload"
    );
    let kms0 = kms(EncryptionTier::T0);
    let plain = kms0.seal("x", 0, b"open");
    assert_eq!(plain[0], 0x00);
    assert_eq!(kms0.unseal("x", &plain).unwrap(), b"open");
}

#[test]
fn kms_t3_rotation_preserves_unseal_and_batch_verification() {
    let mut k = kms(EncryptionTier::T3);
    let status = k.rotation_status(0).unwrap();
    assert_eq!(status.active_key_id, 1);
    assert_eq!(status.key_versions, 1);
    assert_eq!(status.rotation_interval_ops, T3_ROTATION_INTERVAL_OPS);
    assert!(!status.overdue);

    let sealed_before = k.seal("wal.shard-00", 42, b"before rotation");
    let digest_before = sha256(b"batch-before");
    let sig_before = k.batch_sign(&digest_before).unwrap();

    let rotation = k
        .rotate(T3_ROTATION_INTERVAL_OPS, false, [0x77; 32])
        .unwrap();
    assert_eq!(rotation.previous_key_id, 1);
    assert_eq!(rotation.active_key_id, 2);

    let sealed_after = k.seal("wal.shard-00", 43, b"after rotation");
    let digest_after = sha256(b"batch-after");
    let sig_after = k.batch_sign(&digest_after).unwrap();

    for k in [&k, &reopened(&k)] {
        assert_eq!(k.key_versions(), 2);
        assert_eq!(
            k.unseal("wal.shard-00", &sealed_before).unwrap(),
            b"before rotation"
        );
        assert_eq!(
            k.unseal("wal.shard-00", &sealed_after).unwrap(),
            b"after rotation"
        );
        assert!(k.verify_batch_signature(&sig_before, &digest_before));
        assert!(k.verify_batch_signature(&sig_after, &digest_after));
        assert!(!k.verify_batch_signature(&sig_after, &digest_before));
    }
}

#[test]
fn kms_refusals_are_told_apart() {
    let mut k0 = kms(EncryptionTier::T0);
    assert_eq!(
        k0.rotate(1, false, [0; 32]).unwrap_err().code,
        ErrCode::Unimplemented
    );
    assert!(k0.wrap_external().is_err());
    assert!(k0.batch_sign(&[0; 32]).is_none());
    assert_eq!(k0.active_key_id(), None);
    let k = kms(EncryptionTier::T1);
    assert_eq!(k.unseal("p", &[]).unwrap_err().message, "unseal: empty");
    assert_eq!(
        k.unseal("p", &[2, 0]).unwrap_err().message,
        "unseal: truncated"
    );
    assert_eq!(
        k.unseal("p", &[9]).unwrap_err().message,
        "unseal: bad marker 9"
    );
    let mut other = k.seal("p", 1, b"x");
    other[1] = 8;
    assert_eq!(
        k.unseal("p", &other).unwrap_err().message,
        "unseal: unknown key id 8"
    );
    assert_eq!(
        k.unseal("q", &k.seal("p", 1, b"x")).unwrap_err().message,
        "unseal: hmac mismatch (tampered?)"
    );
    // The older form names no key: every key is tried.
    let new = k.seal("p", 1, b"x");
    let mut legacy = vec![1u8];
    legacy.extend_from_slice(&slice_of(&new, 9, new.len()));
    assert_eq!(k.unseal("p", &legacy).unwrap(), b"x");
    assert!(EncryptionTier::parse("T9").is_err());
    assert_eq!(EncryptionTier::parse("T2").unwrap(), EncryptionTier::T2);
    let stray = Cbor::map(vec![
        ("active_key_id", Cbor::U64(4)),
        (
            "keys",
            Cbor::arr(vec![Cbor::map(vec![
                ("key_id", Cbor::U64(1)),
                ("material", Cbor::bytes(vec![0; 32])),
            ])]),
        ),
    ]);
    assert_eq!(
        KeyRing::from_cbor(&stray).unwrap_err().message,
        "kms keyring: active key id 4 missing from key set"
    );
}

#[test]
fn cas_put_get_verify() {
    let mut cas = CasStore::new();
    let (h, write) = cas.put(b"hello cas", None).unwrap();
    assert!(write);
    assert_eq!(
        CasStore::get(&h, Some(b"hello cas".to_vec())).unwrap(),
        b"hello cas"
    );
    let (h2, again) = cas.put(b"hello cas", Some(b"hello cas".to_vec())).unwrap();
    assert_eq!(h, h2);
    assert!(!again);
    // A blob that is there is verified.
    let e = cas.put(b"hello cas", Some(b"hello caS".to_vec())).unwrap_err();
    assert_eq!(e.code, ErrCode::Internal);
    assert_eq!(e.message, format!("cas blob {} failed hash verification", hex(&h)));
    assert_eq!(cas.count(&h), 2);
    assert!(CasStore::get(&h, Some(b"hello caS".to_vec())).is_err());
    assert_eq!(CasStore::get(&h, None).unwrap_err().code, ErrCode::NotFound);
    let text = hex(&h);
    assert_eq!(
        CasStore::path_for(&h),
        format!("{}/{}/{}", &text[0..2], &text[2..4], text)
    );
    cas.decref(&h);
    assert!(cas.gc().is_empty());
    cas.decref(&h);
    assert_eq!(cas.gc(), vec![text]);
    cas.rebuild_refcount(&h, 1);
    assert!(cas.gc().is_empty());
}

#[test]
fn snapshot_roundtrip() {
    let mut states: IdMap<Cbor> = IdMap::new();
    states.insert(1, Cbor::map(vec![("facts", Cbor::U64(3))]));
    states.insert(2, Cbor::t("timeline-state"));
    let (name, bytes) = write_snapshot(500, &states);
    assert!(name.starts_with("snap-0000000000000500-"));
    assert!(name.ends_with(".cbor"));
    assert_eq!(
        &name[22..34],
        &hex(&sha256(&bytes))[..12]
    );
    let (at, loaded) = load_snapshot(&bytes).unwrap();
    assert_eq!(at, 500);
    assert_eq!(loaded.len(), 2);
    assert_eq!(loaded.get(1).unwrap().req_u64("facts").unwrap(), 3);
    assert!(load_snapshot(&[0xff]).is_err());
}

#[test]
fn weights_are_pinned_by_digest() {
    assert_eq!(weight_path("m", "ab"), "weights/m/ab.gguf");
    assert!(verify_weight_file("p", "m", "AB", Some("ab".to_string())).is_ok());
    assert_eq!(
        verify_weight_file("p", "m", "ab", None).unwrap_err().message,
        "weight file missing: p"
    );
    assert_eq!(
        verify_weight_file("p", "m", "ab", Some("cd".to_string()))
            .unwrap_err()
            .message,
        "weight hash mismatch for m: expected ab, got cd"
    );
    assert_eq!(unhex("ab"), Some(vec![0xab]));
}

#[test]
fn every_key_that_was_active_still_opens() {
    let mut k = kms(EncryptionTier::T3);
    let mut kept = Vec::new();
    for i in 0..5u8 {
        kept.push(k.seal("wal.shard-00", i as u64, &[i; 9]));
        k.rotate(i as u64, true, [0x60 + i; 32]).unwrap();
        k = reopened(&k);
    }
    assert_eq!(k.key_versions(), 6);
    for (i, sealed) in kept.iter().enumerate() {
        assert_eq!(k.unseal("wal.shard-00", sealed).unwrap(), vec![i as u8; 9]);
        for at in [21, sealed.len() - 1] {
            let mut bad = sealed.clone();
            bad[at] ^= 0x80;
            assert_eq!(
                k.unseal("wal.shard-00", &bad).unwrap_err().message,
                "unseal: hmac mismatch (tampered?)"
            );
        }
    }
}
