//! Key custody: the key ring, sealing and unsealing of payloads, rotation, and
//! batch signatures.
//!
//! Tier `T0` leaves payloads in the clear. The other tiers encrypt with
//! ChaCha20 and authenticate with HMAC-SHA-256 under keys derived from a node
//! key; `T2` and `T3` also sign batches; `T3` rotates the node key on a
//! schedule and keeps the old ones.

use vstd::prelude::*;
use crate::bytes::{
    le_bytes, le_int, lemma_le_round_trip, lemma_pow256, push_all, push_le, read_le, slice_of,
};
use crate::cbor::{lookup_from, map_value, missing_uint, u64_or_zero, views, Cbor, CborV};
use crate::codec::{enc, value_of};
use crate::codec_laws::{
    canon, fits, lemma_bytes_back, lemma_canon_field, lemma_short_text, text_keys,
};
use crate::cells::blob::{bytes_of, first_32};
use crate::cipher::{chacha20_xor, ciphered, lemma_cipher_involution};
use crate::digest::{hmac_of, hmac_sha256, lemma_mac_len};
use crate::idmap::{
    id_order, id_rows, id_unrows, lemma_finite_listed, lemma_id_rows_back, lemma_id_unrows_stops,
    lists, IdMap,
};
use crate::hex::{hex, hex_text};
use crate::text::{cat2, cat3, dec_text, str_eq, u64_text};
use crate::vocab::{agrees, ErrCode, ErrV, UcError, UcResult};
use vstd::string::StringSliceAdditionalSpecFns;
use vstd::utf8::encode_utf8;

verus! {

/// How many operations a `T3` key is meant to last.
pub const T3_ROTATION_INTERVAL_OPS: u64 = 1_000_000;

/// How payloads are kept at rest.
#[derive(Clone, Copy, Debug, PartialEq, Eq, Structural)]
pub enum EncryptionTier {
    T0,
    T1,
    T2,
    T3,
}

impl DeepView for EncryptionTier {
    type V = EncryptionTier;

    open spec fn deep_view(&self) -> EncryptionTier {
        *self
    }
}

impl EncryptionTier {
    /// The text that stands for a tier.
    pub open spec fn name(self) -> Seq<char> {
        match self {
            EncryptionTier::T0 => "T0"@,
            EncryptionTier::T1 => "T1"@,
            EncryptionTier::T2 => "T2"@,
            EncryptionTier::T3 => "T3"@,
        }
    }

    /// The tier with that name.
    pub open spec fn named(s: Seq<char>) -> Option<EncryptionTier> {
        if s == "T0"@ {
            Some(EncryptionTier::T0)
        } else if s == "T1"@ {
            Some(EncryptionTier::T1)
        } else if s == "T2"@ {
            Some(EncryptionTier::T2)
        } else if s == "T3"@ {
            Some(EncryptionTier::T3)
        } else {
            None
        }
    }

    pub fn as_str(&self) -> (r: &'static str)
        ensures
            r@ == self.name(),
    {
        match self {
            EncryptionTier::T0 => "T0",
            EncryptionTier::T1 => "T1",
            EncryptionTier::T2 => "T2",
            EncryptionTier::T3 => "T3",
        }
    }

    /// Reads a tier by its name.
    pub fn parse(s: &str) -> (r: UcResult<EncryptionTier>)
        ensures
            agrees(
                r,
                match EncryptionTier::named(s@) {
                    Some(t) => Ok(t),
                    None => Err(
                        (
                            ErrCode::ContractViolation,
                            "unknown encryption_tier: "@ + s@ + " (expected T0..T3)"@,
                        ),
                    ),
                },
            ),
    {
        if str_eq(s, "T0") {
            Ok(EncryptionTier::T0)
        } else if str_eq(s, "T1") {
            Ok(EncryptionTier::T1)
        } else if str_eq(s, "T2") {
            Ok(EncryptionTier::T2)
        } else if str_eq(s, "T3") {
            Ok(EncryptionTier::T3)
        } else {
            Err(
            UcError::schema(
                cat3("unknown encryption_tier: ", s, " (expected T0..T3)").as_str(),
            ),
        )
        }
    }

    /// Every tier is found again by its name, and no two share one.
    pub proof fn lemma_named(a: EncryptionTier, b: EncryptionTier)
        ensures
            EncryptionTier::named(a.name()) == Some(a),
            a.name() == b.name() ==> a == b,
    {
        reveal_strlit("T0");
        reveal_strlit("T1");
        reveal_strlit("T2");
        reveal_strlit("T3");
        assert("T0"@.len() == 2);
        assert("T1"@.len() == 2);
        assert("T2"@.len() == 2);
        assert("T3"@.len() == 2);
        assert("T0"@[1] != "T1"@[1]);
        assert("T0"@[1] != "T2"@[1]);
        assert("T0"@[1] != "T3"@[1]);
        assert("T1"@[1] != "T2"@[1]);
        assert("T1"@[1] != "T3"@[1]);
        assert("T2"@[1] != "T3"@[1]);
    }
}

/// Whether two byte strings are equal; every byte is looked at.
pub fn ct_eq(a: &[u8], b: &[u8]) -> (r: bool)
    ensures
        r == (a@ == b@),
{
    if a.len() != b.len() {
        return false;
    }
    let mut acc: u8 = 0;
    assert(a@.take(0) =~= b@.take(0));
    let mut i: usize = 0;
    while i < a.len()
        invariant
            i <= a@.len() == b@.len(),
            acc == 0 <==> a@.take(i as int) == b@.take(i as int),
        decreases a.len() - i,
    {
        let ghost was = acc;
        let (x, y) = (a[i], b[i]);
        acc = acc | (x ^ y);
        proof {
            assert((was | (x ^ y)) == 0 <==> (was == 0 && x == y)) by (bit_vector);
            let p = a@.take(i + 1);
            let q = b@.take(i + 1);
            if p == q {
                assert(p[i as int] == q[i as int]);
                assert(a@.take(i as int) =~= p.take(i as int));
                assert(b@.take(i as int) =~= q.take(i as int));
            }
            if was == 0 && x == y {
                assert(p =~= a@.take(i as int).push(x));
                assert(q =~= b@.take(i as int).push(y));
            }
        }
        i += 1;
    }
    assert(a@.take(a@.len() as int) =~= a@);
    assert(b@.take(b@.len() as int) =~= b@);
    acc == 0
}

/// The key ring: node keys by number, and which one is in use.
#[verifier::ext_equal]
pub struct RingV {
    pub active: u64,
    pub last_rotated_at: u64,
    pub keys: Map<u64, Seq<u8>>,
}

/// The row of a key.
pub open spec fn key_row() -> spec_fn(u64, Seq<u8>) -> CborV {
    |k: u64, b: Seq<u8>|
        map_value(seq![("key_id"@, CborV::U64(k)), ("material"@, CborV::Bytes(b))])
}

/// The key of a row.
pub open spec fn key_of_row(v: CborV) -> Result<(u64, Seq<u8>), ErrV> {
    match v.u64_field("key_id"@) {
        None => Err((ErrCode::Internal, missing_uint("key_id"@))),
        Some(k) => match v.bytes_field("material"@) {
            None => Err((ErrCode::ContractViolation, "kms keyring: missing key material"@)),
            Some(b) => if b.len() != 32 {
                Err((ErrCode::ContractViolation, "kms keyring: key material must be 32 bytes"@))
            } else {
                Ok((k, b))
            },
        },
    }
}

/// The keys of rows.
pub open spec fn key_read() -> spec_fn(CborV) -> Result<(u64, Seq<u8>), ErrV> {
    |v: CborV| key_of_row(v)
}

impl RingV {
    pub open spec fn empty() -> RingV {
        RingV { active: 0, last_rotated_at: 0, keys: Map::empty() }
    }

    /// Every key has 32 bytes.
    pub open spec fn wf(self) -> bool {
        forall|k: u64| #[trigger] self.keys.contains_key(k) ==> self.keys[k].len() == 32
    }

    /// The encoded form of the ring.
    pub open spec fn value(self) -> CborV {
        map_value(
            seq![
                ("active_key_id"@, CborV::U64(self.active)),
                ("last_rotated_at"@, CborV::U64(self.last_rotated_at)),
                ("keys"@, CborV::Array(id_rows(self.keys, key_row()))),
            ],
        )
    }

    /// What an encoded form says. A ring with keys holds its active one.
    pub open spec fn read(v: CborV) -> Result<RingV, ErrV> {
        let (keys, e) = match v.array_field("keys"@) {
            Some(a) => id_unrows(a, key_read()),
            None => (Map::empty(), None),
        };
        let active = u64_or_zero(v, "active_key_id"@);
        if e is Some {
            Err(e->0)
        } else if keys.dom().len() > 0 && !keys.contains_key(active) {
            Err(
                (
                    ErrCode::ContractViolation,
                    "kms keyring: active key id "@ + dec_text(active as nat)
                        + " missing from key set"@,
                ),
            )
        } else {
            Ok(RingV { active, last_rotated_at: u64_or_zero(v, "last_rotated_at"@), keys })
        }
    }

    /// A ring that holds its active key is read back from its encoded form.
    pub proof fn lemma_read_back(self)
        requires
            self.wf(),
            self.keys.dom().finite(),
            self.keys.dom().len() > 0 ==> self.keys.contains_key(self.active),
        ensures
            RingV::read(self.value()) == Ok::<_, ErrV>(self),
            self.value().field("active_key_id"@) == Some(CborV::U64(self.active)),
            self.value().field("last_rotated_at"@) == Some(CborV::U64(self.last_rotated_at)),
            self.value().field("keys"@) == Some(CborV::Array(id_rows(self.keys, key_row()))),
    {
        let m = self.value()->Pairs_0;
        reveal_strlit("active_key_id");
        reveal_strlit("last_rotated_at");
        reveal_strlit("keys");
        assert("active_key_id"@.len() == 13);
        assert("last_rotated_at"@.len() == 15);
        assert("keys"@.len() == 4);
        reveal_with_fuel(lookup_from, 4);
        assert(m[0].0 == CborV::Text("active_key_id"@));
        assert(m[1].0 == CborV::Text("last_rotated_at"@));
        assert(m[2].0 == CborV::Text("keys"@));
        assert(self.value().field("active_key_id"@) == Some(CborV::U64(self.active)));
        assert(self.value().field("last_rotated_at"@) == Some(CborV::U64(self.last_rotated_at)));
        assert(self.value().field("keys"@) == Some(CborV::Array(id_rows(self.keys, key_row()))));
        assert forall|k: u64| self.keys.contains_key(k) implies #[trigger] key_read()(
            key_row()(k, self.keys[k]),
        ) == Ok::<_, ErrV>((k, self.keys[k])) by {
            let v = key_row()(k, self.keys[k]);
            let p = v->Pairs_0;
            reveal_strlit("key_id");
            reveal_strlit("material");
            assert("key_id"@.len() == 6);
            assert("material"@.len() == 8);
            reveal_with_fuel(lookup_from, 3);
            assert(p[0].0 == CborV::Text("key_id"@));
            assert(p[1].0 == CborV::Text("material"@));
            assert(v.field("key_id"@) == Some(CborV::U64(k)));
            assert(v.field("material"@) == Some(CborV::Bytes(self.keys[k])));
        }
        lemma_id_rows_back(self.keys, key_row(), key_read());
    }

    /// The key that a node key gives for a purpose.
    pub open spec fn derived(self, id: u64, purpose: Seq<char>) -> Seq<u8> {
        hmac_of(self.keys[id], encode_utf8(purpose))
    }

    /// A sealed payload: marker, key number, nonce, ciphertext, MAC; or, where
    /// there is no key, a marker and the payload itself.
    pub open spec fn sealed(self, purpose: Seq<char>, nonce_seed: u64, plain: Seq<u8>) -> Seq<u8> {
        if !self.keys.contains_key(self.active) {
            seq![0u8] + plain
        } else {
            let key = self.derived(self.active, purpose);
            let nonce = nonce_of(nonce_seed);
            let ct = ciphered(key, nonce, 1, plain);
            seq![2u8] + le_bytes(self.active as nat, 8) + nonce + ct + hmac_of(key, nonce + ct)
        }
    }

    /// A payload is sealed under the active key: a marker, the number of the key, a nonce, as
    /// many bytes of ciphertext as the payload has, and a MAC over nonce and ciphertext. The
    /// ciphertext and the MAC come from a key that is made for the purpose. Without a key the
    /// payload stands in the clear behind its marker.
    pub proof fn lemma_sealed_form(self, purpose: Seq<char>, nonce_seed: u64, plain: Seq<u8>)
        ensures
            ({
                let s = self.sealed(purpose, nonce_seed, plain);
                let n = plain.len() as int;
                let key = hmac_of(self.keys[self.active], encode_utf8(purpose));
                &&& self.keys.contains_key(self.active) ==> {
                    &&& s.len() == n + 53
                    &&& s[0] == 2
                    &&& le_int(s.subrange(1, 9)) == self.active
                    &&& le_int(s.subrange(9, 17)) == nonce_seed
                    &&& s.subrange(21, 21 + n) == ciphered(key, s.subrange(9, 21), 1, plain)
                    &&& s.skip(21 + n) == hmac_of(key, s.subrange(9, 21 + n))
                }
                &&& !self.keys.contains_key(self.active) ==> s.len() == n + 1 && s[0] == 0 && s.skip(
                    1,
                ) == plain
            }),
    {
        let s = self.sealed(purpose, nonce_seed, plain);
        let n = plain.len() as int;
        if self.keys.contains_key(self.active) {
            let key = self.derived(self.active, purpose);
            let nonce = nonce_of(nonce_seed);
            let ct = ciphered(key, nonce, 1, plain);
            lemma_pow256();
            lemma_le_round_trip(self.active as nat, 8);
            lemma_le_round_trip(nonce_seed as nat, 8);
            lemma_mac_len(key, nonce + ct);
            lemma_cipher_involution(key, nonce, 1, plain);
            assert(s.subrange(1, 9) =~= le_bytes(self.active as nat, 8));
            assert(s.subrange(9, 17) =~= le_bytes(nonce_seed as nat, 8));
            assert(s.subrange(9, 21) =~= nonce);
            assert(s.subrange(21, 21 + n) =~= ct);
            assert(s.subrange(9, 21 + n) =~= nonce + ct);
            assert(s.skip(21 + n) =~= hmac_of(key, nonce + ct));
        } else {
            assert(s.skip(1) =~= plain);
        }
    }

    /// The payload that the first key of the list opens.
    pub open spec fn first_opened(self, ids: Seq<u64>, purpose: Seq<char>, b: Seq<u8>) -> Option<
        Seq<u8>,
    >
        decreases ids.len(),
    {
        if ids.len() == 0 {
            None
        } else {
            match opened_with(self.derived(ids[0], purpose), b, 1) {
                Some(p) => Some(p),
                None => self.first_opened(ids.skip(1), purpose, b),
            }
        }
    }

    /// What a sealed payload holds. The older form names no key, so every key
    /// is tried in order.
    pub open spec fn opened(self, purpose: Seq<char>, b: Seq<u8>) -> Result<Seq<u8>, ErrV> {
        if b.len() == 0 {
            Err((ErrCode::Internal, "unseal: empty"@))
        } else if b[0] == 0 {
            Ok(b.skip(1))
        } else if b[0] == 1 {
            if b.len() < 45 {
                Err((ErrCode::Internal, "unseal: truncated"@))
            } else {
                match self.first_opened(id_order(self.keys.dom()), purpose, b) {
                    Some(p) => Ok(p),
                    None => Err((ErrCode::Internal, "unseal: hmac mismatch (tampered?)"@)),
                }
            }
        } else if b[0] == 2 {
            if b.len() < 53 {
                Err((ErrCode::Internal, "unseal: truncated"@))
            } else {
                let id = le_int(b.subrange(1, 9)) as u64;
                if !self.keys.contains_key(id) {
                    Err((ErrCode::Internal, "unseal: unknown key id "@ + dec_text(id as nat)))
                } else {
                    match opened_with(self.derived(id, purpose), b, 9) {
                        Some(p) => Ok(p),
                        None => Err((ErrCode::Internal, "unseal: hmac mismatch (tampered?)"@)),
                    }
                }
            }
        } else {
            Err((ErrCode::Internal, "unseal: bad marker "@ + dec_text(b[0] as nat)))
        }
    }

    /// The number that the next key gets: above every other.
    pub open spec fn next_id(self) -> int {
        let o = id_order(self.keys.dom());
        let top: u64 = if o.len() == 0 {
            0
        } else {
            o.last()
        };
        if top > self.active {
            top + 1
        } else {
            self.active + 1
        }
    }

    /// The ring with a new key in use.
    pub open spec fn rotated(self, at: u64, key: Seq<u8>) -> RingV {
        RingV {
            active: self.next_id() as u64,
            last_rotated_at: at,
            keys: self.keys.insert(self.next_id() as u64, key),
        }
    }

    /// Unsealing gives back what was sealed, for the same purpose.
    pub proof fn lemma_seal_round_trip(self, purpose: Seq<char>, nonce_seed: u64, plain: Seq<u8>)
        ensures
            self.opened(purpose, self.sealed(purpose, nonce_seed, plain)) == Ok::<_, ErrV>(plain),
    {
        let b = self.sealed(purpose, nonce_seed, plain);
        if !self.keys.contains_key(self.active) {
            assert(b.skip(1) =~= plain);
        } else {
            lemma_opens(self.derived(self.active, purpose), self.active, nonce_seed, plain);
        }
    }

    /// Every key of this ring is one of the other.
    pub open spec fn within(self, r: RingV) -> bool {
        forall|k: u64| #[trigger]
            self.keys.contains_key(k) ==> r.keys.contains_key(k) && r.keys[k] == self.keys[k]
    }

    /// What one ring sealed, every ring that holds its keys unseals.
    pub proof fn lemma_opens_within(
        self,
        r: RingV,
        purpose: Seq<char>,
        nonce_seed: u64,
        plain: Seq<u8>,
    )
        requires
            self.within(r),
        ensures
            r.opened(purpose, self.sealed(purpose, nonce_seed, plain)) == Ok::<_, ErrV>(plain),
    {
        self.lemma_seal_round_trip(purpose, nonce_seed, plain);
        if self.keys.contains_key(self.active) {
            assert(r.derived(self.active, purpose) == self.derived(self.active, purpose));
            lemma_opens(self.derived(self.active, purpose), self.active, nonce_seed, plain);
        }
    }

    /// The ring after turns, each with its time and its key.
    pub open spec fn turned(self, turns: Seq<(u64, Seq<u8>)>) -> RingV
        decreases turns.len(),
    {
        if turns.len() == 0 {
            self
        } else {
            self.turned(turns.drop_last()).rotated(turns.last().0, turns.last().1)
        }
    }

    /// Every turn has a number left for its key, and a whole key.
    pub open spec fn turnable(self, turns: Seq<(u64, Seq<u8>)>) -> bool
        decreases turns.len(),
    {
        turns.len() == 0 || (self.turnable(turns.drop_last()) && self.turned(
            turns.drop_last(),
        ).next_id() <= u64::MAX && turns.last().1.len() == 32)
    }

    /// A ring that holds whole keys, and the active one where it holds any.
    pub open spec fn held(self) -> bool {
        self.wf() && self.keys.dom().finite() && (self.keys.dom().len() > 0
            ==> self.keys.contains_key(self.active))
    }

    /// However often the key was rotated, every key is still held.
    pub proof fn lemma_turned(self, turns: Seq<(u64, Seq<u8>)>)
        requires
            self.held(),
            self.turnable(turns),
        ensures
            self.turned(turns).held(),
            self.within(self.turned(turns)),
        decreases turns.len(),
    {
        if turns.len() > 0 {
            let r = self.turned(turns.drop_last());
            let (at, key) = turns.last();
            self.lemma_turned(turns.drop_last());
            r.lemma_rotation_preserves(Seq::empty(), 0, Seq::empty(), at, key);
            let t = r.rotated(at, key);
            assert(t.wf()) by {
                assert forall|k: u64| #[trigger] t.keys.contains_key(k) implies t.keys[k].len()
                    == 32 by {
                    if k != r.next_id() {
                        assert(r.keys.contains_key(k));
                    }
                }
            }
            assert forall|k: u64| #[trigger] self.keys.contains_key(k) implies t.keys.contains_key(k)
                && t.keys[k] == self.keys[k] by {
                assert(r.keys.contains_key(k));
            }
        }
    }

    /// A ring comes back whole from its file.
    pub proof fn lemma_reopened(self)
        requires
            self.held(),
            fits(self.value()),
        ensures
            value_of(enc(self.value())) is Ok,
            RingV::read(value_of(enc(self.value()))->Ok_0) == Ok::<_, ErrV>(self),
    {
        let v = self.value();
        let m = v->Pairs_0;
        lemma_bytes_back(v);
        reveal_strlit("active_key_id");
        reveal_strlit("last_rotated_at");
        reveal_strlit("keys");
        assert("active_key_id"@.len() == 13);
        assert("last_rotated_at"@.len() == 15);
        assert("keys"@.len() == 4);
        reveal_with_fuel(lookup_from, 4);
        assert(m[0].0 == CborV::Text("active_key_id"@));
        assert(m[1].0 == CborV::Text("last_rotated_at"@));
        assert(m[2].0 == CborV::Text("keys"@));
        let rows = id_rows(self.keys, key_row());
        assert(v.field("active_key_id"@) == Some(CborV::U64(self.active)));
        assert(v.field("last_rotated_at"@) == Some(CborV::U64(self.last_rotated_at)));
        assert(v.field("keys"@) == Some(CborV::Array(rows)));
        assert(text_keys(m)) by {
            assert forall|i: int| 0 <= i < m.len() implies (#[trigger] m[i]).0 is Text && fits(
                m[i].0,
            ) by {}
        }
        lemma_canon_field(m, "active_key_id"@);
        lemma_canon_field(m, "last_rotated_at"@);
        lemma_canon_field(m, "keys"@);
        let row = |k: u64, b: Seq<u8>| canon(key_row()(k, b));
        let back = canon(CborV::Array(rows))->Array_0;
        assert(back =~= id_rows(self.keys, row));
        assert forall|k: u64| self.keys.contains_key(k) implies #[trigger] key_read()(
            row(k, self.keys[k]),
        ) == Ok::<_, ErrV>((k, self.keys[k])) by {
            lemma_row_back(k, self.keys[k]);
        }
        lemma_id_rows_back(self.keys, row, key_read());
    }

    /// What was sealed is unsealed after any number of rotations, and by the ring
    /// that is taken up from the file of the last.
    pub proof fn lemma_unseals_later(
        self,
        turns: Seq<(u64, Seq<u8>)>,
        purpose: Seq<char>,
        nonce_seed: u64,
        plain: Seq<u8>,
    )
        requires
            self.held(),
            self.turnable(turns),
            fits(self.turned(turns).value()),
        ensures
            ({
                let now = self.turned(turns);
                let sealed = self.sealed(purpose, nonce_seed, plain);
                &&& now.opened(purpose, sealed) == Ok::<_, ErrV>(plain)
                &&& value_of(enc(now.value())) is Ok
                &&& RingV::read(value_of(enc(now.value()))->Ok_0) is Ok
                &&& RingV::read(value_of(enc(now.value()))->Ok_0)->Ok_0.opened(purpose, sealed)
                    == Ok::<_, ErrV>(plain)
            }),
    {
        self.lemma_turned(turns);
        self.lemma_opens_within(self.turned(turns), purpose, nonce_seed, plain);
        self.turned(turns).lemma_reopened();
    }

    /// A sealed payload with one byte of its nonce, ciphertext or MAC changed is
    /// refused: always where the MAC was changed, and else unless the key gives the
    /// changed bytes the same MAC.
    pub proof fn lemma_tamper_refused(
        self,
        purpose: Seq<char>,
        nonce_seed: u64,
        plain: Seq<u8>,
        i: int,
        x: u8,
    )
        requires
            self.keys.contains_key(self.active),
            9 <= i < self.sealed(purpose, nonce_seed, plain).len(),
            x != self.sealed(purpose, nonce_seed, plain)[i],
            ({
                let b = self.sealed(purpose, nonce_seed, plain);
                let key = self.derived(self.active, purpose);
                i < b.len() - 32 ==> hmac_of(key, b.update(i, x).subrange(9, b.len() - 32))
                    != hmac_of(key, b.subrange(9, b.len() - 32))
            }),
        ensures
            self.opened(purpose, self.sealed(purpose, nonce_seed, plain).update(i, x)) == Err::<
                Seq<u8>,
                ErrV,
            >((ErrCode::Internal, "unseal: hmac mismatch (tampered?)"@)),
    {
        let key = self.derived(self.active, purpose);
        let nonce = nonce_of(nonce_seed);
        let ct = ciphered(key, nonce, 1, plain);
        let mac = hmac_of(key, nonce + ct);
        let b = self.sealed(purpose, nonce_seed, plain);
        let t = b.update(i, x);
        let n = b.len() as int;
        lemma_opens(key, self.active, nonce_seed, plain);
        lemma_pow256();
        lemma_le_round_trip(self.active as nat, 8);
        lemma_le_round_trip(nonce_seed as nat, 8);
        lemma_mac_len(key, nonce + ct);
        assert(t.subrange(1, 9) =~= b.subrange(1, 9));
        assert(b.subrange(9, n - 32) =~= nonce + ct);
        assert(b.skip(n - 32) =~= mac);
        assert(t.subrange(9, 21) + t.subrange(21, n - 32) =~= t.subrange(9, n - 32));
        if i >= n - 32 {
            assert(t.subrange(9, n - 32) =~= b.subrange(9, n - 32));
            assert(t.skip(n - 32)[i - (n - 32)] == x);
            assert(b.skip(n - 32)[i - (n - 32)] == b[i]);
        } else {
            assert(t.skip(n - 32) =~= b.skip(n - 32));
        }
    }

    /// Rotation keeps every key, so what was sealed before can still be
    /// unsealed, and what is sealed after as well.
    pub proof fn lemma_rotation_preserves(
        self,
        purpose: Seq<char>,
        nonce_seed: u64,
        plain: Seq<u8>,
        at: u64,
        key: Seq<u8>,
    )
        requires
            self.keys.dom().finite(),
            self.next_id() <= u64::MAX,
        ensures
            self.rotated(at, key).opened(purpose, self.sealed(purpose, nonce_seed, plain)) == Ok::<
                _,
                ErrV,
            >(plain),
            self.rotated(at, key).opened(
                purpose,
                self.rotated(at, key).sealed(purpose, nonce_seed, plain),
            ) == Ok::<_, ErrV>(plain),
            forall|k: u64|
                #[trigger] self.keys.contains_key(k) ==> self.rotated(at, key).keys.contains_key(k)
                    && self.rotated(at, key).keys[k] == self.keys[k],
    {
        let r = self.rotated(at, key);
        let o = id_order(self.keys.dom());
        lemma_finite_listed(self.keys.dom());
        assert forall|k: u64| #[trigger] self.keys.contains_key(k) implies k != self.next_id() by {
            assert(self.keys.dom().contains(k));
            assert(o.contains(k));
            let i = choose|i: int| 0 <= i < o.len() && o[i] == k;
            if i < o.len() - 1 {
                assert(o[i] < o[o.len() - 1]);
            }
        }
        self.lemma_seal_round_trip(purpose, nonce_seed, plain);
        r.lemma_seal_round_trip(purpose, nonce_seed, plain);
        if self.keys.contains_key(self.active) {
            assert(r.derived(self.active, purpose) == self.derived(self.active, purpose));
            lemma_opens(self.derived(self.active, purpose), self.active, nonce_seed, plain);
        }
    }
}

proof fn lemma_row_back(k: u64, b: Seq<u8>)
    requires
        b.len() == 32,
    ensures
        key_of_row(canon(key_row()(k, b))) == Ok::<_, ErrV>((k, b)),
{
    let v = key_row()(k, b);
    let p = v->Pairs_0;
    reveal_strlit("key_id");
    reveal_strlit("material");
    assert("key_id"@.len() == 6);
    assert("material"@.len() == 8);
    lemma_short_text("key_id"@);
    lemma_short_text("material"@);
    reveal_with_fuel(lookup_from, 3);
    assert(p[0].0 == CborV::Text("key_id"@));
    assert(p[1].0 == CborV::Text("material"@));
    assert(v.field("key_id"@) == Some(CborV::U64(k)));
    assert(v.field("material"@) == Some(CborV::Bytes(b)));
    assert(text_keys(p));
    lemma_canon_field(p, "key_id"@);
    lemma_canon_field(p, "material"@);
}

/// The nonce that a seed gives: its eight bytes and four zeros.
pub open spec fn nonce_of(seed: u64) -> Seq<u8> {
    le_bytes(seed as nat, 8) + seq![0u8, 0u8, 0u8, 0u8]
}

/// What a key opens: the nonce stands at `off`, the MAC at the end, and the
/// ciphertext between them.
pub open spec fn opened_with(key: Seq<u8>, b: Seq<u8>, off: int) -> Option<Seq<u8>> {
    if b.len() < off + 44 {
        None
    } else {
        let nonce = b.subrange(off, off + 12);
        let ct = b.subrange(off + 12, b.len() - 32);
        if hmac_of(key, nonce + ct) == b.skip(b.len() - 32) {
            Some(ciphered(key, nonce, 1, ct))
        } else {
            None
        }
    }
}

proof fn lemma_opens(key: Seq<u8>, id: u64, nonce_seed: u64, plain: Seq<u8>)
    ensures
        ({
            let nonce = nonce_of(nonce_seed);
            let ct = ciphered(key, nonce, 1, plain);
            let b = seq![2u8] + le_bytes(id as nat, 8) + nonce + ct + hmac_of(key, nonce + ct);
            &&& b.len() >= 53
            &&& b[0] == 2
            &&& le_int(b.subrange(1, 9)) == id
            &&& opened_with(key, b, 9) == Some(plain)
        }),
{
    let nonce = nonce_of(nonce_seed);
    let ct = ciphered(key, nonce, 1, plain);
    let mac = hmac_of(key, nonce + ct);
    let b = seq![2u8] + le_bytes(id as nat, 8) + nonce + ct + mac;
    lemma_pow256();
    lemma_le_round_trip(id as nat, 8);
    lemma_le_round_trip(nonce_seed as nat, 8);
    lemma_mac_len(key, nonce + ct);
    assert(b.subrange(1, 9) =~= le_bytes(id as nat, 8));
    assert(b.subrange(9, 21) =~= nonce);
    assert(b.subrange(21, b.len() - 32) =~= ct);
    assert(b.skip(b.len() - 32) =~= mac);
    lemma_cipher_involution(key, nonce, 1, plain);
}

proof fn lemma_key_view(a: [u8; 32])
    ensures
        a.deep_view() == a@,
{
    assert(a.deep_view() =~= a@);
}

/// A key ring.
#[derive(Debug)]
pub struct KeyRing {
    active_key_id: u64,
    last_rotated_at: u64,
    keys: IdMap<[u8; 32]>,
}

impl View for KeyRing {
    type V = RingV;

    closed spec fn view(&self) -> RingV {
        RingV {
            active: self.active_key_id,
            last_rotated_at: self.last_rotated_at,
            keys: self.keys@,
        }
    }
}

impl DeepView for KeyRing {
    type V = RingV;

    open spec fn deep_view(&self) -> RingV {
        self@
    }
}

impl KeyRing {
    /// A ring without keys.
    pub fn empty() -> (r: Self)
        ensures
            r@ == RingV::empty(),
            r@.held(),
    {
        KeyRing { active_key_id: 0, last_rotated_at: 0, keys: IdMap::new() }
    }

    /// A ring with one key, the first.
    pub fn first(key: [u8; 32]) -> (r: Self)
        ensures
            r@ == (RingV {
                active: 1,
                last_rotated_at: 0,
                keys: Map::<u64, Seq<u8>>::empty().insert(1, key@),
            }),
            r@.held(),
    {
        let mut keys: IdMap<[u8; 32]> = IdMap::new();
        keys.insert(1, key);
        proof {
            lemma_key_view(key);
        }
        KeyRing { active_key_id: 1, last_rotated_at: 0, keys }
    }

    pub fn to_cbor(&self) -> (r: Cbor)
        ensures
            r@ == self@.value(),
    {
        let mut items: Vec<Cbor> = Vec::new();
        let mut i: usize = 0;
        let n: usize = self.keys.len();
        let ghost want = id_rows(self.keys@, key_row());
        assert(views(items@) =~= want.take(0));
        while i < n
            invariant
                i <= n == self.keys.order().len(),
                self.keys.order() == id_order(self.keys@.dom()),
                want == id_rows(self.keys@, key_row()),
                views(items@) == want.take(i as int),
            decreases n - i,
        {
            let ghost before = views(items@);
            let k: u64 = self.keys.key_at(i);
            let key = self.keys.value_at(i);
            proof {
                lemma_key_view(*key);
            }
            let row = Cbor::map2("key_id", Cbor::U64(k), "material", Cbor::bytes(bytes_of(key)));
            items.push(row);
            assert(views(items@) =~= before.push(row@));
            i += 1;
            assert(want.take(i as int) =~= want.take(i - 1).push(want[i - 1]));
        }
        assert(want.take(n as int) =~= want);
        Cbor::map3(
            "active_key_id",
            Cbor::U64(self.active_key_id),
            "last_rotated_at",
            Cbor::U64(self.last_rotated_at),
            "keys",
            Cbor::arr(items),
        )
    }

    pub fn from_cbor(c: &Cbor) -> (r: UcResult<KeyRing>)
        ensures
            agrees(r, RingV::read(c@)),
            r is Ok ==> r->Ok_0@.held(),
    {
        let mut keys: IdMap<[u8; 32]> = IdMap::new();
        if let Some(items) = c.opt_array("keys") {
            let ghost all = views(items@);
            let mut i: usize = 0;
            while i < items.len()
                invariant
                    i <= items@.len(),
                    all == views(items@),
                    c@.array_field("keys"@) == Some(all),
                    id_unrows(all.take(i as int), key_read()) == (keys@, None::<ErrV>),
                    forall|k: u64| #[trigger] keys@.contains_key(k) ==> keys@[k].len() == 32,
                decreases items.len() - i,
            {
                proof {
                    assert(all.take(i + 1).drop_last() =~= all.take(i as int));
                    assert(all.take(i + 1).last() == items@[i as int]@);
                    if id_unrows(all.take(i + 1), key_read()).1 is Some {
                        lemma_id_unrows_stops(all, key_read(), i + 1);
                    }
                }
                let item = &items[i];
                let id: u64 = match item.req_u64("key_id") {
                    Ok(x) => x,
                    Err(e) => {
                        return Err(e);
                    },
                };
                let raw = match item.get("material") {
                    Some(v) => match v.as_bytes() {
                        Some(b) => b,
                        None => {
                            return Err(UcError::schema("kms keyring: missing key material"));
                        },
                    },
                    None => {
                        return Err(UcError::schema("kms keyring: missing key material"));
                    },
                };
                if raw.len() != 32 {
                    return Err(UcError::schema("kms keyring: key material must be 32 bytes"));
                }
                let key = first_32(raw);
                proof {
                    assert(raw@.take(32) =~= raw@);
                    lemma_key_view(key);
                }
                keys.insert(id, key);
                i += 1;
            }
            assert(all.take(all.len() as int) =~= all);
        }
        let active_key_id: u64 = c.u64_or_zero("active_key_id");
        if keys.len() > 0 && !keys.contains_key(active_key_id) {
            return Err(
                UcError::schema(
                    cat3(
                        "kms keyring: active key id ",
                        u64_text(active_key_id).as_str(),
                        " missing from key set",
                    ).as_str(),
                ),
            );
        }
        Ok(
            KeyRing {
                active_key_id,
                last_rotated_at: c.u64_or_zero("last_rotated_at"),
                keys,
            },
        )
    }

    fn derive(&self, id: u64, purpose: &str) -> (r: Option<[u8; 32]>)
        ensures
            match r {
                Some(k) => self@.keys.contains_key(id) && k@ == self@.derived(id, purpose@),
                None => !self@.keys.contains_key(id),
            },
    {
        match self.keys.get(id) {
            Some(k) => {
                proof {
                    lemma_key_view(*k);
                }
                Some(hmac_sha256(k, purpose.as_bytes()))
            },
            None => None,
        }
    }
}

fn open_with(key: &[u8; 32], b: &[u8], off: usize) -> (r: Option<Vec<u8>>)
    requires
        off <= 9,
    ensures
        match r {
            Some(p) => opened_with(key@, b@, off as int) == Some(p@),
            None => opened_with(key@, b@, off as int) is None,
        },
{
    if b.len() < off + 44 {
        return None;
    }
    let mut nonce: [u8; 12] = [0u8; 12];
    let mut i: usize = 0;
    while i < 12
        invariant
            i <= 12,
            off <= 9,
            off + 44 <= b@.len(),
            forall|j: int| 0 <= j < i ==> nonce@[j] == b@[off + j],
        decreases 12 - i,
    {
        nonce[i] = b[off + i];
        i += 1;
    }
    assert(nonce@ =~= b@.subrange(off as int, off + 12));
    let end: usize = b.len() - 32;
    let ct = slice_of(b, off + 12, end);
    let mut covered: Vec<u8> = Vec::new();
    push_all(&mut covered, &nonce);
    push_all(&mut covered, ct.as_slice());
    assert(covered@ =~= nonce@ + ct@);
    let mac = hmac_sha256(key, covered.as_slice());
    let stored = slice_of(b, end, b.len());
    assert(stored@ =~= b@.skip(b@.len() - 32));
    if !ct_eq(&mac, stored.as_slice()) {
        return None;
    }
    Some(chacha20_xor(key, &nonce, 1, ct.as_slice()))
}

/// A signature over a batch of records.
#[derive(Clone, Copy, Debug, PartialEq, Eq)]
pub struct BatchSignature {
    pub key_id: u64,
    pub mac: [u8; 32],
}

/// When the node key was and will be rotated.
#[derive(Clone, Copy, Debug, PartialEq, Eq, Structural)]
pub struct RotationStatus {
    pub active_key_id: u64,
    pub key_versions: u64,
    pub last_rotated_at: u64,
    pub rotation_interval_ops: u64,
    pub next_due_at: u64,
    pub overdue: bool,
}

/// A rotation that was done.
#[derive(Clone, Copy, Debug, PartialEq, Eq, Structural)]
pub struct RotationEvent {
    pub previous_key_id: u64,
    pub active_key_id: u64,
    pub logical_at: u64,
    pub emergency: bool,
}

impl DeepView for RotationEvent {
    type V = RotationEvent;

    open spec fn deep_view(&self) -> RotationEvent {
        *self
    }
}

/// The tier signs batches.
pub open spec fn signs(tier: EncryptionTier) -> bool {
    tier is T2 || tier is T3
}

/// The MAC of a batch under a node key.
pub open spec fn batch_mac(ring: RingV, id: u64, hash: Seq<u8>) -> Seq<u8> {
    hmac_of(ring.derived(id, "cross_check.batch"@), hash)
}

/// Whether a signature in its text form is one that some key of the ring gives.
pub open spec fn vouched(custody: (EncryptionTier, RingV), hmac: Seq<char>, hash: Seq<u8>) -> bool {
    signs(custody.0) && exists|id: u64| #[trigger]
        custody.1.keys.contains_key(id) && hmac == hex_text(batch_mac(custody.1, id, hash))
}

/// Key custody.
#[derive(Debug)]
pub struct Kms {
    tier: EncryptionTier,
    ring: KeyRing,
}

impl View for Kms {
    type V = (EncryptionTier, RingV);

    closed spec fn view(&self) -> (EncryptionTier, RingV) {
        (self.tier, self.ring@)
    }
}

impl Kms {
    /// Custody of a ring; in the clear tier the ring is empty.
    pub fn new(tier: EncryptionTier, ring: KeyRing) -> (r: Self)
        ensures
            r@ == (tier, if tier is T0 { RingV::empty() } else { ring@ }),
    {
        if tier == EncryptionTier::T0 {
            Kms { tier, ring: KeyRing::empty() }
        } else {
            Kms { tier, ring }
        }
    }

    pub fn tier(&self) -> (r: EncryptionTier)
        ensures
            r == self@.0,
    {
        self.tier
    }

    /// The ring as it has to be kept.
    pub fn keyring_cbor(&self) -> (r: Cbor)
        ensures
            r@ == self@.1.value(),
    {
        self.ring.to_cbor()
    }

    pub fn active_key_id(&self) -> (r: Option<u64>)
        ensures
            r == if self@.0 is T0 { None } else { Some(self@.1.active) },
    {
        if self.tier == EncryptionTier::T0 {
            None
        } else {
            Some(self.ring.active_key_id)
        }
    }

    pub fn key_versions(&self) -> (r: usize)
        ensures
            r == self@.1.keys.dom().len(),
    {
        self.ring.keys.len()
    }

    /// When the key is due; only the rotating tier has a schedule.
    pub fn rotation_status(&self, logical_at: u64) -> (r: Option<RotationStatus>)
        ensures
            r is Some <==> self@.0 is T3,
            r is Some ==> {
                let due = if self@.1.last_rotated_at + T3_ROTATION_INTERVAL_OPS > u64::MAX {
                    u64::MAX as int
                } else {
                    self@.1.last_rotated_at + T3_ROTATION_INTERVAL_OPS
                };
                r->0 == (RotationStatus {
                    active_key_id: self@.1.active,
                    key_versions: self@.1.keys.dom().len() as u64,
                    last_rotated_at: self@.1.last_rotated_at,
                    rotation_interval_ops: T3_ROTATION_INTERVAL_OPS,
                    next_due_at: due as u64,
                    overdue: logical_at >= due,
                })
            },
    {
        if self.tier != EncryptionTier::T3 {
            return None;
        }
        let next_due_at: u64 = self.ring.last_rotated_at.saturating_add(T3_ROTATION_INTERVAL_OPS);
        Some(
            RotationStatus {
                active_key_id: self.ring.active_key_id,
                key_versions: self.ring.keys.len() as u64,
                last_rotated_at: self.ring.last_rotated_at,
                rotation_interval_ops: T3_ROTATION_INTERVAL_OPS,
                next_due_at,
                overdue: logical_at >= next_due_at,
            },
        )
    }

    /// The bytes that fresh key material is drawn with.
    pub fn rotation_seed(&self, logical_at: u64, emergency: bool) -> (r: Vec<u8>)
        ensures
            r@ == le_bytes(logical_at as nat, 8) + le_bytes(self@.1.active as nat, 8) + seq![
                if emergency {
                    1u8
                } else {
                    0u8
                },
            ],
    {
        let mut seed: Vec<u8> = Vec::new();
        push_le(&mut seed, logical_at, 8);
        push_le(&mut seed, self.ring.active_key_id, 8);
        seed.push(if emergency { 1 } else { 0 });
        assert(seed@ =~= le_bytes(logical_at as nat, 8) + le_bytes(self@.1.active as nat, 8) + seq![
            if emergency {
                1u8
            } else {
                0u8
            },
        ]);
        seed
    }

    /// Takes a new node key into use; the old ones stay.
    pub fn rotate(&mut self, logical_at: u64, emergency: bool, key: [u8; 32]) -> (r: UcResult<
        RotationEvent,
    >)
        requires
            old(self)@.1.next_id() <= u64::MAX,
        ensures
            final(self)@.0 == old(self)@.0,
            old(self)@.1.held() ==> final(self)@.1.held(),
            if old(self)@.0 is T0 {
                final(self)@ == old(self)@ && agrees(
                    r,
                    Err((ErrCode::Unimplemented, "cannot rotate keys in encryption_tier T0"@)),
                )
            } else {
                &&& final(self)@.1 == old(self)@.1.rotated(logical_at, key@)
                &&& agrees(
                    r,
                    Ok(
                        RotationEvent {
                            previous_key_id: old(self)@.1.active,
                            active_key_id: old(self)@.1.next_id() as u64,
                            logical_at,
                            emergency,
                        },
                    ),
                )
            },
    {
        if self.tier == EncryptionTier::T0 {
            return Err(UcError::unsupported("cannot rotate keys in encryption_tier T0"));
        }
        let ghost was = self@.1;
        let previous_key_id: u64 = self.ring.active_key_id;
        let n: usize = self.ring.keys.len();
        let top: u64 = if n == 0 { 0 } else { self.ring.keys.key_at(n - 1) };
        let base: u64 = if top > previous_key_id { top } else { previous_key_id };
        let active_key_id: u64 = base + 1;
        proof {
            lemma_key_view(key);
        }
        self.ring.keys.insert(active_key_id, key);
        self.ring.active_key_id = active_key_id;
        self.ring.last_rotated_at = logical_at;
        assert(self@.1 =~= was.rotated(logical_at, key@));
        proof {
            if was.held() {
                let turns = seq![(logical_at, key@)];
                assert(turns.drop_last() =~= Seq::empty());
                reveal_with_fuel(RingV::turned, 2);
                reveal_with_fuel(RingV::turnable, 2);
                was.lemma_turned(turns);
            }
        }
        Ok(RotationEvent { previous_key_id, active_key_id, logical_at, emergency })
    }

    /// The key for a purpose; without a node key, a fixed development key.
    pub fn subkey(&self, purpose: &str) -> (r: [u8; 32])
        ensures
            r@ == if self@.1.keys.contains_key(self@.1.active) {
                self@.1.derived(self@.1.active, purpose@)
            } else {
                hmac_of(Seq::new(32, |i: int| 0u8), encode_utf8(purpose@))
            },
    {
        match self.ring.derive(self.ring.active_key_id, purpose) {
            Some(k) => k,
            None => {
                let zero: [u8; 32] = [0u8; 32];
                assert(zero@ =~= Seq::new(32, |i: int| 0u8));
                hmac_sha256(&zero, purpose.as_bytes())
            },
        }
    }

    /// Seals a payload.
    pub fn seal(&self, purpose: &str, nonce_seed: u64, plaintext: &[u8]) -> (r: Vec<u8>)
        ensures
            r@ == self@.1.sealed(purpose@, nonce_seed, plaintext@),
    {
        let mut out: Vec<u8> = Vec::new();
        match self.ring.derive(self.ring.active_key_id, purpose) {
            None => {
                out.push(0);
                push_all(&mut out, plaintext);
                assert(out@ =~= seq![0u8] + plaintext@);
            },
            Some(key) => {
                let mut seed: Vec<u8> = Vec::new();
                push_le(&mut seed, nonce_seed, 8);
                assert(seed@ =~= le_bytes(nonce_seed as nat, 8));
                proof {
                    lemma_pow256();
                    lemma_le_round_trip(nonce_seed as nat, 8);
                }
                let mut nonce: [u8; 12] = [0u8; 12];
                let mut i: usize = 0;
                while i < 8
                    invariant
                        i <= 8,
                        seed@.len() == 8,
                        forall|j: int| 0 <= j < i ==> nonce@[j] == seed@[j],
                        forall|j: int| i <= j < 12 ==> nonce@[j] == 0,
                    decreases 8 - i,
                {
                    nonce[i] = seed[i];
                    i += 1;
                }
                assert(nonce@ =~= nonce_of(nonce_seed));
                let ct = chacha20_xor(&key, &nonce, 1, plaintext);
                let mut covered: Vec<u8> = Vec::new();
                push_all(&mut covered, &nonce);
                push_all(&mut covered, ct.as_slice());
                assert(covered@ =~= nonce@ + ct@);
                let mac = hmac_sha256(&key, covered.as_slice());
                out.push(2);
                push_le(&mut out, self.ring.active_key_id, 8);
                push_all(&mut out, &nonce);
                push_all(&mut out, ct.as_slice());
                push_all(&mut out, &mac);
                assert(out@ =~= self@.1.sealed(purpose@, nonce_seed, plaintext@));
            },
        }
        out
    }

    /// Opens a sealed payload.
    pub fn unseal(&self, purpose: &str, sealed: &[u8]) -> (r: UcResult<Vec<u8>>)
        ensures
            match (r, self@.1.opened(purpose@, sealed@)) {
                (Ok(a), Ok(b)) => a@ == b,
                (Err(e), Err(w)) => e.plain(w.0, w.1),
                _ => false,
            },
    {
        if sealed.len() == 0 {
            return Err(UcError::internal("unseal: empty"));
        }
        match sealed[0] {
            0 => {
                let p = slice_of(sealed, 1, sealed.len());
                assert(p@ =~= sealed@.skip(1));
                Ok(p)
            },
            1 => {
                if sealed.len() < 45 {
                    return Err(UcError::internal("unseal: truncated"));
                }
                let n: usize = self.ring.keys.len();
                let ghost o = id_order(self@.1.keys.dom());
                let mut i: usize = 0;
                assert(o.skip(0) =~= o);
                while i < n
                    invariant
                        i <= n == self.ring.keys.order().len(),
                        o == self.ring.keys.order(),
                        o == id_order(self@.1.keys.dom()),
                        sealed@.len() >= 45,
                        sealed@[0] == 1,
                        self@.1.first_opened(o, purpose@, sealed@) == self@.1.first_opened(
                            o.skip(i as int),
                            purpose@,
                            sealed@,
                        ),
                    decreases n - i,
                {
                    let id: u64 = self.ring.keys.key_at(i);
                    assert(o.skip(i as int)[0] == id);
                    assert(o.skip(i as int).skip(1) =~= o.skip(i + 1));
                    if let Some(key) = self.ring.derive(id, purpose) {
                        if let Some(p) = open_with(&key, sealed, 1) {
                            return Ok(p);
                        }
                    }
                    i += 1;
                }
                Err(UcError::internal("unseal: hmac mismatch (tampered?)"))
            },
            2 => {
                if sealed.len() < 53 {
                    return Err(UcError::internal("unseal: truncated"));
                }
                let id: u64 = read_le(sealed, 1, 8);
                match self.ring.derive(id, purpose) {
                    None => Err(
                        UcError::internal(
                            cat2("unseal: unknown key id ", u64_text(id).as_str()).as_str(),
                        ),
                    ),
                    Some(key) => match open_with(&key, sealed, 9) {
                        Some(p) => Ok(p),
                        None => Err(UcError::internal("unseal: hmac mismatch (tampered?)")),
                    },
                }
            },
            other => Err(
                UcError::internal(
                    cat2("unseal: bad marker ", u64_text(other as u64).as_str()).as_str(),
                ),
            ),
        }
    }

    /// Signs the digest of a batch, where the tier signs and there is a key.
    pub fn batch_sign(&self, records_hash: &[u8; 32]) -> (r: Option<BatchSignature>)
        ensures
            r is Some <==> signs(self@.0) && self@.1.keys.contains_key(self@.1.active),
            r is Some ==> r->0.key_id == self@.1.active && r->0.mac@ == batch_mac(
                self@.1,
                self@.1.active,
                records_hash@,
            ),
    {
        if self.tier == EncryptionTier::T2 || self.tier == EncryptionTier::T3 {
            match self.ring.derive(self.ring.active_key_id, "cross_check.batch") {
                Some(key) => Some(
                    BatchSignature {
                        key_id: self.ring.active_key_id,
                        mac: hmac_sha256(&key, records_hash),
                    },
                ),
                None => None,
            }
        } else {
            None
        }
    }

    /// Whether a signature is the one that its key gives for this digest.
    pub fn verify_batch_signature(&self, signature: &BatchSignature, records_hash: &[u8; 32]) -> (r: bool)
        ensures
            r == (signs(self@.0) && self@.1.keys.contains_key(signature.key_id)
                && signature.mac@ == batch_mac(self@.1, signature.key_id, records_hash@)),
    {
        if self.tier != EncryptionTier::T2 && self.tier != EncryptionTier::T3 {
            return false;
        }
        match self.ring.derive(signature.key_id, "cross_check.batch") {
            Some(key) => {
                let want = hmac_sha256(&key, records_hash);
                ct_eq(&want, &signature.mac)
            },
            None => false,
        }
    }

    /// Whether a signature in its text form is one that a key of the ring gives.
    pub fn vouches(&self, hmac: &str, records_hash: &[u8; 32]) -> (r: bool)
        ensures
            r == vouched(self@, hmac@, records_hash@),
    {
        if self.tier != EncryptionTier::T2 && self.tier != EncryptionTier::T3 {
            return false;
        }
        let n: usize = self.ring.keys.len();
        let mut i: usize = 0;
        while i < n
            invariant
                i <= n == self.ring.keys.order().len(),
                lists(self.ring.keys.order(), self@.1.keys.dom()),
                forall|j: int|
                    0 <= j < i ==> hmac@ != hex_text(
                        batch_mac(self@.1, #[trigger] self.ring.keys.order()[j], records_hash@),
                    ),
                signs(self@.0),
            decreases n - i,
        {
            let id: u64 = self.ring.keys.key_at(i);
            if let Some(key) = self.ring.derive(id, "cross_check.batch") {
                let want = hex(&hmac_sha256(&key, records_hash));
                if str_eq(want.as_str(), hmac) {
                    assert(self@.1.keys.contains_key(id));
                    assert(hmac@ == hex_text(batch_mac(self@.1, id, records_hash@)));
                    return true;
                }
            }
            i += 1;
        }
        proof {
            let o = self.ring.keys.order();
            assert forall|id: u64| #[trigger] self@.1.keys.contains_key(id) implies hmac@
                != hex_text(batch_mac(self@.1, id, records_hash@)) by {
                assert(self@.1.keys.dom().contains(id));
                assert(o.contains(id));
                let j = o.index_of(id);
                assert(o[j] == id);
            }
        }
        false
    }

    /// External wrapping is only meaningful for the rotating tier.
    pub fn wrap_external(&self) -> (r: UcResult<()>)
        ensures
            agrees(
                r,
                if self@.0 is T3 {
                    Ok(())
                } else {
                    Err(
                        (
                            ErrCode::Unimplemented,
                            "external wrapping is only meaningful for encryption_tier T3"@,
                        ),
                    )
                },
            ),
    {
        if self.tier == EncryptionTier::T3 {
            Ok(())
        } else {
            Err(
                UcError::unsupported(
                    "external wrapping is only meaningful for encryption_tier T3",
                ),
            )
        }
    }
}

/// A batch signature is verified after any number of rotations.
pub proof fn lemma_signature_lasts(ring: RingV, turns: Seq<(u64, Seq<u8>)>, hash: Seq<u8>)
    requires
        ring.held(),
        ring.turnable(turns),
        ring.keys.contains_key(ring.active),
    ensures
        ring.turned(turns).keys.contains_key(ring.active),
        batch_mac(ring.turned(turns), ring.active, hash) == batch_mac(ring, ring.active, hash),
{
    ring.lemma_turned(turns);
}

/// A signature made before a rotation is still the one that its key gives
/// after it.
pub proof fn lemma_signature_survives(ring: RingV, at: u64, key: Seq<u8>, hash: Seq<u8>)
    requires
        ring.keys.dom().finite(),
        ring.next_id() <= u64::MAX,
        ring.keys.contains_key(ring.active),
    ensures
        ring.rotated(at, key).keys.contains_key(ring.active),
        batch_mac(ring.rotated(at, key), ring.active, hash) == batch_mac(ring, ring.active, hash),
{
    ring.lemma_rotation_preserves(Seq::empty(), 0, Seq::empty(), at, key);
}

} // verus!
