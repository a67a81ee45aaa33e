//! The manifest: a node's identity, where it stood, and whether it was shut
//! down cleanly.

use vstd::prelude::*;
use crate::cbor::{
    lookup_from, map_value, missing_text, missing_uint, opt_text_value, views, Cbor, CborV,
};
use crate::cells::blob::{bytes_of, first_32};
use crate::codec::{enc, value_of};
use crate::codec_laws::{
    canon, fits, lemma_bytes_back, lemma_canon_field, lemma_short_text, text_keys,
};
use crate::idmap::{id_order, id_rows, lemma_finite_listed, lemma_listed_finite, IdMap};
use crate::vocab::{agrees, ErrCode, ErrV, UcResult};

verus! {

/// A manifest.
#[derive(Debug)]
pub struct Manifest {
    pub node_id: String,
    pub proto_version: u64,
    pub logical_at: u64,
    pub clean_shutdown: bool,
    pub encryption_tier: String,
    pub shard_count: u64,
    /// The digest of each cell's state at the last clean shutdown.
    pub state_hashes: IdMap<[u8; 32]>,
    /// The last durable snapshot, if any.
    pub last_snapshot: Option<String>,
}

#[verifier::ext_equal]
pub struct ManifestV {
    pub node_id: Seq<char>,
    pub proto_version: u64,
    pub logical_at: u64,
    pub clean_shutdown: bool,
    pub encryption_tier: Seq<char>,
    pub shard_count: u64,
    pub state_hashes: Map<u64, Seq<u8>>,
    pub last_snapshot: Option<Seq<char>>,
}

impl DeepView for Manifest {
    type V = ManifestV;

    open spec fn deep_view(&self) -> ManifestV {
        ManifestV {
            node_id: self.node_id@,
            proto_version: self.proto_version,
            logical_at: self.logical_at,
            clean_shutdown: self.clean_shutdown,
            encryption_tier: self.encryption_tier@,
            shard_count: self.shard_count,
            state_hashes: self.state_hashes@,
            last_snapshot: self.last_snapshot.deep_view(),
        }
    }
}

/// The row of a cell's digest.
pub open spec fn hash_row() -> spec_fn(u64, Seq<u8>) -> CborV {
    |k: u64, h: Seq<u8>|
        map_value(seq![("cell_id"@, CborV::U64(k)), ("sha256"@, CborV::Bytes(h))])
}

/// The digests in rows from `i` on, put over those read so far. A row without a
/// whole digest is passed over; one without a cell ends the reading.
pub open spec fn hashes_from(rows: Seq<CborV>, i: int, so_far: Map<u64, Seq<u8>>) -> Result<
    Map<u64, Seq<u8>>,
    ErrV,
>
    decreases rows.len() - i,
{
    if i < 0 || i >= rows.len() {
        Ok(so_far)
    } else {
        match rows[i].u64_field("cell_id"@) {
            None => Err((ErrCode::Internal, missing_uint("cell_id"@))),
            Some(k) => hashes_from(
                rows,
                i + 1,
                match rows[i].bytes_field("sha256"@) {
                    Some(b) if b.len() == 32 => so_far.insert(k, b),
                    _ => so_far,
                },
            ),
        }
    }
}

impl ManifestV {
    /// The encoded form of a manifest.
    pub open spec fn value(self) -> CborV {
        map_value(
            seq![
                ("node_id"@, CborV::Text(self.node_id)),
                ("proto_version"@, CborV::U64(self.proto_version)),
                ("logical_at"@, CborV::U64(self.logical_at)),
                ("clean_shutdown"@, CborV::Bool(self.clean_shutdown)),
                ("encryption_tier"@, CborV::Text(self.encryption_tier)),
                ("shard_count"@, CborV::U64(self.shard_count)),
                ("state_hashes"@, CborV::Array(id_rows(self.state_hashes, hash_row()))),
                ("last_snapshot"@, opt_text_value(self.last_snapshot)),
            ],
        )
    }

    /// What an encoded form says.
    pub open spec fn read(v: CborV) -> Result<ManifestV, ErrV> {
        if v.text_field("node_id"@) is None {
            Err((ErrCode::Internal, missing_text("node_id"@)))
        } else if v.u64_field("proto_version"@) is None {
            Err((ErrCode::Internal, missing_uint("proto_version"@)))
        } else if v.u64_field("logical_at"@) is None {
            Err((ErrCode::Internal, missing_uint("logical_at"@)))
        } else {
            match hashes_from(
                match v.array_field("state_hashes"@) {
                    Some(a) => a,
                    None => Seq::empty(),
                },
                0,
                Map::empty(),
            ) {
                Err(e) => Err(e),
                Ok(state_hashes) => Ok(
                    ManifestV {
                        node_id: v.text_field("node_id"@)->0,
                        proto_version: v.u64_field("proto_version"@)->0,
                        logical_at: v.u64_field("logical_at"@)->0,
                        clean_shutdown: match v.bool_field("clean_shutdown"@) {
                            Some(b) => b,
                            None => false,
                        },
                        encryption_tier: match v.text_field("encryption_tier"@) {
                            Some(t) => t,
                            None => "T0"@,
                        },
                        shard_count: match v.u64_field("shard_count"@) {
                            Some(n) => n,
                            None => 2,
                        },
                        state_hashes,
                        last_snapshot: v.text_field("last_snapshot"@),
                    },
                ),
            }
        }
    }

    /// A manifest with whole digests is read back from its bytes.
    pub proof fn lemma_load_save(self)
        requires
            self.state_hashes.dom().finite(),
            forall|k: u64| #[trigger]
                self.state_hashes.contains_key(k) ==> self.state_hashes[k].len() == 32,
            fits(self.value()),
        ensures
            value_of(enc(self.value())) is Ok,
            ManifestV::read(value_of(enc(self.value()))->Ok_0) == Ok::<_, ErrV>(self),
    {
        let v = self.value();
        lemma_bytes_back(v);
        let m = v->Pairs_0;
        reveal_strlit("node_id");
        reveal_strlit("proto_version");
        reveal_strlit("logical_at");
        reveal_strlit("clean_shutdown");
        reveal_strlit("encryption_tier");
        reveal_strlit("shard_count");
        reveal_strlit("state_hashes");
        reveal_strlit("last_snapshot");
        assert("node_id"@.len() == 7);
        assert("proto_version"@.len() == 13);
        assert("logical_at"@.len() == 10);
        assert("clean_shutdown"@.len() == 14);
        assert("encryption_tier"@.len() == 15);
        assert("shard_count"@.len() == 11);
        assert("state_hashes"@.len() == 12);
        assert("last_snapshot"@.len() == 13);
        assert("proto_version"@[0] != "last_snapshot"@[0]);
        reveal_with_fuel(lookup_from, 9);
        assert(m[0].0 == CborV::Text("node_id"@));
        assert(m[1].0 == CborV::Text("proto_version"@));
        assert(m[2].0 == CborV::Text("logical_at"@));
        assert(m[3].0 == CborV::Text("clean_shutdown"@));
        assert(m[4].0 == CborV::Text("encryption_tier"@));
        assert(m[5].0 == CborV::Text("shard_count"@));
        assert(m[6].0 == CborV::Text("state_hashes"@));
        assert(m[7].0 == CborV::Text("last_snapshot"@));
        assert(v.field("node_id"@) == Some(CborV::Text(self.node_id)));
        assert(v.field("proto_version"@) == Some(CborV::U64(self.proto_version)));
        assert(v.field("logical_at"@) == Some(CborV::U64(self.logical_at)));
        assert(v.field("clean_shutdown"@) == Some(CborV::Bool(self.clean_shutdown)));
        assert(v.field("encryption_tier"@) == Some(CborV::Text(self.encryption_tier)));
        assert(v.field("shard_count"@) == Some(CborV::U64(self.shard_count)));
        assert(v.field("state_hashes"@) == Some(CborV::Array(id_rows(self.state_hashes, hash_row()))));
        assert(v.field("last_snapshot"@) == Some(opt_text_value(self.last_snapshot)));
        assert(text_keys(m)) by {
            assert forall|i: int| 0 <= i < m.len() implies (#[trigger] m[i]).0 is Text && fits(
                m[i].0,
            ) by {}
        }
        lemma_canon_field(m, "node_id"@);
        lemma_canon_field(m, "proto_version"@);
        lemma_canon_field(m, "logical_at"@);
        lemma_canon_field(m, "clean_shutdown"@);
        lemma_canon_field(m, "encryption_tier"@);
        lemma_canon_field(m, "shard_count"@);
        lemma_canon_field(m, "state_hashes"@);
        lemma_canon_field(m, "last_snapshot"@);
        let rows = id_rows(self.state_hashes, hash_row());
        let back = canon(CborV::Array(rows))->Array_0;
        assert(back.len() == rows.len());
        assert forall|i: int| 0 <= i < rows.len() implies #[trigger] back[i] == canon(
            rows[i],
        ) by {}
        self.lemma_rows_back(back, 0, Map::empty());
    }

    proof fn lemma_rows_back(self, back: Seq<CborV>, i: int, so_far: Map<u64, Seq<u8>>)
        requires
            self.state_hashes.dom().finite(),
            forall|k: u64| #[trigger]
                self.state_hashes.contains_key(k) ==> self.state_hashes[k].len() == 32,
            back.len() == id_order(self.state_hashes.dom()).len(),
            forall|j: int|
                0 <= j < back.len() ==> #[trigger] back[j] == canon(
                    id_rows(self.state_hashes, hash_row())[j],
                ),
            0 <= i <= back.len(),
            forall|k: u64| #[trigger]
                so_far.contains_key(k) <==> id_order(self.state_hashes.dom()).take(i).contains(k),
            forall|k: u64| #[trigger]
                so_far.contains_key(k) ==> so_far[k] == self.state_hashes[k],
        ensures
            hashes_from(back, i, so_far) == Ok::<_, ErrV>(self.state_hashes),
        decreases back.len() - i,
    {
        let o = id_order(self.state_hashes.dom());
        lemma_finite_listed(self.state_hashes.dom());
        lemma_listed_finite(o, self.state_hashes.dom());
        if i < back.len() {
            let k = o[i];
            assert(o.contains(k));
            assert(self.state_hashes.dom().contains(k));
            let row = hash_row()(k, self.state_hashes[k]);
            let m = row->Pairs_0;
            reveal_strlit("cell_id");
            reveal_strlit("sha256");
            assert("cell_id"@.len() == 7);
            assert("sha256"@.len() == 6);
            reveal_with_fuel(lookup_from, 3);
            assert(m[0].0 == CborV::Text("cell_id"@));
            assert(m[1].0 == CborV::Text("sha256"@));
            assert(row.field("cell_id"@) == Some(CborV::U64(k)));
            assert(row.field("sha256"@) == Some(CborV::Bytes(self.state_hashes[k])));
            lemma_short_keys();
            assert(text_keys(m));
            lemma_canon_field(m, "cell_id"@);
            lemma_canon_field(m, "sha256"@);
            let next = so_far.insert(k, self.state_hashes[k]);
            assert(o.take(i + 1) =~= o.take(i).push(k));
            assert forall|x: u64| #[trigger] next.contains_key(x) <==> o.take(i + 1).contains(x) by {
                lemma_push_contains(o.take(i), k, x);
            }
            self.lemma_rows_back(back, i + 1, next);
        } else {
            assert(o.take(i) =~= o);
            assert forall|x: u64| #[trigger] so_far.contains_key(x)
                <==> self.state_hashes.contains_key(x) by {
                assert(self.state_hashes.dom().contains(x) <==> o.contains(x));
            }
            assert(so_far =~= self.state_hashes);
        }
    }
}

proof fn lemma_push_contains(a: Seq<u64>, k: u64, x: u64)
    ensures
        a.push(k).contains(x) == (a.contains(x) || x == k),
{
    if a.contains(x) {
        let j = choose|j: int| 0 <= j < a.len() && a[j] == x;
        assert(a.push(k)[j] == x);
    }
    assert(a.push(k)[a.len() as int] == k);
}

proof fn lemma_short_keys()
    ensures
        fits(CborV::Text("cell_id"@)),
        fits(CborV::Text("sha256"@)),
{
    reveal_strlit("cell_id");
    reveal_strlit("sha256");
    lemma_short_text("cell_id"@);
    lemma_short_text("sha256"@);
}

impl Manifest {
    pub fn to_cbor(&self) -> (r: Cbor)
        ensures
            r@ == self.deep_view().value(),
            self.deep_view().state_hashes.dom().finite(),
    {
        let mut items: Vec<Cbor> = Vec::new();
        let mut i: usize = 0;
        let n: usize = self.state_hashes.len();
        let ghost want = id_rows(self.state_hashes@, hash_row());
        assert(views(items@) =~= want.take(0));
        while i < n
            invariant
                i <= n == self.state_hashes.order().len(),
                self.state_hashes.order() == id_order(self.state_hashes@.dom()),
                want == id_rows(self.state_hashes@, hash_row()),
                views(items@) == want.take(i as int),
            decreases n - i,
        {
            let ghost before = views(items@);
            let k: u64 = self.state_hashes.key_at(i);
            let h = self.state_hashes.value_at(i);
            assert(h.deep_view() =~= h@);
            let row = Cbor::map2("cell_id", Cbor::U64(k), "sha256", Cbor::bytes(bytes_of(h)));
            items.push(row);
            assert(views(items@) =~= before.push(row@));
            i += 1;
            assert(want.take(i as int) =~= want.take(i - 1).push(want[i - 1]));
        }
        assert(want.take(n as int) =~= want);
        let pairs = vec![
            ("node_id", Cbor::t(self.node_id.as_str())),
            ("proto_version", Cbor::U64(self.proto_version)),
            ("logical_at", Cbor::U64(self.logical_at)),
            ("clean_shutdown", Cbor::Bool(self.clean_shutdown)),
            ("encryption_tier", Cbor::t(self.encryption_tier.as_str())),
            ("shard_count", Cbor::U64(self.shard_count)),
            ("state_hashes", Cbor::arr(items)),
            ("last_snapshot", Cbor::opt_text(&self.last_snapshot)),
        ];
        let ghost got = Seq::new(pairs@.len(), |i: int| (pairs@[i].0@, pairs@[i].1@));
        let r = Cbor::map(pairs);
        proof {
            let v = self.deep_view();
            assert(got =~= seq![
                ("node_id"@, CborV::Text(v.node_id)),
                ("proto_version"@, CborV::U64(v.proto_version)),
                ("logical_at"@, CborV::U64(v.logical_at)),
                ("clean_shutdown"@, CborV::Bool(v.clean_shutdown)),
                ("encryption_tier"@, CborV::Text(v.encryption_tier)),
                ("shard_count"@, CborV::U64(v.shard_count)),
                ("state_hashes"@, CborV::Array(id_rows(v.state_hashes, hash_row()))),
                ("last_snapshot"@, opt_text_value(v.last_snapshot)),
            ]);
        }
        r
    }

    pub fn from_cbor(c: &Cbor) -> (r: UcResult<Manifest>)
        ensures
            agrees(r, ManifestV::read(c@)),
    {
        let node_id: String = match c.req_str("node_id") {
            Ok(x) => x,
            Err(e) => {
                return Err(e);
            },
        };
        let proto_version: u64 = match c.req_u64("proto_version") {
            Ok(x) => x,
            Err(e) => {
                return Err(e);
            },
        };
        let logical_at: u64 = match c.req_u64("logical_at") {
            Ok(x) => x,
            Err(e) => {
                return Err(e);
            },
        };
        let clean_shutdown: bool = match c.opt_bool("clean_shutdown") {
            Some(b) => b,
            None => false,
        };
        let encryption_tier: String = match c.opt_str("encryption_tier") {
            Some(t) => t,
            None => "T0".to_string(),
        };
        let shard_count: u64 = match c.opt_u64("shard_count") {
            Some(n) => n,
            None => 2,
        };
        let mut state_hashes: IdMap<[u8; 32]> = IdMap::new();
        if let Some(rows) = c.opt_array("state_hashes") {
            let ghost all = views(rows@);
            let ghost whole = hashes_from(all, 0, Map::empty());
            let mut i: usize = 0;
            while i < rows.len()
                invariant
                    i <= rows@.len(),
                    all == views(rows@),
                    whole == hashes_from(all, i as int, state_hashes@),
                    whole is Err ==> ManifestV::read(c@) == Err::<ManifestV, ErrV>(whole->Err_0),
                decreases rows.len() - i,
            {
                let row = &rows[i];
                assert(all[i as int] == row@);
                let id: u64 = match row.req_u64("cell_id") {
                    Ok(x) => x,
                    Err(e) => {
                        return Err(e);
                    },
                };
                if let Some(v) = row.get("sha256") {
                    if let Some(b) = v.as_bytes() {
                        if b.len() == 32 {
                            let h = first_32(b);
                            assert(b@.take(32) =~= b@);
                            assert(h.deep_view() =~= h@);
                            state_hashes.insert(id, h);
                        }
                    }
                }
                i += 1;
            }
        }
        Ok(
            Manifest {
                node_id,
                proto_version,
                logical_at,
                clean_shutdown,
                encryption_tier,
                shard_count,
                state_hashes,
                last_snapshot: c.opt_str("last_snapshot"),
            },
        )
    }

    /// The bytes of the manifest's file.
    pub fn save(&self) -> (r: Vec<u8>)
        ensures
            r@ == enc(self.deep_view().value()),
    {
        self.to_cbor().encode()
    }

    /// The manifest that a file's bytes hold.
    pub fn load(bytes: &[u8]) -> (r: UcResult<Manifest>)
        ensures
            agrees(
                r,
                match value_of(bytes@) {
                    Err(e) => Err(e),
                    Ok(v) => ManifestV::read(v),
                },
            ),
    {
        match Cbor::decode(bytes) {
            Ok(c) => Manifest::from_cbor(&c),
            Err(e) => Err(e),
        }
    }
}

} // verus!
