//! Blobs: what is known of stored bytes, by handle. The bytes themselves are
//! kept elsewhere, under their digest.

use vstd::prelude::*;
use crate::cbor::{
    lemma_one_field, lookup_from, map_value, missing_text, text_or_empty, u64_or_zero, views, Cbor, CborV,
};
use crate::cells::{CellBehavior, CellType};
use crate::rows::{
    done, keyed, lemma_records_back, lemma_records_keyed, record_rows, records_in, rows_in, to_rows,
    Record,
};
use crate::text::{cat2};
use crate::textmap::{lists, text_order, TextMap};
use crate::vocab::{agrees, CellId, ErrCode, ErrV, SchemaId, UcError, UcResult};
use crate::hex::{hex, hex_text};

verus! {

/// What is known of a blob.
#[derive(Debug)]
pub struct BlobEntry {
    pub handle: String,
    pub sha: [u8; 32],
    pub size: u64,
    pub media: String,
}

/// What is known of a blob, as a mathematical object.
#[verifier::ext_equal]
pub struct BlobEntryV {
    pub handle: Seq<char>,
    pub sha: Seq<u8>,
    pub size: u64,
    pub media: Seq<char>,
}

impl DeepView for BlobEntry {
    type V = BlobEntryV;

    open spec fn deep_view(&self) -> BlobEntryV {
        BlobEntryV { handle: self.handle@, sha: self.sha@, size: self.size, media: self.media@ }
    }
}

/// The first 32 bytes.
pub fn first_32(b: &[u8]) -> (r: [u8; 32])
    requires
        b@.len() >= 32,
    ensures
        r@ == b@.take(32),
{
    let mut out: [u8; 32] = [0u8; 32];
    let mut i: usize = 0;
    while i < 32
        invariant
            i <= 32,
            b@.len() >= 32,
            forall|j: int| 0 <= j < i ==> out@[j] == b@[j],
        decreases 32 - i,
    {
        out[i] = b[i];
        i += 1;
    }
    assert(out@ =~= b@.take(32));
    out
}

/// The bytes of an array.
pub fn bytes_of(a: &[u8; 32]) -> (r: Vec<u8>)
    ensures
        r@ == a@,
{
    let mut out: Vec<u8> = Vec::new();
    let mut i: usize = 0;
    while i < 32
        invariant
            i <= 32,
            out@ == a@.take(i as int),
        decreases 32 - i,
    {
        out.push(a[i]);
        i += 1;
        assert(out@ =~= a@.take(i as int));
    }
    assert(a@.take(32) =~= a@);
    out
}

impl BlobEntryV {
    /// The encoded form.
    pub open spec fn value(self) -> CborV {
        map_value(
            seq![
                ("handle"@, CborV::Text(self.handle)),
                ("sha256"@, CborV::Bytes(self.sha)),
                ("size"@, CborV::U64(self.size)),
                ("media"@, CborV::Text(self.media)),
            ],
        )
    }

    /// What an encoded form says; of a longer digest the first 32 bytes.
    pub open spec fn read(v: CborV) -> Result<BlobEntryV, ErrV> {
        if v.text_field("handle"@) is None {
            Err((ErrCode::Internal, missing_text("handle"@)))
        } else {
            match v.bytes_field("sha256"@) {
                Some(b) if b.len() >= 32 => Ok(
                    BlobEntryV {
                        handle: v.text_field("handle"@)->0,
                        sha: b.take(32),
                        size: u64_or_zero(v, "size"@),
                        media: text_or_empty(v, "media"@),
                    },
                ),
                _ => Err((ErrCode::ContractViolation, "blob snapshot: missing sha256"@)),
            }
        }
    }

    /// Reading gives back what was encoded.
    pub proof fn lemma_read_back(self)
        requires
            self.sha.len() == 32,
        ensures
            BlobEntryV::read(self.value()) == Ok::<_, ErrV>(self),
            self.value().field("handle"@) == Some(CborV::Text(self.handle)),
            self.value().field("sha256"@) == Some(CborV::Bytes(self.sha)),
            self.value().field("size"@) == Some(CborV::U64(self.size)),
            self.value().field("media"@) == Some(CborV::Text(self.media)),
    {
        let m = self.value()->Pairs_0;
        reveal_strlit("handle");
        reveal_strlit("sha256");
        reveal_strlit("size");
        reveal_strlit("media");
        assert("handle"@.len() == 6);
        assert("sha256"@.len() == 6);
        assert("size"@.len() == 4);
        assert("media"@.len() == 5);
        assert("handle"@[0] != "sha256"@[0]);
        reveal_with_fuel(lookup_from, 5);
        assert(m[0].0 == CborV::Text("handle"@));
        assert(m[1].0 == CborV::Text("sha256"@));
        assert(m[2].0 == CborV::Text("size"@));
        assert(m[3].0 == CborV::Text("media"@));
        assert(self.value().field("handle"@) == Some(CborV::Text(self.handle)));
        assert(self.value().field("sha256"@) == Some(CborV::Bytes(self.sha)));
        assert(self.value().field("size"@) == Some(CborV::U64(self.size)));
        assert(self.value().field("media"@) == Some(CborV::Text(self.media)));
        assert(self.sha.take(32) =~= self.sha);
    }
}

impl BlobEntry {
    fn to_cbor(&self) -> (r: Cbor)
        ensures
            r@ == self.deep_view().value(),
    {
        Cbor::map4(
            "handle",
            Cbor::t(self.handle.as_str()),
            "sha256",
            Cbor::bytes(bytes_of(&self.sha)),
            "size",
            Cbor::U64(self.size),
            "media",
            Cbor::t(self.media.as_str()),
        )
    }

    fn from_cbor(c: &Cbor) -> (r: UcResult<BlobEntry>)
        ensures
            agrees(r, BlobEntryV::read(c@)),
    {
        let handle = match c.req_str("handle") {
            Ok(x) => x,
            Err(e) => {
                return Err(e);
            },
        };
        if let Some(v) = c.get("sha256") {
            if let Some(b) = v.as_bytes() {
                if b.len() >= 32 {
                    return Ok(
                        BlobEntry {
                            handle,
                            sha: first_32(b),
                            size: c.u64_or_zero("size"),
                            media: c.str_or_empty("media"),
                        },
                    );
                }
            }
        }
        Err(UcError::schema("blob snapshot: missing sha256"))
    }
}

impl Record for BlobEntry {
    open spec fn key_of(v: BlobEntryV) -> Seq<char> {
        v.handle
    }

    open spec fn value_of(v: BlobEntryV) -> CborV {
        v.value()
    }

    open spec fn read_of(c: CborV) -> Result<BlobEntryV, ErrV> {
        BlobEntryV::read(c)
    }

    open spec fn valid(v: BlobEntryV) -> bool {
        v.sha.len() == 32
    }

    proof fn lemma_back(v: BlobEntryV) {
        v.lemma_read_back();
    }

    fn key(&self) -> (r: String) {
        self.handle.clone()
    }

    fn to_row(&self) -> (r: Cbor) {
        self.to_cbor()
    }

    fn from_row(c: &Cbor) -> (r: UcResult<BlobEntry>) {
        BlobEntry::from_cbor(c)
    }
}

/// The state of the blobs.
pub type BlobsV = Map<Seq<char>, BlobEntryV>;

/// The handle of a blob with this digest.
pub open spec fn blob_handle(sha: Seq<u8>) -> Seq<char> {
    "blob/"@ + hex_text(sha)
}

/// One blob more, in place of one with its digest.
pub open spec fn blob_register(m: BlobsV, sha: Seq<u8>, size: u64, media: Seq<char>) -> BlobsV {
    m.insert(
        blob_handle(sha),
        BlobEntryV { handle: blob_handle(sha), sha, size, media },
    )
}

/// The answer to a query.
pub open spec fn blob_answer(m: BlobsV, q: CborV) -> Result<CborV, ErrV> {
    match q.text_field("handle"@) {
        None => Err((ErrCode::Internal, missing_text("handle"@))),
        Some(h) => if m.contains_key(h) {
            Ok(m[h].value())
        } else {
            Err((ErrCode::NotFound, "blob "@ + h))
        },
    }
}

/// The state after an update, and the reply.
pub open spec fn blob_update(m: BlobsV, u: CborV) -> (BlobsV, Result<CborV, ErrV>) {
    match u.bytes_field("sha256"@) {
        None => (m, Err((ErrCode::ContractViolation, "blob: missing sha256"@))),
        Some(b) => if b.len() != 32 {
            (m, Err((ErrCode::ContractViolation, "blob: sha256 must be 32 bytes"@)))
        } else {
            (
                blob_register(
                    m,
                    b,
                    u64_or_zero(u, "size"@),
                    match u.text_field("media"@) {
                        Some(s) => s,
                        None => "application/octet-stream"@,
                    },
                ),
                Ok(map_value(seq![("handle"@, CborV::Text(blob_handle(b)))])),
            )
        },
    }
}

/// A blob that is registered is found under the handle that the reply names, with its
/// digest, its size and its kind; the handle follows from the digest alone. Every other
/// blob stays as it was. What has no digest of 32 bytes is not registered.
pub proof fn lemma_read_your_blob(m: BlobsV, u: CborV, q: CborV, other: Seq<char>)
    ensures
        ({
            let (now, r) = blob_update(m, u);
            let sha = u.bytes_field("sha256"@);
            &&& r is Ok <==> sha is Some && sha->0.len() == 32
            &&& r is Err ==> now == m
            &&& r is Ok ==> {
                let h = r->Ok_0.text_field("handle"@)->0;
                let a = blob_answer(now, q)->Ok_0;
                &&& r->Ok_0.text_field("handle"@) is Some
                &&& h == "blob/"@ + hex_text(sha->0)
                &&& now.contains_key(h)
                &&& q.text_field("handle"@) == Some(h) ==> {
                    &&& blob_answer(now, q) is Ok
                    &&& a.text_field("handle"@) == Some(h)
                    &&& a.bytes_field("sha256"@) == sha
                    &&& a.u64_field("size"@) == Some(u64_or_zero(u, "size"@))
                    &&& u.text_field("media"@) is Some ==> a.text_field("media"@) == u.text_field(
                        "media"@,
                    )
                    &&& u.text_field("media"@) is None ==> a.text_field("media"@) == Some(
                        "application/octet-stream"@,
                    )
                }
                &&& other != h ==> (now.contains_key(other) <==> m.contains_key(other)) && (
                m.contains_key(other) ==> now[other] == m[other])
            }
        }),
{
    let (now, r) = blob_update(m, u);
    if r is Ok {
        let h = blob_handle(u.bytes_field("sha256"@)->0);
        lemma_one_field("handle"@, CborV::Text(h));
        now[h].lemma_read_back();
    }
}

/// The snapshot of the state.
pub open spec fn blob_image(m: BlobsV) -> CborV {
    map_value(seq![("blobs"@, CborV::Array(record_rows::<BlobEntry>(m)))])
}

/// A snapshot restores to the same state.
pub proof fn lemma_blob_restore(m: BlobsV)
    requires
        keyed::<BlobEntry>(m),
        m.dom().finite(),
    ensures
        records_in::<BlobEntry>(blob_image(m), "blobs"@) == (m, None::<ErrV>),
        digests_whole(blob_image(m)),
{
    let v = blob_image(m);
    assert(v->Pairs_0[0].0 == CborV::Text("blobs"@));
    assert(v.field("blobs"@) == Some(CborV::Array(record_rows::<BlobEntry>(m))));
    lemma_records_back::<BlobEntry>(m);
    let items = record_rows::<BlobEntry>(m);
    let o = text_order(m.dom());
    crate::textmap::lemma_finite_listed(m.dom());
    assert forall|i: int| 0 <= i < items.len() implies whole_digest(#[trigger] items[i]) by {
        assert(o.contains(o[i]));
        assert(m.dom().contains(o[i]));
        assert(m.contains_key(o[i]));
        let e = m[o[i]];
        let p = e.value()->Pairs_0;
        reveal_strlit("handle");
        reveal_strlit("sha256");
        assert("handle"@.len() == 6);
        assert("sha256"@.len() == 6);
        assert("handle"@[0] != "sha256"@[0]);
        reveal_with_fuel(lookup_from, 3);
        assert(p[0].0 == CborV::Text("handle"@));
        assert(p[1].0 == CborV::Text("sha256"@));
        assert(e.value().field("sha256"@) == Some(CborV::Bytes(e.sha)));
    }
}

/// The digest of a row, where it has one, has all its bytes.
pub open spec fn whole_digest(v: CborV) -> bool {
    v.bytes_field("sha256"@) is Some ==> v.bytes_field("sha256"@)->0.len() >= 32
}

/// Every digest of a snapshot has all its bytes.
pub open spec fn digests_whole(v: CborV) -> bool {
    v.array_field("blobs"@) is Some ==> forall|i: int|
        0 <= i < v.array_field("blobs"@)->0.len() ==> whole_digest(
            #[trigger] v.array_field("blobs"@)->0[i],
        )
}

/// Tells whether every digest of a snapshot has all its bytes.
pub fn digests_are_whole(state: &Cbor) -> (r: bool)
    ensures
        r == digests_whole(state@),
{
    if let Some(rows) = state.opt_array("blobs") {
        let ghost all = views(rows@);
        let mut i: usize = 0;
        while i < rows.len()
            invariant
                i <= rows@.len(),
                all == views(rows@),
                state@.array_field("blobs"@) == Some(all),
                forall|j: int| 0 <= j < i ==> whole_digest(#[trigger] all[j]),
            decreases rows.len() - i,
        {
            assert(all[i as int] == rows@[i as int]@);
            if let Some(v) = rows[i].get("sha256") {
                if let Some(b) = v.as_bytes() {
                    if b.len() < 32 {
                        assert(!whole_digest(state@.array_field("blobs"@)->0[i as int]));
                        return false;
                    }
                }
            }
            assert(whole_digest(all[i as int]));
            i += 1;
        }
    }
    true
}

/// The blobs.
#[derive(Debug)]
pub struct BlobCell {
    pub id: CellId,
    blobs: TextMap<BlobEntry>,
}

impl View for BlobCell {
    type V = BlobsV;

    closed spec fn view(&self) -> BlobsV {
        self.blobs@
    }
}

impl BlobCell {
    /// The id of the cell.
    pub closed spec fn ident(&self) -> CellId {
        self.id
    }

    pub fn new(id: CellId) -> (r: Self)
        ensures
            r.ident() == id,
            r@ == BlobsV::empty(),
    {
        BlobCell { id, blobs: TextMap::new() }
    }

    /// Registers a blob and returns its handle.
    pub fn register(&mut self, sha: [u8; 32], size: u64, media: String) -> (r: String)
        ensures
            final(self).ident() == old(self).ident(),
            r@ == blob_handle(sha@),
            final(self)@ == blob_register(old(self)@, sha@, size, media@),
            keyed::<BlobEntry>(old(self)@) ==> keyed::<BlobEntry>(final(self)@),
    {
        let handle = cat2("blob/", hex(&sha).as_str());
        self.blobs.insert(handle.clone(), BlobEntry { handle: handle.clone(), sha, size, media });
        handle
    }

    pub fn lookup(&self, handle: &str) -> (r: Option<&BlobEntry>)
        ensures
            match r {
                Some(e) => self@.contains_key(handle@) && e.deep_view() == self@[handle@],
                None => !self@.contains_key(handle@),
            },
    {
        self.blobs.get(handle)
    }

    pub fn has(&self, handle: &str) -> (r: bool)
        ensures
            r == self@.contains_key(handle@),
    {
        self.blobs.contains_key(handle)
    }

    /// The digests, in handle order.
    pub fn iter_hashes(&self) -> (r: Vec<[u8; 32]>)
        ensures
            r@.len() == self@.dom().len(),
            lists(text_order(self@.dom()), self@.dom()),
            forall|i: int|
                0 <= i < r@.len() ==> (#[trigger] r@[i])@ == self@[text_order(
                    self@.dom(),
                )[i]].sha,
    {
        let n: usize = self.blobs.len();
        let mut out: Vec<[u8; 32]> = Vec::new();
        let mut i: usize = 0;
        while i < n
            invariant
                i <= n == self.blobs.order().len(),
                out@.len() == i,
                self.blobs.order() == text_order(self@.dom()),
                forall|j: int|
                    0 <= j < i ==> (#[trigger] out@[j])@ == self@[text_order(self@.dom())[j]].sha,
            decreases n - i,
        {
            out.push(self.blobs.value_at(i).sha);
            i += 1;
        }
        out
    }
}

impl CellBehavior for BlobCell {
    open spec fn wf(&self) -> bool {
        keyed::<BlobEntry>(self@)
    }

    open spec fn accepts(&self, logical_at: u64, update: CborV) -> bool {
        true
    }

    open spec fn restorable(state: CborV) -> bool {
        digests_whole(state)
    }

    fn cell_id(&self) -> (r: CellId)
        ensures
            r == self.ident(),
    {
        self.id
    }

    fn cell_type(&self) -> (r: CellType)
        ensures
            r == CellType::Blob,
    {
        CellType::Blob
    }

    fn schema_id(&self) -> (r: SchemaId)
        ensures
            r.0@ == "blob.v1"@,
    {
        SchemaId::new("blob.v1")
    }

    fn on_query(&self, _at: u64, query: &Cbor) -> (r: UcResult<Cbor>)
        ensures
            agrees(r, blob_answer(self@, query@)),
    {
        let handle = match query.req_str("handle") {
            Ok(x) => x,
            Err(e) => {
                return Err(e);
            },
        };
        match self.blobs.get(handle.as_str()) {
            Some(e) => {
                assert(self@[handle@].handle == handle@);
                Ok(e.to_cbor())
            },
            None => Err(UcError::not_found(cat2("blob ", handle.as_str()).as_str())),
        }
    }

    fn on_update(&mut self, _at: u64, update: &Cbor) -> (r: UcResult<Cbor>)
        ensures
            final(self).ident() == old(self).ident(),
            final(self)@ == blob_update(old(self)@, update@).0,
            agrees(r, blob_update(old(self)@, update@).1),
    {
        if let Some(v) = update.get("sha256") {
            if let Some(b) = v.as_bytes() {
                if b.len() != 32 {
                    return Err(UcError::schema("blob: sha256 must be 32 bytes"));
                }
                let sha = first_32(b);
                assert(b@.take(32) =~= b@);
                let size: u64 = update.u64_or_zero("size");
                let media = match update.opt_str("media") {
                    Some(s) => s,
                    None => "application/octet-stream".to_owned(),
                };
                let handle = self.register(sha, size, media);
                return Ok(Cbor::map1("handle", Cbor::t(handle.as_str())));
            }
        }
        Err(UcError::schema("blob: missing sha256"))
    }

    fn snapshot_state(&self) -> (r: Cbor)
        ensures
            r@ == blob_image(self@),
            self@.dom().finite(),
    {
        Cbor::map1("blobs", Cbor::arr(to_rows(&self.blobs)))
    }

    fn restore_state(&mut self, state: &Cbor) -> (r: UcResult<()>)
        ensures
            final(self).ident() == old(self).ident(),
            final(self)@ == records_in::<BlobEntry>(state@, "blobs"@).0,
            agrees(r, done(records_in::<BlobEntry>(state@, "blobs"@).1)),
    {
        let (blobs, outcome) = rows_in::<BlobEntry>(state, "blobs");
        proof {
            lemma_records_keyed::<BlobEntry>(state@, "blobs"@);
        }
        self.blobs = blobs;
        outcome
    }
}

} // verus!
