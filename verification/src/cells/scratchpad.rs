//! The scratchpad: working memory whose entries expire at a logical time.

use vstd::prelude::*;
use crate::cbor::{
    lemma_one_field, lookup_from, map_value, missing_text, u64_or_zero, value_or_null, Cbor, CborV,
};
use crate::cells::{CellBehavior, CellType};
use crate::rows::{
    done, keyed, lemma_records_back, lemma_records_keyed, record_rows, records_in, rows_in, to_rows,
    Record,
};
use crate::text::cat2;
use crate::textmap::TextMap;
use crate::vocab::{agrees, CellId, ErrCode, ErrV, SchemaId, UcError, UcResult};

verus! {

/// An entry of the scratchpad.
#[derive(Debug)]
pub struct ScratchEntry {
    pub key: String,
    pub value: Cbor,
    pub expires_at: u64,
}

/// An entry of the scratchpad as a mathematical object.
#[verifier::ext_equal]
pub struct ScratchEntryV {
    pub key: Seq<char>,
    pub value: CborV,
    pub expires_at: u64,
}

impl DeepView for ScratchEntry {
    type V = ScratchEntryV;

    open spec fn deep_view(&self) -> ScratchEntryV {
        ScratchEntryV {
            key: self.key@,
            value: self.value@,
            expires_at: self.expires_at,
        }
    }
}

impl Clone for ScratchEntry {
    fn clone(&self) -> (r: ScratchEntry)
        ensures
            r.deep_view() == self.deep_view(),
    {
        ScratchEntry {
            key: self.key.clone(),
            value: self.value.dup(),
            expires_at: self.expires_at,
        }
    }
}

impl ScratchEntryV {
    /// The encoded form of an entry.
    pub open spec fn value(self) -> CborV {
        map_value(
            seq![
                ("key"@, CborV::Text(self.key)),
                ("value"@, self.value),
                ("expires_at"@, CborV::U64(self.expires_at)),
            ],
        )
    }

    /// What an encoded form says; the first required field that is missing is the
    /// error.
    pub open spec fn read(v: CborV) -> Result<ScratchEntryV, ErrV> {
        if v.text_field("key"@) is None {
            Err((ErrCode::Internal, missing_text("key"@)))
        } else {
            Ok(
                ScratchEntryV {
                    key: v.text_field("key"@)->0,
                    value: value_or_null(v, "value"@),
                    expires_at: u64_or_zero(v, "expires_at"@),
                },
            )
        }
    }

    /// Reading gives back what was encoded.
    pub proof fn lemma_read_back(self)
        ensures
            ScratchEntryV::read(self.value()) == Ok::<_, ErrV>(self),
            self.value().field("key"@) == Some(CborV::Text(self.key)),
            self.value().field("value"@) == Some(self.value),
            self.value().field("expires_at"@) == Some(CborV::U64(self.expires_at)),
    {
        reveal_strlit("key");
        reveal_strlit("value");
        reveal_strlit("expires_at");
        assert("key"@.len() == 3);
        assert("value"@.len() == 5);
        assert("expires_at"@.len() == 10);
        reveal_with_fuel(lookup_from, 4);
        let m = self.value()->Pairs_0;
        assert(m[0].0 == CborV::Text("key"@));
        assert(m[1].0 == CborV::Text("value"@));
        assert(m[2].0 == CborV::Text("expires_at"@));
        assert(self.value().field("key"@) == Some(CborV::Text(self.key)));
        assert(self.value().field("value"@) == Some(self.value));
        assert(self.value().field("expires_at"@) == Some(CborV::U64(self.expires_at)));
    }

}

impl ScratchEntry {
    fn to_cbor(&self) -> (r: Cbor)
        ensures
            r@ == self.deep_view().value(),
    {
        let pairs = vec![
            ("key", Cbor::t(self.key.as_str())),
            ("value", self.value.dup()),
            ("expires_at", Cbor::U64(self.expires_at)),
        ];
        let ghost want = seq![
            ("key"@, CborV::Text(self.key@)),
            ("value"@, self.value@),
            ("expires_at"@, CborV::U64(self.expires_at)),
        ];
        assert(Seq::new(pairs@.len(), |i: int| (pairs@[i].0@, pairs@[i].1@)) =~= want);
        Cbor::map(pairs)
    }

    fn from_cbor(c: &Cbor) -> (r: UcResult<ScratchEntry>)
        ensures
            agrees(r, ScratchEntryV::read(c@)),
    {
        let key = match c.req_str("key") {
            Ok(x) => x,
            Err(e) => {
                return Err(e);
            },
        };
        let value = c.value_or_null("value");
        let expires_at: u64 = c.u64_or_zero("expires_at");
        Ok(ScratchEntry { key, value, expires_at })
    }
}

impl Record for ScratchEntry {
    open spec fn key_of(v: ScratchEntryV) -> Seq<char> {
        v.key
    }

    open spec fn value_of(v: ScratchEntryV) -> CborV {
        v.value()
    }

    open spec fn read_of(c: CborV) -> Result<ScratchEntryV, ErrV> {
        ScratchEntryV::read(c)
    }

    open spec fn valid(v: ScratchEntryV) -> bool {
        true
    }

    proof fn lemma_back(v: ScratchEntryV) {
        v.lemma_read_back();
    }

    fn key(&self) -> (r: String) {
        self.key.clone()
    }

    fn to_row(&self) -> (r: Cbor) {
        self.to_cbor()
    }

    fn from_row(c: &Cbor) -> (r: UcResult<ScratchEntry>) {
        ScratchEntry::from_cbor(c)
    }
}

/// The state of the scratchpad.
#[verifier::ext_equal]
pub struct ScratchV {
    pub entries: Map<Seq<char>, ScratchEntryV>,
    pub default_ttl: u64,
}

/// The entries that have not expired: those that expire later than `now`.
pub open spec fn live(m: Map<Seq<char>, ScratchEntryV>, now: u64) -> Map<
    Seq<char>,
    ScratchEntryV,
> {
    Map::new(|k: Seq<char>| m.contains_key(k) && m[k].expires_at > now, |k: Seq<char>| m[k])
}

impl ScratchV {
    /// Each entry is under its own key.
    pub open spec fn wf(self) -> bool {
        keyed::<ScratchEntry>(self.entries)
    }

    /// When an entry put at `now` expires.
    pub open spec fn expiry(self, now: u64, ttl: Option<u64>) -> int {
        now + match ttl {
            Some(t) => t,
            None => self.default_ttl,
        }
    }

    pub open spec fn swept(self, now: u64) -> ScratchV {
        ScratchV { entries: live(self.entries, now), ..self }
    }

    /// One entry more, in place of one with its key.
    pub open spec fn put(self, now: u64, key: Seq<char>, value: CborV, ttl: Option<u64>) -> ScratchV {
        ScratchV {
            entries: self.entries.insert(
                key,
                ScratchEntryV { key, value, expires_at: self.expiry(now, ttl) as u64 },
            ),
            ..self
        }
    }

    /// The answer to a query.
    pub open spec fn answer(self, now: u64, q: CborV) -> Result<CborV, ErrV> {
        match q.text_field("key"@) {
            None => Err((ErrCode::Internal, missing_text("key"@))),
            Some(k) => if live(self.entries, now).contains_key(k) {
                Ok(map_value(seq![("value"@, self.entries[k].value)]))
            } else {
                Err((ErrCode::NotFound, "scratchpad key "@ + k))
            },
        }
    }

    /// The state after an update, and the reply.
    pub open spec fn update(self, now: u64, u: CborV) -> (ScratchV, Result<CborV, ErrV>) {
        let st = self.swept(now);
        match u.text_field("key"@) {
            None => (st, Err((ErrCode::Internal, missing_text("key"@)))),
            Some(k) => match u.field("value"@) {
                None => (st, Err((ErrCode::ContractViolation, "scratchpad: missing value"@))),
                Some(v) => (
                    st.put(now, k, v, u.u64_field("ttl"@)),
                    Ok(map_value(seq![("stored"@, CborV::Text(k))])),
                ),
            },
        }
    }

    /// The snapshot of the state.
    pub open spec fn image(self) -> CborV {
        map_value(seq![("entries"@, CborV::Array(record_rows::<ScratchEntry>(self.entries)))])
    }

    /// The entries that a snapshot restores to.
    pub open spec fn from_image(v: CborV) -> (Map<Seq<char>, ScratchEntryV>, Option<ErrV>) {
        records_in::<ScratchEntry>(v, "entries"@)
    }

    /// A snapshot restores to the same entries.
    pub proof fn lemma_restore_snapshot(self)
        requires
            self.wf(),
            self.entries.dom().finite(),
        ensures
            ScratchV::from_image(self.image()) == (self.entries, None::<ErrV>),
    {
        assert(self.image()->Pairs_0[0].0 == CborV::Text("entries"@));
        assert(self.image().field("entries"@) == Some(
            CborV::Array(record_rows::<ScratchEntry>(self.entries)),
        ));
        lemma_records_back::<ScratchEntry>(self.entries);
    }

    /// What was stored is what a query for its key gives back, up to the tick before
    /// its time is over, and nothing from then on. Without a time of its own an entry
    /// has the usual one. Every other key answers as it did.
    pub proof fn lemma_read_your_write(
        self,
        now: u64,
        u: CborV,
        k: Seq<char>,
        v: CborV,
        q: CborV,
        later: u64,
    )
        requires
            u.text_field("key"@) == Some(k),
            u.field("value"@) == Some(v),
            now + match u.u64_field("ttl"@) {
                Some(t) => t,
                None => self.default_ttl,
            } <= u64::MAX,
            q.text_field("key"@) is Some,
            now <= later,
        ensures
            ({
                let (st, r) = self.update(now, u);
                let asked = q.text_field("key"@)->0;
                let until = now + match u.u64_field("ttl"@) {
                    Some(t) => t,
                    None => self.default_ttl,
                };
                &&& r is Ok && r->Ok_0.text_field("stored"@) == Some(k)
                &&& st.default_ttl == self.default_ttl
                &&& asked == k && later < until ==> st.answer(later, q) is Ok && st.answer(
                    later,
                    q,
                )->Ok_0.field("value"@) == Some(v)
                &&& asked == k && later >= until ==> st.answer(later, q) is Err && st.answer(
                    later,
                    q,
                )->Err_0.0 is NotFound
                &&& asked != k ==> st.answer(later, q) == self.answer(later, q)
            }),
    {
        lemma_one_field("stored"@, CborV::Text(k));
        lemma_one_field("value"@, v);
    }

    /// An update without a key or a value stores nothing.
    pub proof fn lemma_nothing_stored(self, now: u64, u: CborV, q: CborV, later: u64)
        requires
            u.text_field("key"@) is None || u.field("value"@) is None,
            now <= later,
        ensures
            self.update(now, u).1 is Err,
            self.update(now, u).0.answer(later, q) == self.answer(later, q),
    {
    }

    /// An entry is there up to the tick before it expires and gone from that
    /// tick on, whatever the scratchpad was swept for before.
    pub proof fn lemma_expiry(
        self,
        now: u64,
        key: Seq<char>,
        value: CborV,
        ttl: Option<u64>,
        earlier: u64,
        later: u64,
    )
        requires
            self.expiry(now, ttl) <= u64::MAX,
            earlier <= later,
        ensures
            ({
                let st = self.put(now, key, value, ttl).swept(earlier);
                st.swept(later).entries.contains_key(key) <==> later < self.expiry(now, ttl)
            }),
    {
    }
}

/// The scratchpad. The queue lists expiry times with their keys, the next to
/// expire last; every entry is in it, and what it lists beyond them has been
/// overwritten since.
#[derive(Debug)]
pub struct ScratchpadCell {
    pub id: CellId,
    entries: TextMap<ScratchEntry>,
    queue: Vec<(u64, String)>,
    pub default_ttl: u64,
}

impl View for ScratchpadCell {
    type V = ScratchV;

    closed spec fn view(&self) -> ScratchV {
        ScratchV { entries: self.entries@, default_ttl: self.default_ttl }
    }
}

/// Times from the latest to the next.
spec fn descending(q: Seq<(u64, String)>) -> bool {
    forall|i: int, j: int| 0 <= i < j < q.len() ==> (#[trigger] q[i]).0 >= (#[trigger] q[j]).0
}

/// The queue lists this time for this key.
spec fn listed(q: Seq<(u64, String)>, t: u64, k: Seq<char>) -> bool {
    exists|i: int| 0 <= i < q.len() && (#[trigger] q[i]).0 == t && q[i].1@ == k
}

spec fn covers(q: Seq<(u64, String)>, m: Map<Seq<char>, ScratchEntryV>) -> bool {
    forall|k: Seq<char>| #[trigger] m.contains_key(k) ==> listed(q, m[k].expires_at, k)
}

proof fn lemma_listed_insert(q: Seq<(u64, String)>, p: int, x: (u64, String), t: u64, k: Seq<char>)
    requires
        0 <= p <= q.len(),
    ensures
        listed(q, t, k) ==> listed(q.insert(p, x), t, k),
        listed(q.insert(p, x), x.0, x.1@),
{
    let r = q.insert(p, x);
    assert(r[p] == x);
    if listed(q, t, k) {
        let i = choose|i: int| 0 <= i < q.len() && (#[trigger] q[i]).0 == t && q[i].1@ == k;
        assert(r[if i < p { i } else { i + 1 }] == q[i]);
    }
}

impl ScratchpadCell {
    /// The id of the cell.
    pub closed spec fn ident(&self) -> CellId {
        self.id
    }

    /// The queue is in order and lists every entry.
    pub closed spec fn queued(&self) -> bool {
        descending(self.queue@) && covers(self.queue@, self.entries@)
    }

    pub fn new(id: CellId) -> (r: Self)
        ensures
            r.ident() == id,
            r@ == (ScratchV { entries: Map::empty(), default_ttl: 100_000 }),
            r.queued(),
    {
        ScratchpadCell { id, entries: TextMap::new(), queue: Vec::new(), default_ttl: 100_000 }
    }

    /// Removes every entry that expires at `now` or before; returns how many.
    pub fn sweep(&mut self, now: u64) -> (r: u64)
        requires
            old(self).queued(),
        ensures
            final(self).ident() == old(self).ident(),
            final(self).queued(),
            final(self)@ == old(self)@.swept(now),
            r == old(self)@.entries.dom().len() - final(self)@.entries.dom().len(),
            old(self)@.wf() ==> final(self)@.wf(),
    {
        let ghost m0 = self.entries@;
        let total: usize = self.entries.len();
        let mut evicted: u64 = 0;
        let mut more: bool = true;
        while more
            invariant
                descending(self.queue@),
                covers(self.queue@, self.entries@),
                self.ident() == old(self).ident(),
                self.default_ttl == old(self).default_ttl,
                m0 == old(self)@.entries,
                m0.dom().finite(),
                self.entries@.dom().finite(),
                total == m0.dom().len(),
                evicted + self.entries@.dom().len() == total,
                forall|k: Seq<char>|
                    #[trigger] self.entries@.contains_key(k) ==> m0.contains_key(k)
                        && self.entries@[k] == m0[k],
                forall|k: Seq<char>|
                    #[trigger] m0.contains_key(k) && m0[k].expires_at > now
                        ==> self.entries@.contains_key(k),
                !more ==> (self.queue@.len() == 0 || self.queue@.last().0 > now),
            decreases self.queue@.len(), if more { 1int } else { 0int },
        {
            let n: usize = self.queue.len();
            if n == 0 || self.queue[n - 1].0 > now {
                more = false;
            } else {
                let ghost q = self.queue@;
                let ghost m = self.entries@;
                let top = self.queue.pop();
                if let Some((exp, key)) = top {
                    let ghost d = self.queue@;
                    assert(d =~= q.drop_last());
                    assert forall|i: int, j: int| 0 <= i < j < d.len() implies (#[trigger] d[i]).0 >= (#[trigger] d[j]).0 by {
                        assert(q[i].0 >= q[j].0);
                    }
                    assert forall|k: Seq<char>| #[trigger] m.contains_key(k) && (k != key@ || m[k].expires_at != exp) implies listed(d, m[k].expires_at, k) by {
                        let i = choose|i: int| 0 <= i < q.len() && (#[trigger] q[i]).0 == m[k].expires_at && q[i].1@ == k;
                        assert(i != q.len() - 1);
                        assert(d[i] == q[i]);
                    }
                    let due: bool = match self.entries.get(key.as_str()) {
                        Some(e) => e.expires_at == exp,
                        None => false,
                    };
                    if due {
                        let _gone = self.entries.remove(key.as_str());
                        let left: usize = self.entries.len();
                        evicted = evicted + 1;
                    }
                }
            }
        }
        proof {
            let q = self.queue@;
            assert forall|k: Seq<char>| #[trigger] self.entries@.contains_key(k) implies m0[k].expires_at > now by {
                assert(listed(q, self.entries@[k].expires_at, k));
                let i = choose|i: int| 0 <= i < q.len() && (#[trigger] q[i]).0 == self.entries@[k].expires_at && q[i].1@ == k;
                assert(q[i].0 >= q[q.len() - 1].0);
            }
            assert(self.entries@ =~= live(m0, now));
        }
        evicted
    }

    /// Stores a value until its time to live has passed.
    pub fn put(&mut self, now: u64, key: String, value: Cbor, ttl: Option<u64>)
        requires
            old(self).queued(),
            old(self)@.expiry(now, ttl) <= u64::MAX,
        ensures
            final(self).ident() == old(self).ident(),
            final(self).queued(),
            final(self)@ == old(self)@.put(now, key@, value@, ttl),
            old(self)@.wf() ==> final(self)@.wf(),
    {
        let ghost was = self@;
        let life: u64 = match ttl {
            Some(t) => t,
            None => self.default_ttl,
        };
        let expires: u64 = now + life;
        let mut p: usize = self.queue.len();
        let ghost q = self.queue@;
        while p > 0 && self.queue[p - 1].0 < expires
            invariant
                p <= q.len(),
                q == self.queue@,
                descending(q),
                forall|i: int| p <= i < q.len() ==> (#[trigger] q[i]).0 < expires,
            decreases p,
        {
            p -= 1;
        }
        let ghost x = (expires, key);
        self.queue.insert(p, (expires, key.clone()));
        self.entries.insert(key.clone(), ScratchEntry { key, value, expires_at: expires });
        proof {
            let r = self.queue@;
            assert(r[p as int].1@ == key@);
            let y = r[p as int];
            assert(r =~= q.insert(p as int, y));
            assert forall|i: int, j: int| 0 <= i < j < r.len() implies (#[trigger] r[i]).0 >= (#[trigger] r[j]).0 by {
                if i < p && j > p {
                    assert(q[i].0 >= q[j - 1].0);
                } else if j == p {
                    assert(q[i].0 >= q[p - 1].0);
                } else if i == p {
                    assert(q[j - 1].0 < expires);
                } else if i > p {
                    assert(q[i - 1].0 >= q[j - 1].0);
                } else {
                    assert(q[i].0 >= q[j].0);
                }
            }
            assert forall|k: Seq<char>| #[trigger] self.entries@.contains_key(k) implies listed(r, self.entries@[k].expires_at, k) by {
                lemma_listed_insert(q, p as int, y, self.entries@[k].expires_at, k);
            }
        }
    }

    /// The value under a key, where it has not expired; sweeps first.
    pub fn get(&mut self, now: u64, key: &str) -> (r: Option<&Cbor>)
        requires
            old(self).queued(),
        ensures
            final(self).ident() == old(self).ident(),
            final(self).queued(),
            final(self)@ == old(self)@.swept(now),
            match r {
                Some(v) => final(self)@.entries.contains_key(key@) && v@
                    == final(self)@.entries[key@].value,
                None => !final(self)@.entries.contains_key(key@),
            },
    {
        let _n: u64 = self.sweep(now);
        match self.entries.get(key) {
            Some(e) => Some(&e.value),
            None => None,
        }
    }
}

impl CellBehavior for ScratchpadCell {
    open spec fn wf(&self) -> bool {
        self@.wf() && self.queued()
    }

    open spec fn accepts(&self, logical_at: u64, update: CborV) -> bool {
        update.text_field("key"@) is Some && update.field("value"@) is Some ==> self@.expiry(
            logical_at,
            update.u64_field("ttl"@),
        ) <= u64::MAX
    }

    open spec fn restorable(state: CborV) -> bool {
        true
    }

    fn cell_id(&self) -> (r: CellId)
        ensures
            r == self.ident(),
    {
        self.id
    }

    fn cell_type(&self) -> (r: CellType)
        ensures
            r == CellType::Scratchpad,
    {
        CellType::Scratchpad
    }

    fn schema_id(&self) -> (r: SchemaId)
        ensures
            r.0@ == "scratchpad.v1"@,
    {
        SchemaId::new("scratchpad.v1")
    }

    fn on_query(&self, now: u64, query: &Cbor) -> (r: UcResult<Cbor>)
        ensures
            agrees(r, self@.answer(now, query@)),
    {
        let key = match query.req_str("key") {
            Ok(x) => x,
            Err(e) => {
                return Err(e);
            },
        };
        if let Some(e) = self.entries.get(key.as_str()) {
            if e.expires_at > now {
                return Ok(Cbor::map1("value", e.value.dup()));
            }
        }
        Err(UcError::not_found(cat2("scratchpad key ", key.as_str()).as_str()))
    }

    fn on_update(&mut self, now: u64, update: &Cbor) -> (r: UcResult<Cbor>)
        ensures
            final(self).ident() == old(self).ident(),
            final(self)@ == old(self)@.update(now, update@).0,
            agrees(r, old(self)@.update(now, update@).1),
    {
        let _n: u64 = self.sweep(now);
        let key = match update.req_str("key") {
            Ok(x) => x,
            Err(e) => {
                return Err(e);
            },
        };
        let value = match update.get("value") {
            Some(v) => v.dup(),
            None => {
                return Err(UcError::schema("scratchpad: missing value"));
            },
        };
        let ttl = update.opt_u64("ttl");
        self.put(now, key.clone(), value, ttl);
        Ok(Cbor::map1("stored", Cbor::t(key.as_str())))
    }

    fn snapshot_state(&self) -> (r: Cbor)
        ensures
            r@ == self@.image(),
            self@.entries.dom().finite(),
    {
        Cbor::map1("entries", Cbor::arr(to_rows(&self.entries)))
    }

    fn restore_state(&mut self, state: &Cbor) -> (r: UcResult<()>)
        ensures
            final(self).ident() == old(self).ident(),
            final(self)@ == (ScratchV {
                entries: ScratchV::from_image(state@).0,
                default_ttl: old(self)@.default_ttl,
            }),
            agrees(r, done(ScratchV::from_image(state@).1)),
    {
        let (entries, outcome) = rows_in::<ScratchEntry>(state, "entries");
        proof {
            lemma_records_keyed::<ScratchEntry>(state@, "entries"@);
        }
        self.queue = Vec::new();
        self.entries = TextMap::new();
        let n: usize = entries.len();
        let ghost all = entries@;
        let ghost o = entries.order();
        let mut queue: Vec<(u64, String)> = Vec::new();
        let mut i: usize = 0;
        while i < n
            invariant
                i <= n == entries.order().len(),
                o == entries.order(),
                all == entries@,
                descending(queue@),
                forall|j: int| 0 <= j < i ==> listed(queue@, all[#[trigger] o[j]].expires_at, o[j]),
            decreases n - i,
        {
            let exp: u64 = entries.value_at(i).expires_at;
            let key = entries.key_at(i).clone();
            let mut p: usize = queue.len();
            let ghost q = queue@;
            while p > 0 && queue[p - 1].0 < exp
                invariant
                    p <= q.len(),
                    q == queue@,
                    descending(q),
                    forall|j: int| p <= j < q.len() ==> (#[trigger] q[j]).0 < exp,
                decreases p,
            {
                p -= 1;
            }
            queue.insert(p, (exp, key));
            proof {
                let r = queue@;
                let y = r[p as int];
                assert(r =~= q.insert(p as int, y));
                assert forall|a: int, b: int| 0 <= a < b < r.len() implies (#[trigger] r[a]).0 >= (#[trigger] r[b]).0 by {
                    if a < p && b > p {
                        assert(q[a].0 >= q[b - 1].0);
                    } else if b == p {
                        assert(q[a].0 >= q[p - 1].0);
                    } else if a == p {
                        assert(q[b - 1].0 < exp);
                    } else if a > p {
                        assert(q[a - 1].0 >= q[b - 1].0);
                    } else {
                        assert(q[a].0 >= q[b].0);
                    }
                }
                assert forall|j: int| 0 <= j < i + 1 implies listed(r, all[#[trigger] o[j]].expires_at, o[j]) by {
                    lemma_listed_insert(q, p as int, y, all[o[j]].expires_at, o[j]);
                }
            }
            i += 1;
        }
        proof {
            assert forall|k: Seq<char>| #[trigger] all.contains_key(k) implies listed(queue@, all[k].expires_at, k) by {
                assert(all.dom().contains(k));
                assert(o.contains(k));
                let j = choose|j: int| 0 <= j < o.len() && o[j] == k;
                assert(listed(queue@, all[o[j]].expires_at, o[j]));
            }
        }
        self.entries = entries;
        self.queue = queue;
        outcome
    }
}

} // verus!
