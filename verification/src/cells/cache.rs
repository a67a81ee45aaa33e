//! The cache: values by key, the least recently stored one evicted when the
//! cache is full. Its contents are never part of a snapshot.

use vstd::prelude::*;
use crate::cbor::{lemma_one_field, map_value, missing_text, Cbor, CborV};
use crate::cells::{CellBehavior, CellType};
use crate::text::{cat2, lemma_text_irreflexive, lemma_text_total, lemma_text_transitive, text_lt};
use crate::textmap::TextMap;
use crate::vocab::{agrees, CellId, ErrCode, ErrV, SchemaId, UcError, UcResult};

verus! {

/// A cached value and when it was stored.
#[derive(Debug)]
pub struct CacheSlot {
    pub value: Cbor,
    pub last_used: u64,
}

/// A cached value as a mathematical object.
#[verifier::ext_equal]
pub struct CacheSlotV {
    pub value: CborV,
    pub last_used: u64,
}

impl DeepView for CacheSlot {
    type V = CacheSlotV;

    open spec fn deep_view(&self) -> CacheSlotV {
        CacheSlotV { value: self.value@, last_used: self.last_used }
    }
}

/// The state of the cache.
#[verifier::ext_equal]
pub struct CacheV {
    pub slots: Map<Seq<char>, CacheSlotV>,
    pub capacity: usize,
}

/// `a` goes before `b` when one has to go: stored earlier, or at the same
/// time under a smaller key.
pub open spec fn goes_before(m: Map<Seq<char>, CacheSlotV>, a: Seq<char>, b: Seq<char>) -> bool {
    m[a].last_used < m[b].last_used || (m[a].last_used == m[b].last_used && text_lt(a, b))
}

/// The entry to evict: the one that goes before all others.
pub open spec fn is_victim(m: Map<Seq<char>, CacheSlotV>, k: Seq<char>) -> bool {
    m.contains_key(k) && forall|x: Seq<char>|
        #[trigger] m.contains_key(x) && x != k ==> goes_before(m, k, x)
}

/// The entry to evict.
pub open spec fn victim(m: Map<Seq<char>, CacheSlotV>) -> Seq<char> {
    choose|k: Seq<char>| is_victim(m, k)
}

/// There is only one entry to evict.
pub proof fn lemma_victim_unique(m: Map<Seq<char>, CacheSlotV>, k: Seq<char>)
    requires
        is_victim(m, k),
    ensures
        victim(m) == k,
{
    let v = victim(m);
    assert(is_victim(m, v));
    if v != k {
        assert(goes_before(m, v, k) && goes_before(m, k, v));
        lemma_text_irreflexive(v);
        if text_lt(v, k) && text_lt(k, v) {
            lemma_text_transitive(v, k, v);
        }
    }
}

/// A cache that is not empty has an entry to evict.
pub proof fn lemma_victim_exists(m: Map<Seq<char>, CacheSlotV>)
    requires
        m.dom().finite(),
        m.dom().len() > 0,
    ensures
        is_victim(m, victim(m)),
    decreases m.dom().len(),
{
    let k = m.dom().choose();
    let d = m.remove(k);
    assert(m.dom().contains(k));
    if d.dom().len() == 0 {
        assert forall|x: Seq<char>| #[trigger] m.contains_key(x) implies x == k by {
            if x != k {
                assert(d.dom().contains(x));
            }
        }
        assert(is_victim(m, k));
    } else {
        lemma_victim_exists(d);
        let v = victim(d);
        lemma_text_total(k, v);
        if goes_before(m, k, v) {
            assert forall|x: Seq<char>| #[trigger] m.contains_key(x) && x != k implies goes_before(m, k, x) by {
                if x != v {
                    assert(d.contains_key(x));
                    assert(goes_before(d, v, x));
                    if text_lt(k, v) && text_lt(v, x) {
                        lemma_text_transitive(k, v, x);
                    }
                }
            }
            assert(is_victim(m, k));
        } else {
            assert forall|x: Seq<char>| #[trigger] m.contains_key(x) && x != v implies goes_before(m, v, x) by {
                if x != k {
                    assert(d.contains_key(x));
                    assert(goes_before(d, v, x));
                }
            }
            assert(is_victim(m, v));
        }
    }
}

impl CacheV {
    /// The entries left when `key` is to be stored.
    pub open spec fn with_room(self, key: Seq<char>) -> Map<Seq<char>, CacheSlotV> {
        if self.slots.dom().len() >= self.capacity && !self.slots.contains_key(key)
            && self.slots.dom().len() > 0 {
            self.slots.remove(victim(self.slots))
        } else {
            self.slots
        }
    }

    /// The answer to a query.
    pub open spec fn answer(self, q: CborV) -> Result<CborV, ErrV> {
        match q.text_field("key"@) {
            None => Err((ErrCode::Internal, missing_text("key"@))),
            Some(k) => if self.slots.contains_key(k) {
                Ok(map_value(seq![("value"@, self.slots[k].value)]))
            } else {
                Err((ErrCode::NotFound, "cache key "@ + k))
            },
        }
    }

    /// The state after an update, and the reply.
    pub open spec fn update(self, now: u64, u: CborV) -> (CacheV, Result<CborV, ErrV>) {
        match u.text_field("key"@) {
            None => (self, Err((ErrCode::Internal, missing_text("key"@)))),
            Some(k) => match u.field("value"@) {
                None => (self, Err((ErrCode::ContractViolation, "cache: missing value"@))),
                Some(v) => (
                    CacheV {
                        slots: self.with_room(k).insert(
                            k,
                            CacheSlotV { value: v, last_used: now },
                        ),
                        ..self
                    },
                    Ok(map_value(seq![("stored"@, CborV::Text(k))])),
                ),
            },
        }
    }

    /// What was stored is what a query for its key gives back, until it is evicted or
    /// stored anew. Storing takes away one other entry at most, and that only where the
    /// cache was full and the key was new; what goes was used no later than anything that
    /// stays. Every other entry answers as it did.
    pub proof fn lemma_read_your_write(
        self,
        now: u64,
        u: CborV,
        k: Seq<char>,
        v: CborV,
        q: CborV,
        a: Seq<char>,
        b: Seq<char>,
    )
        requires
            self.slots.dom().finite(),
            u.text_field("key"@) == Some(k),
            u.field("value"@) == Some(v),
            q.text_field("key"@) == Some(a),
        ensures
            ({
                let (st, r) = self.update(now, u);
                let lost = |x: Seq<char>| self.slots.contains_key(x) && !st.slots.contains_key(x);
                &&& r is Ok && r->Ok_0.text_field("stored"@) == Some(k)
                &&& st.capacity == self.capacity
                &&& a == k ==> st.answer(q) is Ok && st.answer(q)->Ok_0.field("value"@) == Some(v)
                &&& a == k ==> st.slots[k].last_used == now
                &&& a != k && !lost(a) ==> st.answer(q) == self.answer(q)
                &&& a != k && st.slots.contains_key(a) ==> self.slots.contains_key(a)
                    && st.slots[a] == self.slots[a]
                &&& lost(a) ==> self.slots.dom().len() >= self.capacity && !self.slots.contains_key(k)
                &&& lost(a) && lost(b) ==> a == b
                &&& lost(a) && self.slots.contains_key(b) ==> self.slots[a].last_used
                    <= self.slots[b].last_used
            }),
    {
        lemma_one_field("stored"@, CborV::Text(k));
        lemma_one_field("value"@, v);
        if self.slots.dom().len() > 0 {
            lemma_victim_exists(self.slots);
            let x = victim(self.slots);
            assert(is_victim(self.slots, x));
            if self.slots.contains_key(b) && b != x {
                assert(goes_before(self.slots, x, b));
            }
        }
    }

    /// A key under which nothing is stored is not found.
    pub proof fn lemma_missed(self, q: CborV, k: Seq<char>)
        requires
            q.text_field("key"@) == Some(k),
        ensures
            self.answer(q) is Ok <==> self.slots.contains_key(k),
            self.answer(q) is Err ==> self.answer(q)->Err_0.0 is NotFound,
    {
    }

    /// A cache within its capacity stays within it, and what was stored is
    /// there.
    pub proof fn lemma_capacity(self, now: u64, u: CborV)
        requires
            self.slots.dom().finite(),
            0 < self.capacity,
            self.slots.dom().len() <= self.capacity,
        ensures
            self.update(now, u).0.slots.dom().len() <= self.capacity,
            self.update(now, u).1 is Ok ==> self.update(now, u).0.slots.contains_key(
                u.text_field("key"@)->0,
            ),
    {
        if self.slots.dom().len() > 0 {
            lemma_victim_exists(self.slots);
        }
    }
}

/// The cache.
#[derive(Debug)]
pub struct CacheCell {
    pub id: CellId,
    map: TextMap<CacheSlot>,
    pub capacity: usize,
}

impl View for CacheCell {
    type V = CacheV;

    closed spec fn view(&self) -> CacheV {
        CacheV { slots: self.map@, capacity: self.capacity }
    }
}

impl CacheCell {
    /// The id of the cell.
    pub closed spec fn ident(&self) -> CellId {
        self.id
    }

    pub fn new(id: CellId) -> (r: Self)
        ensures
            r.ident() == id,
            r@ == (CacheV { slots: Map::empty(), capacity: 10_000 }),
    {
        CacheCell { id, map: TextMap::new(), capacity: 10_000 }
    }

    /// The entry to evict.
    fn oldest(&self) -> (r: String)
        requires
            self@.slots.dom().len() > 0,
        ensures
            is_victim(self@.slots, r@),
    {
        let n: usize = self.map.len();
        let ghost m = self.map@;
        let ghost o = self.map.order();
        let mut best: usize = 0;
        let mut i: usize = 1;
        while i < n
            invariant
                best < i <= n == o.len(),
                o == self.map.order(),
                m == self.map@,
                crate::textmap::ascending(o),
                forall|j: int| 0 <= j < i && j != best ==> goes_before(m, o[best as int], #[trigger] o[j]),
            decreases n - i,
        {
            if self.map.value_at(i).last_used < self.map.value_at(best).last_used {
                proof {
                    assert forall|j: int| 0 <= j < i + 1 && j != i implies goes_before(m, o[i as int], #[trigger] o[j]) by {
                        if j != best {
                            assert(goes_before(m, o[best as int], o[j]));
                        }
                    }
                }
                best = i;
            } else {
                assert(text_lt(o[best as int], o[i as int]));
            }
            i += 1;
        }
        proof {
            let k = o[best as int];
            assert(o.contains(k));
            assert(m.dom().contains(k));
            assert forall|x: Seq<char>| #[trigger] m.contains_key(x) && x != k implies goes_before(m, k, x) by {
                assert(m.dom().contains(x));
                assert(o.contains(x));
                let j = choose|j: int| 0 <= j < o.len() && o[j] == x;
                assert(goes_before(m, o[best as int], o[j]));
            }
        }
        self.map.key_at(best).clone()
    }
}

impl CellBehavior for CacheCell {
    open spec fn wf(&self) -> bool {
        true
    }

    open spec fn accepts(&self, logical_at: u64, update: CborV) -> bool {
        true
    }

    open spec fn restorable(state: CborV) -> bool {
        true
    }

    fn cell_id(&self) -> (r: CellId)
        ensures
            r == self.ident(),
    {
        self.id
    }

    fn cell_type(&self) -> (r: CellType)
        ensures
            r == CellType::Cache,
    {
        CellType::Cache
    }

    fn schema_id(&self) -> (r: SchemaId)
        ensures
            r.0@ == "cache.v1"@,
    {
        SchemaId::new("cache.v1")
    }

    fn on_query(&self, _at: u64, query: &Cbor) -> (r: UcResult<Cbor>)
        ensures
            agrees(r, self@.answer(query@)),
    {
        let key = match query.req_str("key") {
            Ok(x) => x,
            Err(e) => {
                return Err(e);
            },
        };
        match self.map.get(key.as_str()) {
            Some(s) => Ok(Cbor::map1("value", s.value.dup())),
            None => Err(UcError::not_found(cat2("cache key ", key.as_str()).as_str())),
        }
    }

    fn on_update(&mut self, now: u64, update: &Cbor) -> (r: UcResult<Cbor>)
        ensures
            final(self).ident() == old(self).ident(),
            final(self)@ == old(self)@.update(now, update@).0,
            agrees(r, old(self)@.update(now, update@).1),
    {
        let key = match update.req_str("key") {
            Ok(x) => x,
            Err(e) => {
                return Err(e);
            },
        };
        let value = match update.get("value") {
            Some(v) => v.dup(),
            None => {
                return Err(UcError::schema("cache: missing value"));
            },
        };
        let n: usize = self.map.len();
        if n >= self.capacity && n > 0 && !self.map.contains_key(key.as_str()) {
            let gone = self.oldest();
            proof {
                lemma_victim_unique(self@.slots, gone@);
            }
            let _old = self.map.remove(gone.as_str());
        }
        self.map.insert(key.clone(), CacheSlot { value, last_used: now });
        Ok(Cbor::map1("stored", Cbor::t(key.as_str())))
    }

    /// The snapshot says only that the contents are not kept.
    fn snapshot_state(&self) -> (r: Cbor)
        ensures
            r@ == map_value(seq![("ephemeral"@, CborV::Bool(true))]),
    {
        Cbor::map1("ephemeral", Cbor::Bool(true))
    }

    /// Empties the cache.
    fn restore_state(&mut self, _state: &Cbor) -> (r: UcResult<()>)
        ensures
            final(self).ident() == old(self).ident(),
            final(self)@ == (CacheV { slots: Map::empty(), ..old(self)@ }),
            r is Ok,
    {
        self.map = TextMap::new();
        Ok(())
    }
}

} // verus!
