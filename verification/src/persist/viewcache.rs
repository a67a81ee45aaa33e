//! The cache of rendered views: where each lies, which are dropped when a tier is
//! full, and which fall when a handle that they rest on changes.

use vstd::prelude::*;
use crate::bytes::{le_bytes, push_all, push_le};
use crate::cbor::{
    dup_texts, lemma_texts_back, lookup_from, map_value, text_or_empty, text_views, texts_field,
    texts_value, u64_or_zero, views, Cbor, CborV,
};
use crate::cells::blob::{bytes_of, first_32};
use crate::curator::warden::among;
use crate::digest::{sha256, sha_of};
use crate::hex::{hex, hex_text};
use crate::text::{
    bytes_before, bytes_eq, cat3, lemma_lex_irreflexive, lemma_lex_total, lemma_lex_transitive,
    lemma_text_irreflexive, lemma_text_total, lemma_text_transitive, lex_lt, str_before, str_eq,
    text_lt,
};
use vstd::string::StringSliceAdditionalSpecFns;
use vstd::utf8::encode_utf8;

verus! {

/// Which rendered view: the view, its namespace and version, and a digest of its
/// parameters.
#[derive(Clone, Debug, PartialEq, Eq, Hash, PartialOrd, Ord)]
pub struct ViewKey {
    pub view_id: String,
    pub ns: String,
    pub version: u64,
    pub params_hash: [u8; 32],
}

/// Which rendered view, as a mathematical object.
#[verifier::ext_equal]
pub struct ViewKeyV {
    pub view_id: Seq<char>,
    pub ns: Seq<char>,
    pub version: u64,
    pub params_hash: Seq<u8>,
}

impl DeepView for ViewKey {
    type V = ViewKeyV;

    open spec fn deep_view(&self) -> ViewKeyV {
        ViewKeyV {
            view_id: self.view_id@,
            ns: self.ns@,
            version: self.version,
            params_hash: self.params_hash@,
        }
    }
}

/// The order of keys: by view, namespace, version and parameters.
pub open spec fn key_lt(a: ViewKeyV, b: ViewKeyV) -> bool {
    text_lt(a.view_id, b.view_id) || (a.view_id == b.view_id && (text_lt(a.ns, b.ns) || (a.ns == b.ns
        && (a.version < b.version || (a.version == b.version && lex_lt(
        a.params_hash,
        b.params_hash,
    ))))))
}

proof fn lemma_key_order(a: ViewKeyV, b: ViewKeyV, c: ViewKeyV)
    ensures
        !key_lt(a, a),
        key_lt(a, b) && key_lt(b, c) ==> key_lt(a, c),
        a == b || key_lt(a, b) || key_lt(b, a),
{
    lemma_text_irreflexive(a.view_id);
    lemma_text_irreflexive(a.ns);
    lemma_lex_irreflexive(a.params_hash);
    lemma_text_total(a.view_id, b.view_id);
    lemma_text_total(a.ns, b.ns);
    lemma_lex_total(a.params_hash, b.params_hash);
    if text_lt(a.view_id, b.view_id) && text_lt(b.view_id, c.view_id) {
        lemma_text_transitive(a.view_id, b.view_id, c.view_id);
    }
    if text_lt(a.ns, b.ns) && text_lt(b.ns, c.ns) {
        lemma_text_transitive(a.ns, b.ns, c.ns);
    }
    if lex_lt(a.params_hash, b.params_hash) && lex_lt(b.params_hash, c.params_hash) {
        lemma_lex_transitive(a.params_hash, b.params_hash, c.params_hash);
    }
    if a.view_id == b.view_id && a.ns == b.ns && a.version == b.version && a.params_hash
        == b.params_hash {
        assert(a =~= b);
    }
}

/// The name of the file of a view.
pub open spec fn stem_of(k: ViewKeyV) -> Seq<char> {
    hex_text(
        sha_of(
            encode_utf8(k.view_id) + seq![0u8] + encode_utf8(k.ns) + seq![0u8] + le_bytes(
                k.version as nat,
                8,
            ) + k.params_hash,
        ),
    )
}

impl ViewKey {
    /// The name of the file of a view.
    pub fn file_stem(&self) -> (r: String)
        ensures
            r@ == stem_of(self.deep_view()),
    {
        let mut input: Vec<u8> = Vec::new();
        push_all(&mut input, self.view_id.as_str().as_bytes());
        input.push(0);
        push_all(&mut input, self.ns.as_str().as_bytes());
        input.push(0);
        push_le(&mut input, self.version, 8);
        push_all(&mut input, &self.params_hash);
        assert(input@ =~= encode_utf8(self.view_id@) + seq![0u8] + encode_utf8(self.ns@) + seq![
            0u8,
        ] + le_bytes(self.version as nat, 8) + self.params_hash@);
        hex(&sha256(input.as_slice()))
    }

    fn before(&self, o: &ViewKey) -> (r: bool)
        ensures
            r == key_lt(self.deep_view(), o.deep_view()),
    {
        if str_before(self.view_id.as_str(), o.view_id.as_str()) {
            return true;
        }
        if !str_eq(self.view_id.as_str(), o.view_id.as_str()) {
            return false;
        }
        if str_before(self.ns.as_str(), o.ns.as_str()) {
            return true;
        }
        if !str_eq(self.ns.as_str(), o.ns.as_str()) {
            return false;
        }
        self.version < o.version || (self.version == o.version && bytes_before(
            &self.params_hash,
            &o.params_hash,
        ))
    }

    fn same(&self, o: &ViewKey) -> (r: bool)
        ensures
            r == (self.deep_view() == o.deep_view()),
    {
        let r: bool = str_eq(self.view_id.as_str(), o.view_id.as_str()) && str_eq(
            self.ns.as_str(),
            o.ns.as_str(),
        ) && self.version == o.version && bytes_eq(&self.params_hash, &o.params_hash);
        proof {
            if r {
                assert(self.deep_view() =~= o.deep_view());
            }
        }
        r
    }
}

/// Where a view lies, by its size.
#[derive(Clone, Copy, Debug, PartialEq, Eq, Structural)]
pub enum CacheTier {
    L1,
    L2,
    L3,
}

impl CacheTier {
    /// The text that stands for a tier.
    pub open spec fn name(self) -> Seq<char> {
        match self {
            CacheTier::L1 => "tier-l1"@,
            CacheTier::L2 => "tier-l2"@,
            CacheTier::L3 => "tier-l3"@,
        }
    }

    /// The tier with that name.
    pub open spec fn named(s: Seq<char>) -> Option<CacheTier> {
        if s == "tier-l1"@ {
            Some(CacheTier::L1)
        } else if s == "tier-l2"@ {
            Some(CacheTier::L2)
        } else if s == "tier-l3"@ {
            Some(CacheTier::L3)
        } else {
            None
        }
    }

    pub fn dirname(&self) -> (r: &'static str)
        ensures
            r@ == self.name(),
    {
        match self {
            CacheTier::L1 => "tier-l1",
            CacheTier::L2 => "tier-l2",
            CacheTier::L3 => "tier-l3",
        }
    }

    /// The tier with that name.
    pub fn parse(s: &str) -> (r: Option<CacheTier>)
        ensures
            r == CacheTier::named(s@),
    {
        if str_eq(s, "tier-l1") {
            Some(CacheTier::L1)
        } else if str_eq(s, "tier-l2") {
            Some(CacheTier::L2)
        } else if str_eq(s, "tier-l3") {
            Some(CacheTier::L3)
        } else {
            None
        }
    }

    /// Every tier is found again by its name, and no two share one.
    pub proof fn lemma_named(a: CacheTier, b: CacheTier)
        ensures
            CacheTier::named(a.name()) == Some(a),
            a.name() == b.name() ==> a == b,
    {
        reveal_strlit("tier-l1");
        reveal_strlit("tier-l2");
        reveal_strlit("tier-l3");
        assert("tier-l1"@.len() == 7);
        assert("tier-l2"@.len() == 7);
        assert("tier-l3"@.len() == 7);
        assert("tier-l1"@[6] != "tier-l2"@[6]);
        assert("tier-l1"@[6] != "tier-l3"@[6]);
        assert("tier-l2"@[6] != "tier-l3"@[6]);
    }
}

/// How many bytes a tier holds.
pub open spec fn capacity_of(t: CacheTier) -> u64 {
    match t {
        CacheTier::L1 => 268_435_456,
        CacheTier::L2 => 1_073_741_824,
        CacheTier::L3 => 4_294_967_296,
    }
}

/// The tier of a size.
pub open spec fn tier_for(len: nat) -> CacheTier {
    if len <= 65_536 {
        CacheTier::L1
    } else if len <= 1_048_576 {
        CacheTier::L2
    } else {
        CacheTier::L3
    }
}

impl CacheTier {
    pub fn capacity(&self) -> (r: u64)
        ensures
            r == capacity_of(*self),
    {
        match self {
            CacheTier::L1 => 268_435_456,
            CacheTier::L2 => 1_073_741_824,
            CacheTier::L3 => 4_294_967_296,
        }
    }

    pub fn for_size(len: usize) -> (r: CacheTier)
        ensures
            r == tier_for(len as nat),
    {
        if len <= 65_536 {
            CacheTier::L1
        } else if len <= 1_048_576 {
            CacheTier::L2
        } else {
            CacheTier::L3
        }
    }
}

/// A cached view.
#[derive(Debug)]
pub struct CacheEntry {
    pub tier: CacheTier,
    pub size: u64,
    /// When it was last asked for, in logical time.
    pub last_used: u64,
    /// The handles that the view rests on.
    pub deps: Vec<String>,
    pub tombstone: bool,
}

/// A cached view as a mathematical object.
#[verifier::ext_equal]
pub struct CacheEntryV {
    pub tier: CacheTier,
    pub size: u64,
    pub last_used: u64,
    pub deps: Seq<Seq<char>>,
    pub tombstone: bool,
}

impl DeepView for CacheEntry {
    type V = CacheEntryV;

    open spec fn deep_view(&self) -> CacheEntryV {
        CacheEntryV {
            tier: self.tier,
            size: self.size,
            last_used: self.last_used,
            deps: text_views(self.deps@),
            tombstone: self.tombstone,
        }
    }
}

impl Clone for CacheEntry {
    fn clone(&self) -> (r: CacheEntry)
        ensures
            r.deep_view() == self.deep_view(),
    {
        CacheEntry {
            tier: self.tier,
            size: self.size,
            last_used: self.last_used,
            deps: dup_texts(&self.deps),
            tombstone: self.tombstone,
        }
    }
}

/// A key with its entry.
pub type SlotV = (ViewKeyV, CacheEntryV);

/// The bytes in use in each tier.
#[derive(Clone, Copy, Debug, PartialEq, Eq, Structural)]
pub struct Used {
    pub l1: u64,
    pub l2: u64,
    pub l3: u64,
}

impl Used {
    pub open spec fn of(self, t: CacheTier) -> u64 {
        match t {
            CacheTier::L1 => self.l1,
            CacheTier::L2 => self.l2,
            CacheTier::L3 => self.l3,
        }
    }

    pub open spec fn with(self, t: CacheTier, n: u64) -> Used {
        match t {
            CacheTier::L1 => Used { l1: n, ..self },
            CacheTier::L2 => Used { l2: n, ..self },
            CacheTier::L3 => Used { l3: n, ..self },
        }
    }

    /// Less by a size; never below nothing.
    pub open spec fn less(self, t: CacheTier, size: u64) -> Used {
        self.with(
            t,
            if self.of(t) >= size {
                (self.of(t) - size) as u64
            } else {
                0
            },
        )
    }

    /// More by a size.
    pub open spec fn more(self, t: CacheTier, size: u64) -> Used {
        self.with(t, (self.of(t) + size) as u64)
    }

    /// The bytes in use in a tier.
    pub fn get(&self, t: CacheTier) -> (r: u64)
        ensures
            r == self.of(t),
    {
        match t {
            CacheTier::L1 => self.l1,
            CacheTier::L2 => self.l2,
            CacheTier::L3 => self.l3,
        }
    }

    fn set(&mut self, t: CacheTier, n: u64)
        ensures
            *final(self) == old(self).with(t, n),
    {
        match t {
            CacheTier::L1 => {
                self.l1 = n;
            },
            CacheTier::L2 => {
                self.l2 = n;
            },
            CacheTier::L3 => {
                self.l3 = n;
            },
        }
    }

    fn take(&mut self, t: CacheTier, size: u64)
        ensures
            *final(self) == old(self).less(t, size),
    {
        let n: u64 = self.get(t);
        self.set(t, if n >= size { n - size } else { 0 });
    }
}

/// The place of a key among keys: behind all that are smaller.
pub open spec fn place_from(s: Seq<SlotV>, k: ViewKeyV, i: int) -> int
    decreases s.len() - i,
{
    if i < 0 || i >= s.len() || !key_lt(s[i].0, k) {
        i
    } else {
        place_from(s, k, i + 1)
    }
}

/// The entry of a key.
pub open spec fn entry_of(s: Seq<SlotV>, k: ViewKeyV) -> Option<CacheEntryV> {
    let p = place_from(s, k, 0);
    if p < s.len() && s[p].0 == k {
        Some(s[p].1)
    } else {
        None
    }
}

/// The slots with an entry under a key, in place of one that was there.
pub open spec fn stored(s: Seq<SlotV>, k: ViewKeyV, e: CacheEntryV) -> Seq<SlotV> {
    let p = place_from(s, k, 0);
    if p < s.len() && s[p].0 == k {
        s.update(p, (k, e))
    } else {
        s.insert(p, (k, e))
    }
}

/// The keys are in strictly ascending order.
pub open spec fn in_order(s: Seq<SlotV>) -> bool {
    forall|i: int, j: int| 0 <= i < j < s.len() ==> key_lt(#[trigger] s[i].0, #[trigger] s[j].0)
}

proof fn lemma_place(s: Seq<SlotV>, k: ViewKeyV, i: int)
    requires
        0 <= i <= s.len(),
        forall|j: int| 0 <= j < i ==> key_lt(#[trigger] s[j].0, k),
    ensures
        i <= place_from(s, k, i) <= s.len(),
        forall|j: int| 0 <= j < place_from(s, k, i) ==> key_lt(#[trigger] s[j].0, k),
        place_from(s, k, i) < s.len() ==> !key_lt(s[place_from(s, k, i)].0, k),
    decreases s.len() - i,
{
    if i < s.len() && key_lt(s[i].0, k) {
        lemma_place(s, k, i + 1);
    }
}

/// Storing keeps the order of keys, and what was stored is found.
pub proof fn lemma_stored(s: Seq<SlotV>, k: ViewKeyV, e: CacheEntryV)
    requires
        in_order(s),
    ensures
        in_order(stored(s, k, e)),
        entry_of(stored(s, k, e), k) == Some(e),
{
    let p = place_from(s, k, 0);
    let t = stored(s, k, e);
    lemma_place(s, k, 0);
    if p < s.len() && s[p].0 == k {
        assert forall|i: int, j: int| 0 <= i < j < t.len() implies key_lt(
            #[trigger] t[i].0,
            #[trigger] t[j].0,
        ) by {
            assert(key_lt(s[i].0, s[j].0));
        }
    } else {
        assert forall|j: int| p <= j < s.len() implies key_lt(k, #[trigger] s[j].0) by {
            lemma_key_order(s[p].0, k, k);
            if j > p {
                assert(key_lt(s[p].0, s[j].0));
                lemma_key_order(k, s[p].0, s[j].0);
            }
        }
        assert forall|i: int, j: int| 0 <= i < j < t.len() implies key_lt(
            #[trigger] t[i].0,
            #[trigger] t[j].0,
        ) by {
            let a = if i < p {
                i
            } else {
                i - 1
            };
            let b = if j < p {
                j
            } else {
                j - 1
            };
            if i != p && j != p {
                assert(key_lt(s[a].0, s[b].0));
            }
        }
    }
    lemma_found(t, k, p, 0);
}

proof fn lemma_found(t: Seq<SlotV>, k: ViewKeyV, p: int, i: int)
    requires
        in_order(t),
        0 <= i <= p < t.len(),
        t[p].0 == k,
    ensures
        place_from(t, k, i) == p,
    decreases p - i,
{
    lemma_key_order(k, k, k);
    if i < p {
        assert(key_lt(t[i].0, t[p].0));
        lemma_found(t, k, p, i + 1);
    }
}

/// The one to drop of a tier: of the live entries from `i` on, and the one found
/// so far, that which was not asked for the longest; of two the one whose key
/// comes first.
pub open spec fn victim_from(s: Seq<SlotV>, t: CacheTier, i: int, best: Option<int>) -> Option<int>
    decreases s.len() - i,
{
    if i < 0 || i >= s.len() {
        best
    } else {
        let e = s[i].1;
        let better = e.tier == t && !e.tombstone && match best {
            Some(b) => e.last_used < s[b].1.last_used,
            None => true,
        };
        victim_from(
            s,
            t,
            i + 1,
            if better {
                Some(i)
            } else {
                best
            },
        )
    }
}

/// The state of the cache.
#[verifier::ext_equal]
pub struct ViewCacheV {
    pub slots: Seq<SlotV>,
    pub used: Used,
}

/// The path of a view below the cache's root.
pub open spec fn path_of(k: ViewKeyV, t: CacheTier) -> Seq<char> {
    t.name() + "/"@ + stem_of(k)
}

proof fn lemma_victim(s: Seq<SlotV>, t: CacheTier, i: int, best: Option<int>)
    requires
        0 <= i <= s.len(),
        best is Some ==> 0 <= best->0 < s.len() && s[best->0].1.tier == t
            && !s[best->0].1.tombstone && best->0 < i,
    ensures
        match victim_from(s, t, i, best) {
            Some(v) => {
                &&& 0 <= v < s.len() && s[v].1.tier == t && !s[v].1.tombstone
                &&& best == Some(v) || v >= i
                &&& best is Some ==> s[v].1.last_used <= s[best->0].1.last_used
                &&& best is Some && v != best->0 ==> s[v].1.last_used < s[best->0].1.last_used
                &&& forall|j: int|
                    i <= j < s.len() && (#[trigger] s[j]).1.tier == t && !s[j].1.tombstone
                        ==> s[v].1.last_used < s[j].1.last_used || (s[v].1.last_used
                        == s[j].1.last_used && v <= j)
            },
            None => best is None && forall|j: int|
                i <= j < s.len() ==> !((#[trigger] s[j]).1.tier == t && !s[j].1.tombstone),
        },
    decreases s.len() - i,
{
    if i < s.len() {
        let e = s[i].1;
        let better = e.tier == t && !e.tombstone && match best {
            Some(b) => e.last_used < s[b].1.last_used,
            None => true,
        };
        lemma_victim(
            s,
            t,
            i + 1,
            if better {
                Some(i)
            } else {
                best
            },
        );
    }
}

/// The bytes of a tier's entries.
pub open spec fn bytes_in(s: Seq<SlotV>, t: CacheTier) -> nat
    decreases s.len(),
{
    if s.len() == 0 {
        0
    } else {
        bytes_in(s.drop_last(), t) + if s.last().1.tier == t {
            s.last().1.size as nat
        } else {
            0
        }
    }
}

proof fn lemma_bytes_split(s: Seq<SlotV>, i: int, t: CacheTier)
    requires
        0 <= i < s.len(),
    ensures
        bytes_in(s, t) == bytes_in(s.remove(i), t) + if s[i].1.tier == t {
            s[i].1.size as nat
        } else {
            0
        },
    decreases s.len(),
{
    if i == s.len() - 1 {
        assert(s.remove(i) =~= s.drop_last());
    } else {
        lemma_bytes_split(s.drop_last(), i, t);
        assert(s.remove(i).drop_last() =~= s.drop_last().remove(i));
        assert(s.remove(i).last() == s.last());
    }
}

proof fn lemma_bytes_insert(s: Seq<SlotV>, i: int, x: SlotV, t: CacheTier)
    requires
        0 <= i <= s.len(),
    ensures
        bytes_in(s.insert(i, x), t) == bytes_in(s, t) + if x.1.tier == t {
            x.1.size as nat
        } else {
            0
        },
{
    lemma_bytes_split(s.insert(i, x), i, t);
    assert(s.insert(i, x).remove(i) =~= s);
}

impl ViewCacheV {
    pub open spec fn empty() -> ViewCacheV {
        ViewCacheV { slots: Seq::empty(), used: Used { l1: 0, l2: 0, l3: 0 } }
    }

    pub open spec fn wf(self) -> bool {
        in_order(self.slots)
    }

    /// The bytes in use are those of the entries.
    pub open spec fn exact(self) -> bool {
        self.used.l1 == bytes_in(self.slots, CacheTier::L1) && self.used.l2 == bytes_in(
            self.slots,
            CacheTier::L2,
        ) && self.used.l3 == bytes_in(self.slots, CacheTier::L3)
    }

    /// The state without a slot.
    pub open spec fn dropped(self, v: int) -> ViewCacheV {
        ViewCacheV {
            slots: self.slots.remove(v),
            used: self.used.less(self.slots[v].1.tier, self.slots[v].1.size),
        }
    }

    /// The state after enough was dropped of a tier, and the paths of what was.
    pub open spec fn evicted(self, t: CacheTier) -> (ViewCacheV, Seq<Seq<char>>)
        decreases self.slots.len(),
    {
        let v = victim_from(self.slots, t, 0, None);
        if self.used.of(t) <= capacity_of(t) || v is None || !(0 <= v->0 < self.slots.len()) {
            (self, Seq::empty())
        } else {
            let path = path_of(self.slots[v->0].0, self.slots[v->0].1.tier);
            let (st, more) = self.dropped(v->0).evicted(t);
            (st, seq![path] + more)
        }
    }

    /// The bytes in use after a view of that size is stored under a key, before
    /// anything is dropped.
    pub open spec fn used_with(self, k: ViewKeyV, size: u64) -> Used {
        let u = match entry_of(self.slots, k) {
            Some(e) => self.used.less(e.tier, e.size),
            None => self.used,
        };
        u.more(tier_for(size as nat), size)
    }

    /// There is room in the count of bytes.
    pub open spec fn counts(self, k: ViewKeyV, size: u64) -> bool {
        let u = match entry_of(self.slots, k) {
            Some(e) => self.used.less(e.tier, e.size),
            None => self.used,
        };
        u.of(tier_for(size as nat)) + size <= u64::MAX
    }

    /// The state after a view was stored.
    pub open spec fn put(self, k: ViewKeyV, size: u64, deps: Seq<Seq<char>>, now: u64) -> (
        ViewCacheV,
        Seq<Seq<char>>,
    ) {
        let t = tier_for(size as nat);
        let e = CacheEntryV { tier: t, size, last_used: now, deps, tombstone: false };
        ViewCacheV {
            slots: stored(self.slots, k, e),
            used: self.used_with(k, size),
        }.evicted(t)
    }

    /// The state after a view was asked for, and where it lies.
    pub open spec fn get(self, k: ViewKeyV, now: u64) -> (ViewCacheV, Option<Seq<char>>) {
        match entry_of(self.slots, k) {
            None => (self, None),
            Some(e) => if e.tombstone {
                (self, None)
            } else {
                (
                    ViewCacheV {
                        slots: stored(self.slots, k, CacheEntryV { last_used: now, ..e }),
                        ..self
                    },
                    Some(path_of(k, e.tier)),
                )
            },
        }
    }

    /// A view falls with a handle.
    pub open spec fn falls(e: CacheEntryV, handle: Seq<char>) -> bool {
        !e.tombstone && e.deps.contains(handle)
    }

    /// The state after a handle changed: views that rest on it are dead.
    pub open spec fn invalidated(self, handle: Seq<char>) -> ViewCacheV {
        ViewCacheV {
            slots: Seq::new(
                self.slots.len(),
                |i: int|
                    if ViewCacheV::falls(self.slots[i].1, handle) {
                        (
                            self.slots[i].0,
                            CacheEntryV { tombstone: true, ..self.slots[i].1 },
                        )
                    } else {
                        self.slots[i]
                    },
            ),
            ..self
        }
    }

    /// How many of the first `n` views fall with a handle.
    pub open spec fn fallen(self, handle: Seq<char>, n: nat) -> nat
        decreases n,
    {
        if n == 0 {
            0
        } else {
            self.fallen(handle, (n - 1) as nat) + if ViewCacheV::falls(
                self.slots[n - 1].1,
                handle,
            ) {
                1nat
            } else {
                0
            }
        }
    }

    /// How many of the first `n` views are live.
    pub open spec fn live(self, n: nat) -> nat
        decreases n,
    {
        if n == 0 {
            0
        } else {
            self.live((n - 1) as nat) + if self.slots[n - 1].1.tombstone {
                0nat
            } else {
                1
            }
        }
    }

    /// The index as one value.
    pub open spec fn image(self) -> CborV {
        CborV::Array(Seq::new(self.slots.len(), |i: int| slot_value(self.slots[i])))
    }

    /// After storing, the tier is within its limit, or nothing live is left in it
    /// that could be dropped.
    pub proof fn lemma_evicted(self, t: CacheTier)
        ensures
            ({
                let st = self.evicted(t).0;
                st.used.of(t) <= capacity_of(t) || forall|j: int|
                    0 <= j < st.slots.len() ==> !((#[trigger] st.slots[j]).1.tier == t
                        && !st.slots[j].1.tombstone)
            }),
            in_order(self.slots) ==> in_order(self.evicted(t).0.slots),
            self.exact() ==> self.evicted(t).0.exact(),
        decreases self.slots.len(),
    {
        let v = victim_from(self.slots, t, 0, None);
        lemma_victim(self.slots, t, 0, None);
        if self.used.of(t) > capacity_of(t) && v is Some {
            let d = self.dropped(v->0);
            if in_order(self.slots) {
                assert forall|i: int, j: int| 0 <= i < j < d.slots.len() implies key_lt(
                    #[trigger] d.slots[i].0,
                    #[trigger] d.slots[j].0,
                ) by {
                    let a = if i < v->0 {
                        i
                    } else {
                        i + 1
                    };
                    let b = if j < v->0 {
                        j
                    } else {
                        j + 1
                    };
                    assert(key_lt(self.slots[a].0, self.slots[b].0));
                }
            }
            if self.exact() {
                lemma_bytes_split(self.slots, v->0, CacheTier::L1);
                lemma_bytes_split(self.slots, v->0, CacheTier::L2);
                lemma_bytes_split(self.slots, v->0, CacheTier::L3);
                assert(d.exact());
            }
            d.lemma_evicted(t);
        }
    }

    /// Storing a view keeps the keys in order and the bytes in use exact.
    pub proof fn lemma_put(self, k: ViewKeyV, size: u64, deps: Seq<Seq<char>>, now: u64)
        requires
            self.wf(),
            self.exact(),
            self.counts(k, size),
        ensures
            self.put(k, size, deps, now).0.wf(),
            self.put(k, size, deps, now).0.exact(),
    {
        let t = tier_for(size as nat);
        let e = CacheEntryV { tier: t, size, last_used: now, deps, tombstone: false };
        let st = ViewCacheV {
            slots: stored(self.slots, k, e),
            used: self.used_with(k, size),
        };
        lemma_stored(self.slots, k, e);
        lemma_place(self.slots, k, 0);
        let p = place_from(self.slots, k, 0);
        if p < self.slots.len() && self.slots[p].0 == k {
            let less = self.slots.remove(p);
            assert(self.slots.update(p, (k, e)) =~= less.insert(p, (k, e)));
            lemma_bytes_split(self.slots, p, CacheTier::L1);
            lemma_bytes_split(self.slots, p, CacheTier::L2);
            lemma_bytes_split(self.slots, p, CacheTier::L3);
            lemma_bytes_insert(less, p, (k, e), CacheTier::L1);
            lemma_bytes_insert(less, p, (k, e), CacheTier::L2);
            lemma_bytes_insert(less, p, (k, e), CacheTier::L3);
        } else {
            lemma_bytes_insert(self.slots, p, (k, e), CacheTier::L1);
            lemma_bytes_insert(self.slots, p, (k, e), CacheTier::L2);
            lemma_bytes_insert(self.slots, p, (k, e), CacheTier::L3);
        }
        assert(st.exact());
        st.lemma_evicted(t);
    }

    /// Nothing is dropped from a tier that is within its limit. From one that is
    /// over it, the first to go is the live view of that tier that was not asked for
    /// the longest, and of two such the one whose key comes first.
    pub proof fn lemma_longest_idle_goes(self, t: CacheTier, v: int)
        requires
            0 <= v < self.slots.len(),
            self.slots[v].1.tier == t,
            !self.slots[v].1.tombstone,
            forall|j: int|
                0 <= j < self.slots.len() && j != v && (#[trigger] self.slots[j]).1.tier == t
                    && !self.slots[j].1.tombstone ==> self.slots[v].1.last_used
                    < self.slots[j].1.last_used || (self.slots[v].1.last_used
                    == self.slots[j].1.last_used && v < j),
        ensures
            self.used.of(t) <= capacity_of(t) ==> self.evicted(t) == (self, Seq::<Seq<char>>::empty()),
            self.used.of(t) > capacity_of(t) ==> {
                let (st, paths) = self.evicted(t);
                let (rest, more) = self.dropped(v).evicted(t);
                &&& st == rest
                &&& paths == seq![t.name() + "/"@ + stem_of(self.slots[v].0)] + more
            },
    {
        lemma_victim(self.slots, t, 0, None);
        let w = victim_from(self.slots, t, 0, None);
        assert(w is Some);
        if w->0 != v {
            assert(self.slots[w->0].1.tier == t);
        }
        assert(w == Some(v));
    }

    /// Dropping never touches another tier, nor a dead view, nor an entry that stays.
    pub proof fn lemma_rest_stays(self, t: CacheTier, k: ViewKeyV, e: CacheEntryV)
        requires
            self.slots.contains((k, e)),
            e.tier != t || e.tombstone,
        ensures
            self.evicted(t).0.slots.contains((k, e)),
        decreases self.slots.len(),
    {
        let v = victim_from(self.slots, t, 0, None);
        lemma_victim(self.slots, t, 0, None);
        if self.used.of(t) > capacity_of(t) && v is Some {
            let d = self.dropped(v->0);
            let p = choose|p: int| 0 <= p < self.slots.len() && self.slots[p] == (k, e);
            assert(p != v->0);
            let q = if p < v->0 {
                p
            } else {
                p - 1
            };
            assert(d.slots[q] == (k, e));
            assert(d.slots.contains((k, e)));
            d.lemma_rest_stays(t, k, e);
        }
    }

    /// A view that was stored where there is room is served from the tier of its
    /// size, with the handles it rests on and the time at which it was last asked
    /// for, and nothing was dropped for it.
    pub proof fn lemma_read_your_view(
        self,
        k: ViewKeyV,
        size: u64,
        deps: Seq<Seq<char>>,
        now: u64,
        later: u64,
    )
        requires
            self.wf(),
            self.used_with(k, size).of(tier_for(size as nat)) <= capacity_of(tier_for(size as nat)),
        ensures
            ({
                let (st, paths) = self.put(k, size, deps, now);
                let (after, found) = st.get(k, later);
                let t = tier_for(size as nat);
                &&& paths.len() == 0
                &&& found == Some(t.name() + "/"@ + stem_of(k))
                &&& entry_of(after.slots, k) == Some(
                    CacheEntryV { tier: t, size, last_used: later, deps, tombstone: false },
                )
                &&& after.used == st.used
            }),
    {
        let t = tier_for(size as nat);
        let e = CacheEntryV { tier: t, size, last_used: now, deps, tombstone: false };
        lemma_stored(self.slots, k, e);
        lemma_stored(stored(self.slots, k, e), k, CacheEntryV { last_used: later, ..e });
    }

    /// Storing or asking under one key leaves the entries of all others.
    pub proof fn lemma_others_kept(self, k: ViewKeyV, e: CacheEntryV, x: SlotV)
        requires
            self.wf(),
            x.0 != k,
        ensures
            stored(self.slots, k, e).contains(x) == self.slots.contains(x),
    {
        let s = self.slots;
        let p = place_from(s, k, 0);
        let t = stored(s, k, e);
        lemma_place(s, k, 0);
        if s.contains(x) {
            let i = choose|i: int| 0 <= i < s.len() && s[i] == x;
            if p < s.len() && s[p].0 == k {
                assert(t[i] == x);
            } else {
                let j = if i < p {
                    i
                } else {
                    i + 1
                };
                assert(t[j] == x);
            }
        }
        if t.contains(x) {
            let i = choose|i: int| 0 <= i < t.len() && t[i] == x;
            if p < s.len() && s[p].0 == k {
                assert(s[i] == x);
            } else {
                let j = if i < p {
                    i
                } else {
                    i - 1
                };
                assert(s[j] == x);
            }
        }
    }

    /// A handle that changed takes down every view that rests on it and no other,
    /// and changes no key.
    pub proof fn lemma_falls_with(self, handle: Seq<char>, i: int)
        requires
            0 <= i < self.slots.len(),
        ensures
            ({
                let d = self.invalidated(handle);
                &&& d.used == self.used
                &&& d.slots.len() == self.slots.len()
                &&& d.slots[i].0 == self.slots[i].0
                &&& self.slots[i].1.deps.contains(handle) ==> d.slots[i].1.tombstone
                &&& !self.slots[i].1.deps.contains(handle) ==> d.slots[i] == self.slots[i]
                &&& d.slots[i].1.deps == self.slots[i].1.deps
                &&& d.slots[i].1.size == self.slots[i].1.size
                &&& d.slots[i].1.tier == self.slots[i].1.tier
            }),
    {
    }

    /// A dead view is never served, whoever asks.
    pub proof fn lemma_fallen_not_served(self, k: ViewKeyV, handle: Seq<char>, now: u64)
        requires
            self.wf(),
            entry_of(self.slots, k) is Some,
            entry_of(self.slots, k)->0.deps.contains(handle),
        ensures
            self.invalidated(handle).get(k, now).1 is None,
    {
        let d = self.invalidated(handle);
        let p = place_from(self.slots, k, 0);
        lemma_place(self.slots, k, 0);
        assert(in_order(d.slots)) by {
            assert forall|i: int, j: int| 0 <= i < j < d.slots.len() implies key_lt(
                #[trigger] d.slots[i].0,
                #[trigger] d.slots[j].0,
            ) by {
                assert(key_lt(self.slots[i].0, self.slots[j].0));
            }
        }
        assert(d.slots[p].0 == k);
        lemma_found(d.slots, k, p, 0);
    }
}

/// The row of a slot in the index.
pub open spec fn slot_value(s: SlotV) -> CborV {
    let (k, e) = s;
    map_value(
        seq![
            ("view_id"@, CborV::Text(k.view_id)),
            ("ns"@, CborV::Text(k.ns)),
            ("version"@, CborV::U64(k.version)),
            ("params_hash"@, CborV::Bytes(k.params_hash)),
            ("tier"@, CborV::Text(e.tier.name())),
            ("size"@, CborV::U64(e.size)),
            ("last_used"@, CborV::U64(e.last_used)),
            ("deps"@, texts_value(e.deps)),
            ("tombstone"@, CborV::Bool(e.tombstone)),
        ],
    )
}

/// The slot of a row; none where the tier is unknown or the digest is not whole.
pub open spec fn slot_of(v: CborV) -> Option<SlotV> {
    match CacheTier::named(text_or_empty(v, "tier"@)) {
        None => None,
        Some(tier) => match v.bytes_field("params_hash"@) {
            Some(b) if b.len() == 32 => Some(
                (
                    ViewKeyV {
                        view_id: text_or_empty(v, "view_id"@),
                        ns: text_or_empty(v, "ns"@),
                        version: u64_or_zero(v, "version"@),
                        params_hash: b,
                    },
                    CacheEntryV {
                        tier,
                        size: u64_or_zero(v, "size"@),
                        last_used: u64_or_zero(v, "last_used"@),
                        deps: texts_field(v, "deps"@),
                        tombstone: match v.bool_field("tombstone"@) {
                            Some(b) => b,
                            None => false,
                        },
                    },
                ),
            ),
            _ => None,
        },
    }
}

/// The cache that the first `n` rows of an index give; rows that say nothing are
/// passed over.
pub open spec fn indexed(rows: Seq<CborV>, n: nat) -> ViewCacheV
    decreases n,
{
    if n == 0 {
        ViewCacheV::empty()
    } else {
        let st = indexed(rows, (n - 1) as nat);
        match slot_of(rows[n - 1]) {
            None => st,
            Some((k, e)) => ViewCacheV {
                slots: stored(st.slots, k, e),
                used: st.used.more(e.tier, e.size),
            },
        }
    }
}

/// The size of a row can be added to those before it.
pub open spec fn counts_at(rows: Seq<CborV>, n: int) -> bool {
    match slot_of(rows[n]) {
        None => true,
        Some((k, e)) => indexed(rows, n as nat).used.of(e.tier) + e.size <= u64::MAX,
    }
}

/// The sizes of the rows of an index can be counted.
pub open spec fn countable(rows: Seq<CborV>) -> bool {
    forall|n: int| 0 <= n < rows.len() ==> counts_at(rows, n)
}

/// The rows of an index.
pub open spec fn index_rows(v: CborV) -> Seq<CborV> {
    match v {
        CborV::Array(a) => a,
        _ => Seq::empty(),
    }
}

/// A slot is read back from its row.
pub proof fn lemma_slot_back(s: SlotV)
    requires
        s.0.params_hash.len() == 32,
    ensures
        slot_of(slot_value(s)) == Some(s),
{
    let (k, e) = s;
    let v = slot_value(s);
    CacheTier::lemma_named(e.tier, e.tier);
    lemma_texts_back(e.deps);
    let m = v->Pairs_0;
    reveal_strlit("view_id");
    reveal_strlit("ns");
    reveal_strlit("version");
    reveal_strlit("params_hash");
    reveal_strlit("tier");
    reveal_strlit("size");
    reveal_strlit("last_used");
    reveal_strlit("deps");
    reveal_strlit("tombstone");
    assert("view_id"@.len() == 7);
    assert("ns"@.len() == 2);
    assert("version"@.len() == 7);
    assert("params_hash"@.len() == 11);
    assert("tier"@.len() == 4);
    assert("size"@.len() == 4);
    assert("last_used"@.len() == 9);
    assert("deps"@.len() == 4);
    assert("tombstone"@.len() == 9);
    assert("view_id"@[1] != "version"@[1]);
    assert("tier"@[0] != "size"@[0]);
    assert("tier"@[0] != "deps"@[0]);
    assert("size"@[0] != "deps"@[0]);
    assert("last_used"@[0] != "tombstone"@[0]);
    reveal_with_fuel(lookup_from, 10);
    assert(m[0].0 == CborV::Text("view_id"@));
    assert(m[1].0 == CborV::Text("ns"@));
    assert(m[2].0 == CborV::Text("version"@));
    assert(m[3].0 == CborV::Text("params_hash"@));
    assert(m[4].0 == CborV::Text("tier"@));
    assert(m[5].0 == CborV::Text("size"@));
    assert(m[6].0 == CborV::Text("last_used"@));
    assert(m[7].0 == CborV::Text("deps"@));
    assert(m[8].0 == CborV::Text("tombstone"@));
    assert(v.field("view_id"@) == Some(CborV::Text(k.view_id)));
    assert(v.field("ns"@) == Some(CborV::Text(k.ns)));
    assert(v.field("version"@) == Some(CborV::U64(k.version)));
    assert(v.field("params_hash"@) == Some(CborV::Bytes(k.params_hash)));
    assert(v.field("tier"@) == Some(CborV::Text(e.tier.name())));
    assert(v.field("size"@) == Some(CborV::U64(e.size)));
    assert(v.field("last_used"@) == Some(CborV::U64(e.last_used)));
    assert(v.field("deps"@) == Some(texts_value(e.deps)));
    assert(v.field("tombstone"@) == Some(CborV::Bool(e.tombstone)));
}

proof fn lemma_stored_last(s: Seq<SlotV>, x: SlotV)
    requires
        forall|i: int| 0 <= i < s.len() ==> key_lt(#[trigger] s[i].0, x.0),
    ensures
        stored(s, x.0, x.1) == s.push(x),
{
    lemma_place(s, x.0, 0);
    let p = place_from(s, x.0, 0);
    assert(p == s.len());
    assert(s.insert(p, x) =~= s.push(x));
}

/// A cache comes back whole from its index.
pub proof fn lemma_index_back(st: ViewCacheV)
    requires
        st.wf(),
        st.exact(),
        forall|i: int| 0 <= i < st.slots.len() ==> (#[trigger] st.slots[i]).0.params_hash.len() == 32,
    ensures
        countable(index_rows(st.image())),
        indexed(index_rows(st.image()), st.slots.len()) == st,
{
    let rows = index_rows(st.image());
    lemma_index_part(st, st.slots.len());
    assert forall|n: int| 0 <= n < rows.len() implies counts_at(rows, n) by {
        let x = st.slots[n];
        lemma_index_part(st, n as nat);
        lemma_slot_back(x);
        assert(rows[n] == slot_value(x));
        assert(st.slots.take(n + 1).drop_last() =~= st.slots.take(n));
        lemma_bytes_grow(st.slots, n + 1, x.1.tier);
    }
}

/// The first rows of the index of a cache give its first slots.
proof fn lemma_index_part(st: ViewCacheV, n: nat)
    requires
        st.wf(),
        st.exact(),
        n <= st.slots.len(),
        forall|i: int| 0 <= i < st.slots.len() ==> (#[trigger] st.slots[i]).0.params_hash.len() == 32,
    ensures
        ({
            let rows = index_rows(st.image());
            let part = indexed(rows, n);
            &&& part.slots == st.slots.take(n as int)
            &&& part.exact()
            &&& n == st.slots.len() ==> part == st
        }),
    decreases n,
{
    let rows = index_rows(st.image());
    if n == 0 {
        assert(st.slots.take(0) =~= Seq::empty());
        if st.slots.len() == 0 {
            assert(indexed(rows, 0) =~= st);
        }
    } else {
        lemma_index_part(st, (n - 1) as nat);
        let before = indexed(rows, (n - 1) as nat);
        let x = st.slots[n - 1];
        lemma_slot_back(x);
        assert(rows[n - 1] == slot_value(x));
        assert forall|i: int| 0 <= i < before.slots.len() implies key_lt(
            #[trigger] before.slots[i].0,
            x.0,
        ) by {
            assert(key_lt(st.slots[i].0, st.slots[n - 1].0));
        }
        lemma_stored_last(before.slots, x);
        assert(st.slots.take(n as int) =~= st.slots.take(n - 1).push(x));
        let now = indexed(rows, n);
        lemma_bytes_grow(st.slots, n as int, CacheTier::L1);
        lemma_bytes_grow(st.slots, n as int, CacheTier::L2);
        lemma_bytes_grow(st.slots, n as int, CacheTier::L3);
        assert(now.slots.drop_last() =~= before.slots);
        assert(now.slots.last() == x);
        assert(now.exact());
        if n == st.slots.len() {
            assert(st.slots.take(n as int) =~= st.slots);
            assert(now =~= st);
        }
    }
}

proof fn lemma_bytes_grow(s: Seq<SlotV>, n: int, t: CacheTier)
    requires
        0 <= n <= s.len(),
    ensures
        bytes_in(s.take(n), t) <= bytes_in(s, t),
    decreases s.len() - n,
{
    if n < s.len() {
        lemma_bytes_grow(s, n + 1, t);
        assert(s.take(n + 1).drop_last() =~= s.take(n));
    } else {
        assert(s.take(n) =~= s);
    }
}

/// The cache of rendered views.
#[derive(Debug)]
pub struct PrefixCacheStore {
    entries: Vec<(ViewKey, CacheEntry)>,
    used: Used,
}

/// Slots as mathematical objects.
pub open spec fn slot_views(s: Seq<(ViewKey, CacheEntry)>) -> Seq<SlotV> {
    Seq::new(s.len(), |i: int| (s[i].0.deep_view(), s[i].1.deep_view()))
}

impl View for PrefixCacheStore {
    type V = ViewCacheV;

    closed spec fn view(&self) -> ViewCacheV {
        ViewCacheV { slots: slot_views(self.entries@), used: self.used }
    }
}

/// Where a view of that size is written.
pub fn view_path(key: &ViewKey, len: usize) -> (r: String)
    ensures
        r@ == path_of(key.deep_view(), tier_for(len as nat)),
{
    cat3(CacheTier::for_size(len).dirname(), "/", key.file_stem().as_str())
}

impl PrefixCacheStore {
    pub fn new() -> (r: Self)
        ensures
            r@ == ViewCacheV::empty(),
    {
        let r = PrefixCacheStore { entries: Vec::new(), used: Used { l1: 0, l2: 0, l3: 0 } };
        assert(r@.slots =~= Seq::empty());
        r
    }

    fn place(&self, key: &ViewKey) -> (r: usize)
        ensures
            r == place_from(self@.slots, key.deep_view(), 0),
            r <= self.entries@.len(),
    {
        let ghost s = self@.slots;
        let mut i: usize = 0;
        while i < self.entries.len() && self.entries[i].0.before(key)
            invariant
                i <= self.entries@.len(),
                s == slot_views(self.entries@),
                place_from(s, key.deep_view(), 0) == place_from(s, key.deep_view(), i as int),
            decreases self.entries.len() - i,
        {
            i += 1;
        }
        i
    }

    fn store(&mut self, key: ViewKey, e: CacheEntry)
        ensures
            final(self)@ == (ViewCacheV {
                slots: stored(old(self)@.slots, key.deep_view(), e.deep_view()),
                ..old(self)@
            }),
    {
        let ghost was = self@;
        let ghost x = (key.deep_view(), e.deep_view());
        let p: usize = self.place(&key);
        if p < self.entries.len() && self.entries[p].0.same(&key) {
            self.entries.set(p, (key, e));
            assert(self@.slots =~= was.slots.update(p as int, x));
        } else {
            self.entries.insert(p, (key, e));
            assert(self@.slots =~= was.slots.insert(p as int, x));
        }
    }

    /// Asks for a view: where it lies, if it is there and live.
    pub fn get(&mut self, key: &ViewKey, now: u64) -> (r: Option<String>)
        ensures
            final(self)@ == old(self)@.get(key.deep_view(), now).0,
            r.deep_view() == old(self)@.get(key.deep_view(), now).1,
    {
        let ghost was = self@;
        let p: usize = self.place(key);
        if p < self.entries.len() && self.entries[p].0.same(key) && !self.entries[p].1.tombstone {
            let mut e = self.entries[p].1.clone();
            let path = cat3(e.tier.dirname(), "/", key.file_stem().as_str());
            e.last_used = now;
            let k = ViewKey {
                view_id: key.view_id.as_str().to_string(),
                ns: key.ns.as_str().to_string(),
                version: key.version,
                params_hash: key.params_hash,
            };
            let ghost x = (k.deep_view(), e.deep_view());
            self.entries.set(p, (k, e));
            assert(self@.slots =~= was.slots.update(p as int, x));
            assert(x.1 =~= (CacheEntryV { last_used: now, ..was.slots[p as int].1 }));
            Some(path)
        } else {
            None
        }
    }

    fn victim(&self, t: CacheTier) -> (r: Option<usize>)
        ensures
            match r {
                Some(v) => victim_from(self@.slots, t, 0, None) == Some(v as int) && v
                    < self.entries@.len(),
                None => victim_from(self@.slots, t, 0, None) is None,
            },
    {
        let ghost s = self@.slots;
        let mut best: Option<usize> = None;
        let mut i: usize = 0;
        while i < self.entries.len()
            invariant
                i <= self.entries@.len(),
                s == slot_views(self.entries@),
                best is Some ==> best->0 < self.entries@.len(),
                victim_from(s, t, 0, None) == victim_from(
                    s,
                    t,
                    i as int,
                    match best {
                        Some(b) => Some(b as int),
                        None => None,
                    },
                ),
            decreases self.entries.len() - i,
        {
            let e = &self.entries[i].1;
            let better: bool = e.tier == t && !e.tombstone && match best {
                Some(b) => e.last_used < self.entries[b].1.last_used,
                None => true,
            };
            if better {
                best = Some(i);
            }
            i += 1;
        }
        best
    }

    fn evict(&mut self, t: CacheTier) -> (r: Vec<String>)
        ensures
            final(self)@ == old(self)@.evicted(t).0,
            text_views(r@) == old(self)@.evicted(t).1,
    {
        let ghost whole = self@.evicted(t);
        let mut out: Vec<String> = Vec::new();
        assert(text_views(out@) + whole.1 =~= whole.1);
        while self.used.get(t) > t.capacity()
            invariant
                whole == old(self)@.evicted(t),
                whole.0 == self@.evicted(t).0,
                text_views(out@) + self@.evicted(t).1 == whole.1,
            decreases self.entries.len(),
        {
            match self.victim(t) {
                None => {
                    assert(text_views(out@) + Seq::empty() =~= text_views(out@));
                    return out;
                },
                Some(v) => {
                    let ghost was = self@;
                    let ghost before = text_views(out@);
                    let (k, e) = self.entries.remove(v);
                    self.used.take(e.tier, e.size);
                    let path = cat3(e.tier.dirname(), "/", k.file_stem().as_str());
                    out.push(path);
                    proof {
                        assert(self@.slots =~= was.slots.remove(v as int));
                        assert(self@ =~= was.dropped(v as int));
                        let more = self@.evicted(t).1;
                        assert(was.evicted(t).1 == seq![path@] + more);
                        assert(text_views(out@) =~= before.push(path@));
                        assert(before.push(path@) + more =~= before + (seq![path@] + more));
                    }
                },
            }
        }
        assert(text_views(out@) + Seq::empty() =~= text_views(out@));
        out
    }

    /// Takes up a view whose bytes were written; gives the paths of what has to
    /// go for it.
    pub fn put(&mut self, key: ViewKey, len: usize, deps: Vec<String>, now: u64) -> (r: Vec<String>)
        requires
            old(self)@.counts(key.deep_view(), len as u64),
        ensures
            final(self)@ == old(self)@.put(
                key.deep_view(),
                len as u64,
                text_views(deps@),
                now,
            ).0,
            text_views(r@) == old(self)@.put(
                key.deep_view(),
                len as u64,
                text_views(deps@),
                now,
            ).1,
    {
        let tier = CacheTier::for_size(len);
        let size: u64 = len as u64;
        let ghost was = self@;
        let ghost kv = key.deep_view();
        let p: usize = self.place(&key);
        if p < self.entries.len() && self.entries[p].0.same(&key) {
            let t: CacheTier = self.entries[p].1.tier;
            let s: u64 = self.entries[p].1.size;
            self.used.take(t, s);
        }
        let n: u64 = self.used.get(tier);
        self.used.set(tier, n + size);
        let e = CacheEntry { tier, size, last_used: now, deps, tombstone: false };
        assert(self@.slots == was.slots);
        assert(self@.used == was.used_with(kv, size));
        self.store(key, e);
        self.evict(tier)
    }

    /// A handle changed: the views that rest on it are dead. Gives their number.
    pub fn invalidate_handle(&mut self, handle: &str) -> (r: u64)
        ensures
            final(self)@ == old(self)@.invalidated(handle@),
            r == old(self)@.fallen(handle@, old(self)@.slots.len()),
    {
        let ghost was = self@;
        let ghost want = was.invalidated(handle@);
        let n: usize = self.entries.len();
        let mut count: u64 = 0;
        let mut i: usize = 0;
        while i < n
            invariant
                i <= n == self.entries@.len() == was.slots.len(),
                count <= i,
                want == was.invalidated(handle@),
                self@.used == was.used,
                count == was.fallen(handle@, i as nat),
                forall|j: int| 0 <= j < i ==> #[trigger] self@.slots[j] == want.slots[j],
                forall|j: int| i <= j < n ==> #[trigger] self@.slots[j] == was.slots[j],
            decreases n - i,
        {
            let ghost before = self@.slots;
            assert(before[i as int] == was.slots[i as int]);
            if !self.entries[i].1.tombstone && among(&self.entries[i].1.deps, handle) {
                let (k, mut e) = self.entries.remove(i);
                e.tombstone = true;
                let ghost x = (k.deep_view(), e.deep_view());
                self.entries.insert(i, (k, e));
                assert(self@.slots =~= before.update(i as int, x));
                assert(x =~= want.slots[i as int]);
                count += 1;
            }
            i += 1;
        }
        assert(self@.slots =~= want.slots);
        count
    }

    /// Drops everything; gives the paths of what was there.
    pub fn purge_all(&mut self) -> (r: Vec<String>)
        ensures
            final(self)@ == ViewCacheV::empty(),
            text_views(r@) == Seq::new(
                old(self)@.slots.len(),
                |i: int| path_of(old(self)@.slots[i].0, old(self)@.slots[i].1.tier),
            ),
    {
        let ghost was = self@;
        let ghost want = Seq::new(
            was.slots.len(),
            |i: int| path_of(was.slots[i].0, was.slots[i].1.tier),
        );
        let mut out: Vec<String> = Vec::new();
        let mut i: usize = 0;
        assert(text_views(out@) =~= want.take(0));
        while i < self.entries.len()
            invariant
                i <= self.entries@.len(),
                was.slots == slot_views(self.entries@),
                want == Seq::new(
                    was.slots.len(),
                    |i: int| path_of(was.slots[i].0, was.slots[i].1.tier),
                ),
                text_views(out@) == want.take(i as int),
            decreases self.entries.len() - i,
        {
            let ghost before = text_views(out@);
            let path = cat3(
                self.entries[i].1.tier.dirname(),
                "/",
                self.entries[i].0.file_stem().as_str(),
            );
            out.push(path);
            assert(text_views(out@) =~= before.push(path@));
            assert(want[i as int] == path@);
            i += 1;
            assert(want.take(i as int) =~= want.take(i - 1).push(want[i - 1]));
        }
        assert(want.take(want.len() as int) =~= want);
        self.entries = Vec::new();
        self.used = Used { l1: 0, l2: 0, l3: 0 };
        assert(self@.slots =~= Seq::empty());
        out
    }

    /// The index, to be kept.
    pub fn save_index(&self) -> (r: Cbor)
        ensures
            r@ == self@.image(),
    {
        let ghost s = self@.slots;
        let ghost want = Seq::new(s.len(), |i: int| slot_value(s[i]));
        let mut out: Vec<Cbor> = Vec::new();
        let mut i: usize = 0;
        assert(views(out@) =~= want.take(0));
        while i < self.entries.len()
            invariant
                i <= self.entries@.len(),
                s == slot_views(self.entries@),
                want == Seq::new(s.len(), |i: int| slot_value(s[i])),
                views(out@) == want.take(i as int),
            decreases self.entries.len() - i,
        {
            let k = &self.entries[i].0;
            let e = &self.entries[i].1;
            assert(s[i as int] == (k.deep_view(), e.deep_view()));
            let pairs = vec![
                ("view_id", Cbor::t(k.view_id.as_str())),
                ("ns", Cbor::t(k.ns.as_str())),
                ("version", Cbor::U64(k.version)),
                ("params_hash", Cbor::bytes(bytes_of(&k.params_hash))),
                ("tier", Cbor::t(e.tier.dirname())),
                ("size", Cbor::U64(e.size)),
                ("last_used", Cbor::U64(e.last_used)),
                ("deps", Cbor::text_array(e.deps.as_slice())),
                ("tombstone", Cbor::Bool(e.tombstone)),
            ];
            let ghost got = Seq::new(pairs@.len(), |i: int| (pairs@[i].0@, pairs@[i].1@));
            let row = Cbor::map(pairs);
            assert(row@ == map_value(got));
            assert(row@->Pairs_0 =~= slot_value(s[i as int])->Pairs_0);
            let ghost before = views(out@);
            out.push(row);
            assert(views(out@) =~= before.push(row@));
            i += 1;
            assert(want.take(i as int) =~= want.take(i - 1).push(want[i - 1]));
        }
        assert(want.take(want.len() as int) =~= want);
        Cbor::arr(out)
    }

    fn adopt(&mut self, key: ViewKey, e: CacheEntry)
        requires
            old(self)@.used.of(e.tier) + e.size <= u64::MAX,
        ensures
            final(self)@ == (ViewCacheV {
                slots: stored(old(self)@.slots, key.deep_view(), e.deep_view()),
                used: old(self)@.used.more(e.tier, e.size),
            }),
    {
        let ghost was = self@;
        let n: u64 = self.used.get(e.tier);
        self.used.set(e.tier, n + e.size);
        assert(self@.slots == was.slots);
        self.store(key, e);
    }

    /// The cache that an index gives; none where its sizes cannot be counted.
    pub fn load_index(c: &Cbor) -> (r: Option<PrefixCacheStore>)
        ensures
            match r {
                Some(st) => countable(index_rows(c@)) && st@ == indexed(
                    index_rows(c@),
                    index_rows(c@).len(),
                ),
                None => !countable(index_rows(c@)),
            },
    {
        let mut st = PrefixCacheStore::new();
        if let Some(rows) = c.as_array() {
            let ghost all = views(rows@);
            assert(all == index_rows(c@));
            let mut i: usize = 0;
            while i < rows.len()
                invariant
                    i <= rows@.len(),
                    all == views(rows@),
                    all == index_rows(c@),
                    forall|n: int| 0 <= n < i ==> counts_at(all, n),
                    st@ == indexed(all, i as nat),
                decreases rows.len() - i,
            {
                let row = &rows[i];
                assert(all[i as int] == row@);
                if let Some((k, e)) = read_slot(row) {
                    if e.size > u64::MAX - st.used.get(e.tier) {
                        assert(!counts_at(all, i as int));
                        return None;
                    }
                    st.adopt(k, e);
                }
                assert(counts_at(all, i as int));
                i += 1;
            }
        }
        Some(st)
    }

    /// The bytes in use.
    pub fn used(&self) -> (r: Used)
        ensures
            r == self@.used,
    {
        self.used
    }

    /// How many views are live, and how many bytes are in use.
    pub fn stats(&self) -> (r: (usize, u64))
        requires
            self@.used.l1 + self@.used.l2 + self@.used.l3 <= u64::MAX,
        ensures
            r.0 == self@.live(self@.slots.len()),
            r.1 == self@.used.l1 + self@.used.l2 + self@.used.l3,
    {
        let ghost s = self@.slots;
        let mut live: usize = 0;
        let mut i: usize = 0;
        while i < self.entries.len()
            invariant
                i <= self.entries@.len(),
                s == slot_views(self.entries@),
                s == self@.slots,
                live <= i,
                live == self@.live(i as nat),
            decreases self.entries.len() - i,
        {
            if !self.entries[i].1.tombstone {
                live += 1;
            }
            i += 1;
        }
        (live, self.used.l1 + self.used.l2 + self.used.l3)
    }
}

fn read_slot(v: &Cbor) -> (r: Option<(ViewKey, CacheEntry)>)
    ensures
        match r {
            Some((k, e)) => slot_of(v@) == Some((k.deep_view(), e.deep_view())),
            None => slot_of(v@) is None,
        },
{
    let tier = match CacheTier::parse(v.str_or_empty("tier").as_str()) {
        Some(t) => t,
        None => {
            return None;
        },
    };
    let params_hash = match v.get("params_hash") {
        Some(b) => match b.as_bytes() {
            Some(b) => {
                if b.len() != 32 {
                    return None;
                }
                assert(b@.take(32) =~= b@);
                first_32(b)
            },
            None => {
                return None;
            },
        },
        None => {
            return None;
        },
    };
    let tombstone: bool = match v.opt_bool("tombstone") {
        Some(b) => b,
        None => false,
    };
    Some(
        (
            ViewKey {
                view_id: v.str_or_empty("view_id"),
                ns: v.str_or_empty("ns"),
                version: v.u64_or_zero("version"),
                params_hash,
            },
            CacheEntry {
                tier,
                size: v.u64_or_zero("size"),
                last_used: v.u64_or_zero("last_used"),
                deps: v.texts_or_empty("deps"),
                tombstone,
            },
        ),
    )
}

} // verus!
