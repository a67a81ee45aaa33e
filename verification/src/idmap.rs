//! A map keyed by number, kept in ascending key order, and its encoded rows.

use vstd::prelude::*;
use crate::cbor::CborV;
use crate::vocab::ErrV;

verus! {

/// Strictly ascending numbers.
pub open spec fn ascending(o: Seq<u64>) -> bool {
    forall|i: int, j: int| 0 <= i < j < o.len() ==> #[trigger] o[i] < #[trigger] o[j]
}

/// `o` lists the members of `s` once each, in ascending order.
pub open spec fn lists(o: Seq<u64>, s: Set<u64>) -> bool {
    ascending(o) && forall|k: u64| #[trigger] s.contains(k) <==> o.contains(k)
}

/// The members of `s` in ascending order (for a set that can be listed so).
pub open spec fn id_order(s: Set<u64>) -> Seq<u64> {
    choose|o: Seq<u64>| lists(o, s)
}

/// There is only one ascending list of a set.
pub proof fn lemma_lists_unique(a: Seq<u64>, b: Seq<u64>, s: Set<u64>)
    requires
        lists(a, s),
        lists(b, s),
    ensures
        a == b,
    decreases a.len(),
{
    if a.len() == 0 {
        if b.len() > 0 {
            assert(b.contains(b[0]));
            assert(s.contains(b[0]));
            assert(a.contains(b[0]));
        }
        assert(a =~= b);
    } else {
        assert(a.contains(a.last()));
        assert(s.contains(a.last()));
        assert(b.contains(a.last()));
        assert(b.len() > 0);
        assert(b.contains(b.last()));
        assert(s.contains(b.last()));
        assert(a.contains(b.last()));
        let i = choose|i: int| 0 <= i < a.len() && a[i] == b.last();
        let j = choose|j: int| 0 <= j < b.len() && b[j] == a.last();
        if a.last() != b.last() {
            assert(i < a.len() - 1);
            assert(j < b.len() - 1);
            assert(a[i] < a[a.len() - 1]);
            assert(b[j] < b[b.len() - 1]);
            assert(false);
        }
        let s2 = s.remove(a.last());
        let a2 = a.drop_last();
        let b2 = b.drop_last();
        assert forall|k: u64| #[trigger] s2.contains(k) <==> a2.contains(k) by {
            lemma_without_last(a, k);
            assert(s.contains(k) <==> a.contains(k));
        }
        assert forall|k: u64| #[trigger] s2.contains(k) <==> b2.contains(k) by {
            lemma_without_last(b, k);
            assert(s.contains(k) <==> b.contains(k));
        }
        lemma_lists_unique(a2, b2, s2);
        assert(a =~= a2.push(a.last()));
        assert(b =~= b2.push(b.last()));
    }
}

proof fn lemma_without_last(a: Seq<u64>, k: u64)
    requires
        ascending(a),
        a.len() > 0,
    ensures
        a.drop_last().contains(k) <==> (a.contains(k) && k != a.last()),
{
    if a.drop_last().contains(k) {
        let i = choose|i: int| 0 <= i < a.drop_last().len() && a.drop_last()[i] == k;
        assert(a[i] == k);
        assert(a[i] < a[a.len() - 1]);
    }
    if a.contains(k) && k != a.last() {
        let i = choose|i: int| 0 <= i < a.len() && a[i] == k;
        assert(a.drop_last()[i] == k);
    }
}

/// The order of a set is any ascending list of it.
pub proof fn lemma_id_order(o: Seq<u64>, s: Set<u64>)
    requires
        lists(o, s),
    ensures
        id_order(s) == o,
{
    lemma_lists_unique(id_order(s), o, s);
}

proof fn lemma_place(o: Seq<u64>, k: u64) -> (n: int)
    requires
        ascending(o),
        !o.contains(k),
    ensures
        0 <= n <= o.len(),
        ascending(o.insert(n, k)),
    decreases o.len(),
{
    if o.len() == 0 {
        0
    } else {
        let d = o.drop_last();
        if o.last() < k {
            let r = o.insert(o.len() as int, k);
            assert forall|i: int, j: int| 0 <= i < j < r.len() implies #[trigger] r[i] < #[trigger] r[j] by {
                if j == o.len() && i < o.len() - 1 {
                    assert(o[i] < o[o.len() - 1]);
                }
            }
            o.len() as int
        } else {
            assert(o[o.len() - 1] == o.last());
            assert forall|x: u64| d.contains(x) implies o.contains(x) by {
                let i = choose|i: int| 0 <= i < d.len() && d[i] == x;
                assert(o[i] == x);
            }
            let n = lemma_place(d, k);
            let q = d.insert(n, k);
            let r = o.insert(n, k);
            assert(r =~= q.push(o.last()));
            assert forall|i: int, j: int| 0 <= i < j < r.len() implies #[trigger] r[i] < #[trigger] r[j] by {
                if j == q.len() {
                    if i < n {
                        assert(o[i] < o[o.len() - 1]);
                    } else if i > n {
                        assert(o[i - 1] < o[o.len() - 1]);
                    }
                } else {
                    assert(q[i] < q[j]);
                }
            }
            n
        }
    }
}

/// Every finite set has an ascending list.
pub proof fn lemma_finite_listed(s: Set<u64>)
    requires
        s.finite(),
    ensures
        lists(id_order(s), s),
    decreases s.len(),
{
    if s.len() == 0 {
        let o = Seq::<u64>::empty();
        assert(s =~= Set::<u64>::empty());
        assert(lists(o, s));
    } else {
        let k = s.choose();
        let d = s.remove(k);
        lemma_finite_listed(d);
        let p = id_order(d);
        assert(!p.contains(k)) by {
            assert(d.contains(k) <==> p.contains(k));
        }
        let n = lemma_place(p, k);
        let o = p.insert(n, k);
        assert forall|x: u64| #[trigger] s.contains(x) <==> o.contains(x) by {
            assert(d.contains(x) <==> p.contains(x));
            if p.contains(x) {
                let i = choose|i: int| 0 <= i < p.len() && p[i] == x;
                assert(o[if i < n { i } else { i + 1 }] == x);
            }
            if o.contains(x) {
                let i = choose|i: int| 0 <= i < o.len() && o[i] == x;
                if i != n {
                    assert(p[if i < n { i } else { i - 1 }] == x);
                }
            }
            assert(o[n] == k);
        }
        assert(lists(o, s));
    }
}

/// A set with an ascending list is finite and as large as the list is long.
pub proof fn lemma_listed_finite(o: Seq<u64>, s: Set<u64>)
    requires
        lists(o, s),
    ensures
        s.finite(),
        s.len() == o.len(),
        o.no_duplicates(),
{
    assert forall|i: int, j: int| 0 <= i < o.len() && 0 <= j < o.len() && i != j implies o[i]
        != o[j] by {
        if i < j {
            assert(o[i] < o[j]);
        } else {
            assert(o[j] < o[i]);
        }
    }
    assert(o.to_set() =~= s);
    o.unique_seq_to_set();
}

/// Key-value pairs in ascending key order, each key once.
#[derive(Debug)]
pub struct IdMap<V: DeepView> {
    keys: Vec<u64>,
    vals: Vec<V>,
}

impl<V: DeepView> View for IdMap<V> {
    type V = Map<u64, V::V>;

    closed spec fn view(&self) -> Map<u64, V::V> {
        Map::new(
            |k: u64| self.keys@.contains(k),
            |k: u64| self.vals@[self.keys@.index_of(k)].deep_view(),
        )
    }
}

impl<V: DeepView> DeepView for IdMap<V> {
    type V = Map<u64, V::V>;

    open spec fn deep_view(&self) -> Map<u64, V::V> {
        self@
    }
}

impl<V: DeepView> IdMap<V> {
    #[verifier::type_invariant]
    spec fn inv(&self) -> bool {
        self.keys@.len() == self.vals@.len() && ascending(self.keys@)
    }

    /// The keys in ascending order.
    pub closed spec fn order(&self) -> Seq<u64> {
        self.keys@
    }

    proof fn lemma_at(&self, i: int)
        requires
            self.inv(),
            0 <= i < self.keys@.len(),
        ensures
            self@.contains_key(self.keys@[i]),
            self@[self.keys@[i]] == self.vals@[i].deep_view(),
    {
        let o = self.keys@;
        let k = self.keys@[i];
        assert(o[i] == k);
        assert(o.contains(k));
        let j = o.index_of(k);
        if j < i {
            assert(o[j] < o[i]);
        } else if i < j {
            assert(o[i] < o[j]);
        }
    }

    pub fn new() -> (r: Self)
        ensures
            r@ == Map::<u64, V::V>::empty(),
    {
        let r = IdMap { keys: Vec::new(), vals: Vec::new() };
        assert(r@ =~= Map::<u64, V::V>::empty());
        r
    }

    pub fn len(&self) -> (r: usize)
        ensures
            r == self.order().len(),
            r == self@.dom().len(),
            self@.dom().finite(),
            self.order() == id_order(self@.dom()),
            lists(self.order(), self@.dom()),
    {
        proof {
            use_type_invariant(self);
            assert(lists(self.order(), self@.dom()));
            lemma_listed_finite(self.order(), self@.dom());
            lemma_id_order(self.order(), self@.dom());
        }
        self.keys.len()
    }

    /// The key at place `i` of the order.
    pub fn key_at(&self, i: usize) -> (r: u64)
        requires
            i < self.order().len(),
        ensures
            r == self.order()[i as int],
            self@.contains_key(r),
    {
        proof {
            use_type_invariant(self);
            self.lemma_at(i as int);
        }
        self.keys[i]
    }

    /// The value at place `i` of the order.
    pub fn value_at(&self, i: usize) -> (r: &V)
        requires
            i < self.order().len(),
        ensures
            r.deep_view() == self@[self.order()[i as int]],
    {
        proof {
            use_type_invariant(self);
            self.lemma_at(i as int);
        }
        &self.vals[i]
    }

    /// The first place whose key is not before `k`.
    fn place(&self, k: u64) -> (r: usize)
        ensures
            r <= self.keys@.len(),
            forall|i: int| 0 <= i < r ==> #[trigger] self.keys@[i] < k,
            forall|i: int| r <= i < self.keys@.len() ==> !(#[trigger] self.keys@[i] < k),
    {
        proof {
            use_type_invariant(self);
        }
        let ghost o = self.keys@;
        let mut lo: usize = 0;
        let mut hi: usize = self.keys.len();
        while lo < hi
            invariant
                o == self.keys@,
                ascending(o),
                lo <= hi <= self.keys@.len(),
                forall|i: int| 0 <= i < lo ==> #[trigger] self.keys@[i] < k,
                forall|i: int| hi <= i < self.keys@.len() ==> !(#[trigger] self.keys@[i] < k),
            decreases hi - lo,
        {
            let mid: usize = lo + (hi - lo) / 2;
            if self.keys[mid] < k {
                assert forall|i: int| 0 <= i < mid + 1 implies #[trigger] self.keys@[i] < k by {
                    if i < mid {
                        assert(o[i] < o[mid as int]);
                    }
                }
                lo = mid + 1;
            } else {
                assert forall|i: int| mid <= i < self.keys@.len() implies !(#[trigger] self.keys@[i] < k) by {
                    if i > mid && self.keys@[i] < k {
                        assert(o[mid as int] < o[i]);
                    }
                }
                hi = mid;
            }
        }
        lo
    }

    /// Where `k` is, and whether it is there.
    fn find(&self, k: u64) -> (r: (usize, bool))
        ensures
            r.0 <= self.keys@.len(),
            r.1 ==> r.0 < self.keys@.len() && self.keys@[r.0 as int] == k,
            r.1 == self@.contains_key(k),
            forall|i: int| 0 <= i < r.0 ==> #[trigger] self.keys@[i] < k,
            !r.1 ==> forall|i: int| r.0 <= i < self.keys@.len() ==> k < #[trigger] self.keys@[i],
    {
        let p: usize = self.place(k);
        let there: bool = p < self.keys.len() && self.keys[p] == k;
        proof {
            use_type_invariant(self);
            let o = self.keys@;
            if there {
                self.lemma_at(p as int);
            } else {
                assert forall|i: int| p <= i < self.keys@.len() implies k < #[trigger] self.keys@[i] by {
                    if i > p {
                        assert(o[p as int] < o[i]);
                    }
                }
                if o.contains(k) {
                    let i = choose|i: int| 0 <= i < o.len() && o[i] == k;
                    assert(self.keys@[i] == k);
                    assert(false);
                }
            }
        }
        (p, there)
    }

    pub fn contains_key(&self, k: u64) -> (r: bool)
        ensures
            r == self@.contains_key(k),
    {
        self.find(k).1
    }

    pub fn get(&self, k: u64) -> (r: Option<&V>)
        ensures
            match r {
                Some(v) => self@.contains_key(k) && v.deep_view() == self@[k],
                None => !self@.contains_key(k),
            },
    {
        let (p, there) = self.find(k);
        if there {
            proof {
                use_type_invariant(self);
                self.lemma_at(p as int);
            }
            Some(&self.vals[p])
        } else {
            None
        }
    }

    /// Puts `v` under `k`, in place of what was there.
    pub fn insert(&mut self, k: u64, v: V)
        ensures
            final(self)@ == old(self)@.insert(k, v.deep_view()),
    {
        let (p, there) = self.find(k);
        let mut whole: IdMap<V> = IdMap::new();
        proof {
            use_type_invariant(&*self);
        }
        let ghost before = *self;
        let ghost o = self.keys@;
        core::mem::swap(self, &mut whole);
        let IdMap { mut keys, mut vals } = whole;
        if there {
            vals.set(p, v);
        } else {
            keys.insert(p, k);
            vals.insert(p, v);
        }
        let ghost next = IdMap { keys, vals };
        proof {
            let o2 = next.keys@;
            if there {
                assert(o2 =~= o);
            } else {
                assert(o2 =~= o.insert(p as int, k));
                assert forall|i: int, j: int| 0 <= i < j < o2.len() implies #[trigger] o2[i] < #[trigger] o2[j] by {
                    if i < p && j < p {
                        assert(o[i] < o[j]);
                    } else if i < p && j > p {
                        assert(o[i] < o[j - 1]);
                    } else if i > p {
                        assert(o[i - 1] < o[j - 1]);
                    } else if j == p {
                        assert(before.keys@[i] < k);
                    } else {
                        assert(k < before.keys@[j - 1]);
                    }
                }
            }
            assert(next.inv());
            assert forall|x: u64| next@.contains_key(x) == (x == k || before@.contains_key(x)) by {
                if o.contains(x) {
                    let i = choose|i: int| 0 <= i < o.len() && o[i] == x;
                    assert(o2[if there || i < p { i } else { i + 1 }] == x);
                }
                if o2.contains(x) {
                    let i = choose|i: int| 0 <= i < o2.len() && o2[i] == x;
                    if there {
                        assert(o[i] == x);
                    } else if i < p {
                        assert(o[i] == x);
                    } else if i > p {
                        assert(o[i - 1] == x);
                    }
                }
                assert(o2[p as int] == k);
            }
            assert forall|x: u64| next@.contains_key(x) implies #[trigger] next@[x] == before@.insert(k, v.deep_view())[x] by {
                let i = choose|i: int| 0 <= i < o2.len() && o2[i] == x;
                next.lemma_at(i);
                if there {
                    before.lemma_at(i);
                    if i != p {
                        before.lemma_at(p as int);
                        assert(o[i] < o[p as int] || o[p as int] < o[i]);
                    }
                } else if i < p {
                    before.lemma_at(i);
                    assert(before.keys@[i] < k);
                } else if i > p {
                    before.lemma_at(i - 1);
                    assert(k < before.keys@[i - 1]);
                }
            }
            assert(next@ =~= before@.insert(k, v.deep_view()));
        }
        *self = IdMap { keys, vals };
    }

    /// Takes the value under `k` out of the map.
    pub fn remove(&mut self, k: u64) -> (r: Option<V>)
        ensures
            match r {
                Some(v) => old(self)@.contains_key(k) && v.deep_view() == old(self)@[k],
                None => !old(self)@.contains_key(k),
            },
            final(self)@ == old(self)@.remove(k),
    {
        let (p, there) = self.find(k);
        if !there {
            assert(self@ =~= self@.remove(k));
            return None;
        }
        let mut whole: IdMap<V> = IdMap::new();
        proof {
            use_type_invariant(&*self);
        }
        let ghost before = *self;
        let ghost o = self.keys@;
        core::mem::swap(self, &mut whole);
        let IdMap { mut keys, mut vals } = whole;
        let _key = keys.remove(p);
        let v = vals.remove(p);
        let ghost next = IdMap { keys, vals };
        proof {
            let o2 = next.keys@;
            assert(o2 =~= o.remove(p as int));
            assert forall|i: int, j: int| 0 <= i < j < o2.len() implies #[trigger] o2[i] < #[trigger] o2[j] by {
                let a = if i < p { i } else { i + 1 };
                let b = if j < p { j } else { j + 1 };
                assert(o[a] < o[b]);
            }
            assert(next.inv());
            before.lemma_at(p as int);
            assert forall|x: u64| next@.contains_key(x) == (x != k && before@.contains_key(x)) by {
                if o.contains(x) && x != k {
                    let i = choose|i: int| 0 <= i < o.len() && o[i] == x;
                    assert(o2[if i < p { i } else { i - 1 }] == x);
                }
                if o2.contains(x) {
                    let i = choose|i: int| 0 <= i < o2.len() && o2[i] == x;
                    let a = if i < p { i } else { i + 1 };
                    assert(o[a] == x);
                    assert(o[a] < o[p as int] || o[p as int] < o[a]);
                }
            }
            assert forall|x: u64| next@.contains_key(x) implies #[trigger] next@[x] == before@[x] by {
                let i = choose|i: int| 0 <= i < o2.len() && o2[i] == x;
                next.lemma_at(i);
                before.lemma_at(if i < p { i } else { i + 1 });
            }
            assert(next@ =~= before@.remove(k));
        }
        *self = IdMap { keys, vals };
        Some(v)
    }
}

/// The rows of a map in ascending key order.
pub open spec fn id_rows<R>(m: Map<u64, R>, row: spec_fn(u64, R) -> CborV) -> Seq<CborV> {
    let o = id_order(m.dom());
    Seq::new(o.len(), |i: int| row(o[i], m[o[i]]))
}

/// What rows say, read one after the other: a later row takes the place of an
/// earlier one with its key, and the first row that cannot be read ends it.
pub open spec fn id_unrows<R>(
    items: Seq<CborV>,
    read: spec_fn(CborV) -> Result<(u64, R), ErrV>,
) -> (Map<u64, R>, Option<ErrV>)
    decreases items.len(),
{
    if items.len() == 0 {
        (Map::empty(), None)
    } else {
        let (m, e) = id_unrows(items.drop_last(), read);
        if e is Some {
            (m, e)
        } else {
            match read(items.last()) {
                Ok((k, r)) => (m.insert(k, r), None),
                Err(x) => (m, Some(x)),
            }
        }
    }
}

/// Nothing more is read behind a row that cannot be read.
pub proof fn lemma_id_unrows_stops<R>(
    items: Seq<CborV>,
    read: spec_fn(CborV) -> Result<(u64, R), ErrV>,
    n: int,
)
    requires
        0 <= n <= items.len(),
        id_unrows(items.take(n), read).1 is Some,
    ensures
        id_unrows(items, read) == id_unrows(items.take(n), read),
    decreases items.len(),
{
    if n < items.len() {
        assert(items.drop_last().take(n) =~= items.take(n));
        lemma_id_unrows_stops(items.drop_last(), read, n);
    } else {
        assert(items.take(n) =~= items);
    }
}

proof fn lemma_rows_prefix<R>(
    m: Map<u64, R>,
    row: spec_fn(u64, R) -> CborV,
    read: spec_fn(CborV) -> Result<(u64, R), ErrV>,
    n: int,
)
    requires
        m.dom().finite(),
        lists(id_order(m.dom()), m.dom()),
        0 <= n <= id_order(m.dom()).len(),
        forall|k: u64|
            m.contains_key(k) ==> #[trigger] read(row(k, m[k])) == Ok::<_, ErrV>((k, m[k])),
    ensures
        id_unrows(id_rows(m, row).take(n), read) == (
            m.restrict(id_order(m.dom()).take(n).to_set()),
            None::<ErrV>,
        ),
    decreases n,
{
    let o = id_order(m.dom());
    let t = id_rows(m, row).take(n);
    if n > 0 {
        lemma_rows_prefix(m, row, read, n - 1);
        assert(t.drop_last() =~= id_rows(m, row).take(n - 1));
        let k = o[n - 1];
        assert(o.contains(k));
        assert(m.contains_key(k));
        assert(t.last() == row(k, m[k]));
        let was = m.restrict(o.take(n - 1).to_set());
        let now = m.restrict(o.take(n).to_set());
        let p = o.take(n - 1);
        let q = o.take(n);
        assert forall|x: u64| #[trigger] q.contains(x) == (x == k || p.contains(x)) by {
            if q.contains(x) {
                let i = choose|i: int| 0 <= i < q.len() && q[i] == x;
                if i < n - 1 {
                    assert(p[i] == x);
                }
            }
            if p.contains(x) {
                let i = choose|i: int| 0 <= i < p.len() && p[i] == x;
                assert(q[i] == x);
            }
            assert(q[n - 1] == k);
        }
        assert(now =~= was.insert(k, m[k]));
    } else {
        assert(m.restrict(o.take(0).to_set()) =~= Map::<u64, R>::empty());
    }
}

/// Reading the rows of a map gives the map back, where each row gives back
/// its key and value.
pub proof fn lemma_id_rows_back<R>(
    m: Map<u64, R>,
    row: spec_fn(u64, R) -> CborV,
    read: spec_fn(CborV) -> Result<(u64, R), ErrV>,
)
    requires
        m.dom().finite(),
        forall|k: u64|
            m.contains_key(k) ==> #[trigger] read(row(k, m[k])) == Ok::<_, ErrV>((k, m[k])),
    ensures
        id_unrows(id_rows(m, row), read) == (m, None::<ErrV>),
{
    let o = id_order(m.dom());
    lemma_finite_listed(m.dom());
    lemma_rows_prefix(m, row, read, o.len() as int);
    assert(id_rows(m, row).take(o.len() as int) =~= id_rows(m, row));
    assert(o.take(o.len() as int) =~= o);
    assert forall|k: u64| m.contains_key(k) implies #[trigger] o.to_set().contains(k) by {
        assert(m.dom().contains(k));
        assert(o.contains(k));
    }
    assert(m.restrict(o.to_set()) =~= m);
}

} // verus!
