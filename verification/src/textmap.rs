//! A map keyed by text, kept in ascending key order.

use vstd::prelude::*;
use crate::cbor::text_views;
use crate::text::{
    lemma_text_irreflexive, lemma_text_total, lemma_text_transitive, str_before, str_eq, text_lt,
};

verus! {

/// Strictly ascending texts.
pub open spec fn ascending(o: Seq<Seq<char>>) -> bool {
    forall|i: int, j: int| 0 <= i < j < o.len() ==> text_lt(#[trigger] o[i], #[trigger] o[j])
}

/// `o` lists the members of `s` once each, in ascending order.
pub open spec fn lists(o: Seq<Seq<char>>, s: Set<Seq<char>>) -> bool {
    ascending(o) && forall|k: Seq<char>| #[trigger] s.contains(k) <==> o.contains(k)
}

/// The members of `s` in ascending order (for a set that can be listed so).
pub open spec fn text_order(s: Set<Seq<char>>) -> Seq<Seq<char>> {
    choose|o: Seq<Seq<char>>| lists(o, s)
}

/// There is only one ascending list of a set.
pub proof fn lemma_lists_unique(a: Seq<Seq<char>>, b: Seq<Seq<char>>, s: Set<Seq<char>>)
    requires
        lists(a, s),
        lists(b, s),
    ensures
        a == b,
    decreases a.len(),
{
    if a.len() == 0 {
        if b.len() > 0 {
            assert(b.contains(b[0]));
            assert(s.contains(b[0]));
            assert(a.contains(b[0]));
        }
        assert(a =~= b);
    } else {
        assert(a.contains(a.last()));
        assert(s.contains(a.last()));
        assert(b.contains(a.last()));
        assert(b.len() > 0);
        assert(b.contains(b.last()));
        assert(s.contains(b.last()));
        assert(a.contains(b.last()));
        let i = choose|i: int| 0 <= i < a.len() && a[i] == b.last();
        let j = choose|j: int| 0 <= j < b.len() && b[j] == a.last();
        if a.last() != b.last() {
            assert(i < a.len() - 1);
            assert(j < b.len() - 1);
            assert(text_lt(a[i], a[a.len() - 1]));
            assert(text_lt(b[j], b[b.len() - 1]));
            lemma_text_transitive(a.last(), b.last(), a.last());
            lemma_text_irreflexive(a.last());
            assert(false);
        }
        let s2 = s.remove(a.last());
        let a2 = a.drop_last();
        let b2 = b.drop_last();
        assert forall|k: Seq<char>| #[trigger] s2.contains(k) <==> a2.contains(k) by {
            lemma_without_last(a, k);
            assert(s.contains(k) <==> a.contains(k));
        }
        assert forall|k: Seq<char>| #[trigger] s2.contains(k) <==> b2.contains(k) by {
            lemma_without_last(b, k);
            assert(s.contains(k) <==> b.contains(k));
        }
        lemma_lists_unique(a2, b2, s2);
        assert(a =~= a2.push(a.last()));
        assert(b =~= b2.push(b.last()));
    }
}

proof fn lemma_without_last(a: Seq<Seq<char>>, k: Seq<char>)
    requires
        ascending(a),
        a.len() > 0,
    ensures
        a.drop_last().contains(k) <==> (a.contains(k) && k != a.last()),
{
    lemma_text_irreflexive(k);
    if a.drop_last().contains(k) {
        let i = choose|i: int| 0 <= i < a.drop_last().len() && a.drop_last()[i] == k;
        assert(a[i] == k);
        assert(text_lt(a[i], a[a.len() - 1]));
    }
    if a.contains(k) && k != a.last() {
        let i = choose|i: int| 0 <= i < a.len() && a[i] == k;
        assert(a.drop_last()[i] == k);
    }
}

/// The order of a set is any ascending list of it.
pub proof fn lemma_text_order(o: Seq<Seq<char>>, s: Set<Seq<char>>)
    requires
        lists(o, s),
    ensures
        text_order(s) == o,
{
    lemma_lists_unique(text_order(s), o, s);
}

proof fn lemma_place(o: Seq<Seq<char>>, k: Seq<char>) -> (n: int)
    requires
        ascending(o),
        !o.contains(k),
    ensures
        0 <= n <= o.len(),
        ascending(o.insert(n, k)),
    decreases o.len(),
{
    if o.len() == 0 {
        0
    } else {
        let d = o.drop_last();
        lemma_text_total(o.last(), k);
        if text_lt(o.last(), k) {
            let r = o.insert(o.len() as int, k);
            assert forall|i: int, j: int| 0 <= i < j < r.len() implies text_lt(
                #[trigger] r[i],
                #[trigger] r[j],
            ) by {
                if j == o.len() && i < o.len() - 1 {
                    assert(text_lt(o[i], o[o.len() - 1]));
                    lemma_text_transitive(o[i], o.last(), k);
                }
            }
            o.len() as int
        } else {
            assert(o[o.len() - 1] == o.last());
            assert forall|x: Seq<char>| d.contains(x) implies o.contains(x) by {
                let i = choose|i: int| 0 <= i < d.len() && d[i] == x;
                assert(o[i] == x);
            }
            let n = lemma_place(d, k);
            let q = d.insert(n, k);
            let r = o.insert(n, k);
            assert(r =~= q.push(o.last()));
            assert forall|i: int, j: int| 0 <= i < j < r.len() implies text_lt(
                #[trigger] r[i],
                #[trigger] r[j],
            ) by {
                if j == q.len() {
                    if i < n {
                        assert(text_lt(o[i], o[o.len() - 1]));
                    } else if i > n {
                        assert(text_lt(o[i - 1], o[o.len() - 1]));
                    }
                } else {
                    assert(text_lt(q[i], q[j]));
                }
            }
            n
        }
    }
}

/// Every finite set has an ascending list.
pub proof fn lemma_finite_listed(s: Set<Seq<char>>)
    requires
        s.finite(),
    ensures
        lists(text_order(s), s),
    decreases s.len(),
{
    if s.len() == 0 {
        let o = Seq::<Seq<char>>::empty();
        assert(s =~= Set::<Seq<char>>::empty());
        assert(lists(o, s));
    } else {
        let k = s.choose();
        let d = s.remove(k);
        lemma_finite_listed(d);
        let p = text_order(d);
        assert(!p.contains(k)) by {
            assert(d.contains(k) <==> p.contains(k));
        }
        let n = lemma_place(p, k);
        let o = p.insert(n, k);
        assert forall|x: Seq<char>| #[trigger] s.contains(x) <==> o.contains(x) by {
            assert(d.contains(x) <==> p.contains(x));
            if p.contains(x) {
                let i = choose|i: int| 0 <= i < p.len() && p[i] == x;
                assert(o[if i < n { i } else { i + 1 }] == x);
            }
            if o.contains(x) {
                let i = choose|i: int| 0 <= i < o.len() && o[i] == x;
                if i != n {
                    assert(p[if i < n { i } else { i - 1 }] == x);
                }
            }
            assert(o[n] == k);
        }
        assert(lists(o, s));
    }
}

/// A set with an ascending list is finite and as large as the list is long.
pub proof fn lemma_listed_finite(o: Seq<Seq<char>>, s: Set<Seq<char>>)
    requires
        lists(o, s),
    ensures
        s.finite(),
        s.len() == o.len(),
        o.no_duplicates(),
{
    assert forall|i: int, j: int| 0 <= i < o.len() && 0 <= j < o.len() && i != j implies o[i]
        != o[j] by {
        lemma_text_irreflexive(o[i]);
        if i < j {
            assert(text_lt(o[i], o[j]));
        } else {
            assert(text_lt(o[j], o[i]));
        }
    }
    assert(o.to_set() =~= s);
    o.unique_seq_to_set();
}

/// Key-value pairs in ascending key order, each key once.
#[derive(Debug)]
pub struct TextMap<V: DeepView> {
    keys: Vec<String>,
    vals: Vec<V>,
}

impl<V: DeepView> View for TextMap<V> {
    type V = Map<Seq<char>, V::V>;

    closed spec fn view(&self) -> Map<Seq<char>, V::V> {
        Map::new(
            |k: Seq<char>| self.keys.deep_view().contains(k),
            |k: Seq<char>| self.vals@[self.keys.deep_view().index_of(k)].deep_view(),
        )
    }
}

impl<V: DeepView> DeepView for TextMap<V> {
    type V = Map<Seq<char>, V::V>;

    open spec fn deep_view(&self) -> Map<Seq<char>, V::V> {
        self@
    }
}

impl<V: DeepView> TextMap<V> {
    #[verifier::type_invariant]
    spec fn inv(&self) -> bool {
        self.keys@.len() == self.vals@.len() && ascending(self.keys.deep_view())
    }

    /// The keys in ascending order.
    pub closed spec fn order(&self) -> Seq<Seq<char>> {
        self.keys.deep_view()
    }

    proof fn lemma_at(&self, i: int)
        requires
            self.inv(),
            0 <= i < self.keys@.len(),
        ensures
            self@.contains_key(self.keys@[i]@),
            self@[self.keys@[i]@] == self.vals@[i].deep_view(),
    {
        let o = self.keys.deep_view();
        let k = self.keys@[i]@;
        assert(o[i] == k);
        assert(o.contains(k));
        let j = o.index_of(k);
        if j < i {
            lemma_text_irreflexive(k);
            assert(text_lt(o[j], o[i]));
        } else if i < j {
            lemma_text_irreflexive(k);
            assert(text_lt(o[i], o[j]));
        }
    }

    pub fn new() -> (r: Self)
        ensures
            r@ == Map::<Seq<char>, V::V>::empty(),
    {
        let r = TextMap { keys: Vec::new(), vals: Vec::new() };
        assert(r@ =~= Map::<Seq<char>, V::V>::empty());
        r
    }

    pub fn len(&self) -> (r: usize)
        ensures
            r == self.order().len(),
            r == self@.dom().len(),
            self@.dom().finite(),
            self.order() == text_order(self@.dom()),
            lists(self.order(), self@.dom()),
    {
        proof {
            use_type_invariant(self);
            assert(lists(self.order(), self@.dom()));
            lemma_listed_finite(self.order(), self@.dom());
            lemma_text_order(self.order(), self@.dom());
        }
        self.keys.len()
    }

    /// The key at place `i` of the order.
    pub fn key_at(&self, i: usize) -> (r: &String)
        requires
            i < self.order().len(),
        ensures
            r@ == self.order()[i as int],
            self@.contains_key(r@),
    {
        proof {
            use_type_invariant(self);
            self.lemma_at(i as int);
        }
        &self.keys[i]
    }

    /// The value at place `i` of the order.
    pub fn value_at(&self, i: usize) -> (r: &V)
        requires
            i < self.order().len(),
        ensures
            r.deep_view() == self@[self.order()[i as int]],
    {
        proof {
            use_type_invariant(self);
            self.lemma_at(i as int);
        }
        &self.vals[i]
    }

    /// The first place whose key is not before `k`.
    fn place(&self, k: &str) -> (r: usize)
        ensures
            r <= self.keys@.len(),
            forall|i: int| 0 <= i < r ==> text_lt(#[trigger] self.keys@[i]@, k@),
            forall|i: int| r <= i < self.keys@.len() ==> !text_lt(#[trigger] self.keys@[i]@, k@),
    {
        proof {
            use_type_invariant(self);
        }
        let ghost o = self.keys.deep_view();
        let mut lo: usize = 0;
        let mut hi: usize = self.keys.len();
        while lo < hi
            invariant
                o == self.keys.deep_view(),
                ascending(o),
                lo <= hi <= self.keys@.len(),
                forall|i: int| 0 <= i < lo ==> text_lt(#[trigger] self.keys@[i]@, k@),
                forall|i: int| hi <= i < self.keys@.len() ==> !text_lt(#[trigger] self.keys@[i]@, k@),
            decreases hi - lo,
        {
            let mid: usize = lo + (hi - lo) / 2;
            if str_before(self.keys[mid].as_str(), k) {
                assert forall|i: int| 0 <= i < mid + 1 implies text_lt(#[trigger] self.keys@[i]@, k@) by {
                    if i < mid {
                        assert(text_lt(o[i], o[mid as int]));
                        lemma_text_transitive(self.keys@[i]@, self.keys@[mid as int]@, k@);
                    }
                }
                lo = mid + 1;
            } else {
                assert forall|i: int| mid <= i < self.keys@.len() implies !text_lt(#[trigger] self.keys@[i]@, k@) by {
                    if i > mid && text_lt(self.keys@[i]@, k@) {
                        assert(text_lt(o[mid as int], o[i]));
                        lemma_text_transitive(self.keys@[mid as int]@, self.keys@[i]@, k@);
                    }
                }
                hi = mid;
            }
        }
        lo
    }

    /// Where `k` is, and whether it is there.
    fn find(&self, k: &str) -> (r: (usize, bool))
        ensures
            r.0 <= self.keys@.len(),
            r.1 ==> r.0 < self.keys@.len() && self.keys@[r.0 as int]@ == k@,
            r.1 == self@.contains_key(k@),
            forall|i: int| 0 <= i < r.0 ==> text_lt(#[trigger] self.keys@[i]@, k@),
            !r.1 ==> forall|i: int| r.0 <= i < self.keys@.len() ==> text_lt(k@, #[trigger] self.keys@[i]@),
    {
        let p: usize = self.place(k);
        let there: bool = p < self.keys.len() && str_eq(self.keys[p].as_str(), k);
        proof {
            use_type_invariant(self);
            let o = self.keys.deep_view();
            if there {
                self.lemma_at(p as int);
            } else {
                assert forall|i: int| p <= i < self.keys@.len() implies text_lt(k@, #[trigger] self.keys@[i]@) by {
                    lemma_text_total(k@, self.keys@[i]@);
                    if i > p {
                        assert(text_lt(o[p as int], o[i]));
                        lemma_text_total(k@, self.keys@[p as int]@);
                    }
                }
                if o.contains(k@) {
                    let i = choose|i: int| 0 <= i < o.len() && o[i] == k@;
                    lemma_text_irreflexive(k@);
                    assert(self.keys@[i]@ == k@);
                    assert(false);
                }
            }
        }
        (p, there)
    }

    pub fn contains_key(&self, k: &str) -> (r: bool)
        ensures
            r == self@.contains_key(k@),
    {
        self.find(k).1
    }

    pub fn get(&self, k: &str) -> (r: Option<&V>)
        ensures
            match r {
                Some(v) => self@.contains_key(k@) && v.deep_view() == self@[k@],
                None => !self@.contains_key(k@),
            },
    {
        let (p, there) = self.find(k);
        if there {
            proof {
                use_type_invariant(self);
                self.lemma_at(p as int);
            }
            Some(&self.vals[p])
        } else {
            None
        }
    }

    /// Puts `v` under `k`, in place of what was there.
    pub fn insert(&mut self, k: String, v: V)
        ensures
            final(self)@ == old(self)@.insert(k@, v.deep_view()),
    {
        let (p, there) = self.find(k.as_str());
        let mut whole: TextMap<V> = TextMap::new();
        proof {
            use_type_invariant(&*self);
        }
        let ghost before = *self;
        let ghost o = self.keys.deep_view();
        core::mem::swap(self, &mut whole);
        let TextMap { mut keys, mut vals } = whole;
        if there {
            vals.set(p, v);
        } else {
            keys.insert(p, k);
            vals.insert(p, v);
        }
        let ghost next = TextMap { keys, vals };
        proof {
            let o2 = next.keys.deep_view();
            if there {
                assert(o2 =~= o);
            } else {
                assert(o2 =~= o.insert(p as int, k@));
                assert forall|i: int, j: int| 0 <= i < j < o2.len() implies text_lt(#[trigger] o2[i], #[trigger] o2[j]) by {
                    if i < p && j < p {
                        assert(text_lt(o[i], o[j]));
                    } else if i < p && j > p {
                        assert(text_lt(o[i], o[j - 1]));
                    } else if i > p {
                        assert(text_lt(o[i - 1], o[j - 1]));
                    } else if j == p {
                        assert(text_lt(before.keys@[i]@, k@));
                    } else {
                        assert(text_lt(k@, before.keys@[j - 1]@));
                    }
                }
            }
            assert(next.inv());
            assert forall|x: Seq<char>| next@.contains_key(x) == (x == k@ || before@.contains_key(x)) by {
                if o.contains(x) {
                    let i = choose|i: int| 0 <= i < o.len() && o[i] == x;
                    assert(o2[if there || i < p { i } else { i + 1 }] == x);
                }
                if o2.contains(x) {
                    let i = choose|i: int| 0 <= i < o2.len() && o2[i] == x;
                    if there {
                        assert(o[i] == x);
                    } else if i < p {
                        assert(o[i] == x);
                    } else if i > p {
                        assert(o[i - 1] == x);
                    }
                }
                assert(o2[p as int] == k@);
            }
            assert forall|x: Seq<char>| next@.contains_key(x) implies #[trigger] next@[x] == before@.insert(k@, v.deep_view())[x] by {
                let i = choose|i: int| 0 <= i < o2.len() && o2[i] == x;
                next.lemma_at(i);
                if there {
                    before.lemma_at(i);
                    if i != p {
                        before.lemma_at(p as int);
                        lemma_text_irreflexive(x);
                        assert(text_lt(o[i], o[p as int]) || text_lt(o[p as int], o[i]));
                    }
                } else if i < p {
                    before.lemma_at(i);
                    lemma_text_irreflexive(x);
                    assert(text_lt(before.keys@[i]@, k@));
                } else if i > p {
                    before.lemma_at(i - 1);
                    lemma_text_irreflexive(x);
                    assert(text_lt(k@, before.keys@[i - 1]@));
                }
            }
            assert(next@ =~= before@.insert(k@, v.deep_view()));
        }
        *self = TextMap { keys, vals };
    }

    /// Takes the value under `k` out of the map.
    pub fn remove(&mut self, k: &str) -> (r: Option<V>)
        ensures
            match r {
                Some(v) => old(self)@.contains_key(k@) && v.deep_view() == old(self)@[k@],
                None => !old(self)@.contains_key(k@),
            },
            final(self)@ == old(self)@.remove(k@),
    {
        let (p, there) = self.find(k);
        if !there {
            assert(self@ =~= self@.remove(k@));
            return None;
        }
        let mut whole: TextMap<V> = TextMap::new();
        proof {
            use_type_invariant(&*self);
        }
        let ghost before = *self;
        let ghost o = self.keys.deep_view();
        core::mem::swap(self, &mut whole);
        let TextMap { mut keys, mut vals } = whole;
        let _key = keys.remove(p);
        let v = vals.remove(p);
        let ghost next = TextMap { keys, vals };
        proof {
            let o2 = next.keys.deep_view();
            assert(o2 =~= o.remove(p as int));
            assert forall|i: int, j: int| 0 <= i < j < o2.len() implies text_lt(#[trigger] o2[i], #[trigger] o2[j]) by {
                let a = if i < p { i } else { i + 1 };
                let b = if j < p { j } else { j + 1 };
                assert(text_lt(o[a], o[b]));
            }
            assert(next.inv());
            before.lemma_at(p as int);
            assert forall|x: Seq<char>| next@.contains_key(x) == (x != k@ && before@.contains_key(x)) by {
                lemma_text_irreflexive(x);
                if o.contains(x) && x != k@ {
                    let i = choose|i: int| 0 <= i < o.len() && o[i] == x;
                    assert(o2[if i < p { i } else { i - 1 }] == x);
                }
                if o2.contains(x) {
                    let i = choose|i: int| 0 <= i < o2.len() && o2[i] == x;
                    let a = if i < p { i } else { i + 1 };
                    assert(o[a] == x);
                    assert(text_lt(o[a], o[p as int]) || text_lt(o[p as int], o[a]));
                }
            }
            assert forall|x: Seq<char>| next@.contains_key(x) implies #[trigger] next@[x] == before@[x] by {
                let i = choose|i: int| 0 <= i < o2.len() && o2[i] == x;
                next.lemma_at(i);
                before.lemma_at(if i < p { i } else { i + 1 });
            }
            assert(next@ =~= before@.remove(k@));
        }
        *self = TextMap { keys, vals };
        Some(v)
    }
}

/// A set of texts.
#[derive(Debug)]
pub struct TextSet {
    members: TextMap<()>,
}

impl View for TextSet {
    type V = Set<Seq<char>>;

    closed spec fn view(&self) -> Set<Seq<char>> {
        self.members@.dom()
    }
}

impl DeepView for TextSet {
    type V = Set<Seq<char>>;

    open spec fn deep_view(&self) -> Set<Seq<char>> {
        self@
    }
}

impl TextSet {
    pub fn new() -> (r: Self)
        ensures
            r@ == Set::<Seq<char>>::empty(),
    {
        let r = TextSet { members: TextMap::new() };
        assert(r@ =~= Set::<Seq<char>>::empty());
        r
    }

    pub fn len(&self) -> (r: usize)
        ensures
            self@.finite(),
            r == self@.len(),
    {
        self.members.len()
    }

    pub fn contains(&self, k: &str) -> (r: bool)
        ensures
            r == self@.contains(k@),
    {
        self.members.contains_key(k)
    }

    pub fn insert(&mut self, k: &str)
        ensures
            final(self)@ == old(self)@.insert(k@),
    {
        let ghost was = self@;
        self.members.insert(k.to_owned(), ());
        assert(self@ =~= was.insert(k@));
    }

    /// The members in ascending order.
    pub fn to_vec(&self) -> (r: Vec<String>)
        ensures
            text_views(r@) == text_order(self@),
            lists(text_views(r@), self@),
            self@.finite(),
    {
        let n: usize = self.members.len();
        let mut out: Vec<String> = Vec::new();
        let mut i: usize = 0;
        while i < n
            invariant
                i <= n == self.members.order().len(),
                text_views(out@) == self.members.order().take(i as int),
            decreases n - i,
        {
            let ghost before = text_views(out@);
            let k = self.members.key_at(i).clone();
            out.push(k);
            assert(text_views(out@) =~= before.push(k@));
            i += 1;
            assert(self.members.order().take(i as int) =~= self.members.order().take(i - 1).push(
                self.members.order()[i - 1],
            ));
        }
        assert(self.members.order().take(n as int) =~= self.members.order());
        out
    }

    /// The set of the given texts.
    pub fn of(items: &[String]) -> (r: Self)
        ensures
            r@ == text_views(items@).to_set(),
    {
        let mut out = TextSet::new();
        let ghost all = text_views(items@);
        let mut i: usize = 0;
        assert(all.take(0).to_set() =~= Set::<Seq<char>>::empty());
        while i < items.len()
            invariant
                i <= items@.len(),
                all == text_views(items@),
                out@ == all.take(i as int).to_set(),
            decreases items.len() - i,
        {
            out.insert(items[i].as_str());
            i += 1;
            proof {
                let a = all.take(i - 1);
                let b = all.take(i as int);
                assert(b =~= a.push(all[i - 1]));
                assert forall|x: Seq<char>| #[trigger] b.to_set().contains(x) == (a.to_set().contains(x) || x == all[i - 1]) by {
                    if a.contains(x) {
                        let j = choose|j: int| 0 <= j < a.len() && a[j] == x;
                        assert(b[j] == x);
                    }
                    if b.contains(x) {
                        let j = choose|j: int| 0 <= j < b.len() && b[j] == x;
                        if j < i - 1 {
                            assert(a[j] == x);
                        }
                    }
                    assert(b[i - 1] == all[i - 1]);
                }
                assert(out@ =~= b.to_set());
            }
        }
        assert(all.take(all.len() as int) =~= all);
        out
    }

    /// A copy of the set.
    pub fn dup(&self) -> (r: Self)
        ensures
            r@ == self@,
    {
        let v = self.to_vec();
        proof {
            lemma_finite_listed(self@);
            let o = text_order(self@);
            assert(o.to_set() =~= self@);
        }
        TextSet::of(v.as_slice())
    }
}

} // verus!
