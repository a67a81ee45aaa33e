//! The vector index: texts by handle, linked by how near they are to each other,
//! and the requests and answers of the cells that rank texts.

use vstd::prelude::*;
use crate::cbor::{map_value, missing_text, Cbor, CborV};
use crate::cells::hnsw::{
    lemma_search, measures, nearness, Hnsw, HnswV, Nearness,
};
use crate::cells::index::{
    features_of, hashed_features, ints, item_of, item_views, items_in, items_of, lemma_items_stop,
    lemma_vector_items_back, read_items, tokenize, tokens_in, vector_image, vector_snapshot,
};
use crate::cells::ranking::Scored;
use crate::cells::CellType;
use crate::fixed::{below, is_nan, less};
use crate::rows::done;
use crate::text::{
    cat3, dec_text, lemma_text_irreflexive, lemma_text_transitive, str_before, text_lt, u64_text,
};
use crate::vocab::{agrees, CellId, ErrCode, ErrV, SchemaId, UcResult};

verus! {

/// Hashes the features of a text into a fixed number of signed places.
#[derive(Clone, Copy, Debug, PartialEq, Eq)]
pub struct HashEmbedder {
    dim: usize,
}

impl HashEmbedder {
    /// The number of places.
    pub closed spec fn places(&self) -> usize {
        self.dim
    }

    pub fn new(dim: usize) -> (r: Self)
        ensures
            r.places() == dim,
    {
        HashEmbedder { dim }
    }

    pub fn dim(&self) -> (r: usize)
        ensures
            r == self.places(),
    {
        self.dim
    }

    /// The weights of a text, in halves: two for a token, one for a pair of
    /// neighbours.
    pub fn weights(&self, text: &str) -> (r: Vec<i128>)
        requires
            self.places() > 0,
        ensures
            ints(r@) == features_of(tokens_in(text@), self.places() as nat),
    {
        let tokens = tokenize(text);
        hashed_features(&tokens, self.dim)
    }
}

/// The text of a query, and how many hits it asks for.
pub open spec fn query_of(q: CborV) -> Result<(Seq<char>, usize), ErrV> {
    match q.text_field("text"@) {
        None => Err((ErrCode::Internal, missing_text("text"@))),
        Some(t) => Ok(
            (
                t,
                match q.u64_field("k"@) {
                    Some(k) => k as usize,
                    None => 8,
                },
            ),
        ),
    }
}

/// Reads a query.
pub fn read_query(q: &Cbor) -> (r: UcResult<(String, usize)>)
    ensures
        match r {
            Ok((t, k)) => query_of(q@) == Ok::<_, ErrV>((t@, k)),
            Err(e) => query_of(q@) is Err && e.plain(query_of(q@)->Err_0.0, query_of(q@)->Err_0.1),
        },
{
    let text = match q.req_str("text") {
        Ok(t) => t,
        Err(e) => {
            return Err(e);
        },
    };
    let k: usize = match q.opt_u64("k") {
        Some(k) => k as usize,
        None => 8,
    };
    Ok((text, k))
}

/// Reads the handle and the text of an update.
pub fn read_item(u: &Cbor) -> (r: UcResult<(String, String)>)
    ensures
        match r {
            Ok((h, t)) => item_of(u@) == Ok::<_, ErrV>((h@, t@)),
            Err(e) => item_of(u@) is Err && e.plain(item_of(u@)->Err_0.0, item_of(u@)->Err_0.1),
        },
{
    let h = match u.req_str("handle") {
        Ok(x) => x,
        Err(e) => {
            return Err(e);
        },
    };
    let t = match u.req_str("text") {
        Ok(x) => x,
        Err(e) => {
            return Err(e);
        },
    };
    Ok((h, t))
}

/// What a request to rank says: the query, and the candidates by handle and text.
pub open spec fn rerank_of(q: CborV) -> Result<
    (Seq<char>, Seq<(Seq<char>, Seq<char>)>),
    ErrV,
> {
    match q.text_field("query"@) {
        None => Err((ErrCode::Internal, missing_text("query"@))),
        Some(t) => {
            let (xs, e) = match q.array_field("candidates"@) {
                Some(a) => items_in(a),
                None => (Seq::empty(), None),
            };
            match e {
                Some(x) => Err(x),
                None => Ok((t, xs)),
            }
        },
    }
}

/// Reads a request to rank.
pub fn read_rerank(q: &Cbor) -> (r: UcResult<(String, Vec<(String, String)>)>)
    ensures
        match r {
            Ok((t, xs)) => rerank_of(q@) == Ok::<_, ErrV>((t@, item_views(xs@))),
            Err(e) => rerank_of(q@) is Err && e.plain(
                rerank_of(q@)->Err_0.0,
                rerank_of(q@)->Err_0.1,
            ),
        },
{
    let text = match q.req_str("query") {
        Ok(t) => t,
        Err(e) => {
            return Err(e);
        },
    };
    let mut out: Vec<(String, String)> = Vec::new();
    assert(item_views(out@) =~= Seq::<(Seq<char>, Seq<char>)>::empty());
    if let Some(arr) = q.opt_array("candidates") {
        let ghost all = crate::cbor::views(arr@);
        let mut i: usize = 0;
        assert(all.take(0) =~= Seq::empty());
        while i < arr.len()
            invariant
                i <= arr@.len(),
                all == crate::cbor::views(arr@),
                q@.text_field("query"@) == Some(text@),
                q@.array_field("candidates"@) == Some(all),
                items_in(all.take(i as int)) == (item_views(out@), None::<ErrV>),
            decreases arr.len() - i,
        {
            proof {
                assert(all.take(i + 1).drop_last() =~= all.take(i as int));
                assert(all.take(i + 1).last() == arr@[i as int]@);
                if items_in(all.take(i + 1)).1 is Some {
                    lemma_items_stop(all, i + 1);
                }
            }
            let ghost before = item_views(out@);
            let item = match read_item(&arr[i]) {
                Ok(x) => x,
                Err(e) => {
                    return Err(e);
                },
            };
            out.push(item);
            assert(item_views(out@) =~= before.push((item.0@, item.1@)));
            i += 1;
        }
        assert(all.take(all.len() as int) =~= all);
    }
    Ok((text, out))
}

/// A handle with the bit pattern of its score.
pub type HitV = (u64, Seq<char>);

/// Handles with the bit patterns of their scores.
pub open spec fn hit_views(s: Seq<(u64, String)>) -> Seq<HitV> {
    Seq::new(s.len(), |i: int| (s[i].0, s[i].1@))
}

/// `a` comes before `b`: its score is greater, or the scores are the same and its
/// handle is smaller.
pub open spec fn ahead(a: HitV, b: HitV) -> bool {
    below(b.0, a.0) || (!below(a.0, b.0) && text_lt(a.1, b.1))
}

/// The place of `x`, from `i` on: ahead of the first that it comes before.
pub open spec fn seat(s: Seq<HitV>, x: HitV, i: int) -> int
    decreases s.len() - i,
{
    if i < 0 || i >= s.len() || ahead(x, s[i]) {
        i
    } else {
        seat(s, x, i + 1)
    }
}

/// Hits in their order.
pub open spec fn in_order(s: Seq<HitV>) -> Seq<HitV>
    decreases s.len(),
{
    if s.len() == 0 {
        s
    } else {
        let t = in_order(s.drop_last());
        t.insert(seat(t, s.last(), 0), s.last())
    }
}

proof fn lemma_ahead(a: HitV, b: HitV, c: HitV)
    requires
        ahead(a, b),
        ahead(b, c),
        !is_nan(a.0),
        !is_nan(b.0),
        !is_nan(c.0),
    ensures
        ahead(a, c),
{
    if !below(b.0, a.0) && !below(c.0, b.0) {
        lemma_text_transitive(a.1, b.1, c.1);
    }
}

proof fn lemma_seat(s: Seq<HitV>, x: HitV, i: int)
    requires
        0 <= i <= s.len(),
        forall|j: int| 0 <= j < i ==> !ahead(x, #[trigger] s[j]),
    ensures
        i <= seat(s, x, i) <= s.len(),
        forall|j: int| 0 <= j < seat(s, x, i) ==> !ahead(x, #[trigger] s[j]),
        seat(s, x, i) < s.len() ==> ahead(x, s[seat(s, x, i)]),
    decreases s.len() - i,
{
    if i < s.len() && !ahead(x, s[i]) {
        lemma_seat(s, x, i + 1);
    }
}

/// Ordering hits keeps every one of them and adds none, and puts none behind one
/// that it comes before, where every score is a number.
pub proof fn lemma_in_order(s: Seq<HitV>)
    ensures
        in_order(s).to_multiset() =~= s.to_multiset(),
        in_order(s).len() == s.len(),
        (forall|i: int| 0 <= i < s.len() ==> !is_nan((#[trigger] s[i]).0)) ==> {
            &&& forall|i: int| 0 <= i < s.len() ==> !is_nan((#[trigger] in_order(s)[i]).0)
            &&& forall|i: int, j: int|
                0 <= i < j < s.len() ==> !ahead(#[trigger] in_order(s)[j], #[trigger] in_order(s)[i])
        },
    decreases s.len(),
{
    broadcast use vstd::seq_lib::group_to_multiset_ensures;

    if s.len() > 0 {
        let r = s.drop_last();
        let t = in_order(r);
        let x = s.last();
        lemma_in_order(r);
        lemma_seat(t, x, 0);
        let p = seat(t, x, 0);
        let u = t.insert(p, x);
        assert(r.push(x) =~= s);
        assert(u.to_multiset() =~= t.to_multiset().insert(x)) by {
            vstd::seq_lib::to_multiset_insert(t, p, x);
        }
        if forall|i: int| 0 <= i < s.len() ==> !is_nan((#[trigger] s[i]).0) {
            assert forall|i: int| 0 <= i < r.len() implies !is_nan((#[trigger] r[i]).0) by {
                assert(r[i] == s[i]);
            }
            assert(x == s[s.len() - 1]);
            assert forall|i: int| 0 <= i < s.len() implies !is_nan((#[trigger] u[i]).0) by {
                if i < p {
                    assert(u[i] == t[i]);
                } else if i > p {
                    assert(u[i] == t[i - 1]);
                }
            }
            assert forall|i: int, j: int| 0 <= i < j < s.len() implies !ahead(
                #[trigger] u[j],
                #[trigger] u[i],
            ) by {
                let a = if i < p {
                    i
                } else {
                    i - 1
                };
                let b = if j < p {
                    j
                } else {
                    j - 1
                };
                if i != p && j != p {
                    assert(u[i] == t[a] && u[j] == t[b]);
                } else if j == p {
                    assert(u[i] == t[i]);
                } else {
                    assert(u[j] == t[b]);
                    if ahead(u[j], x) {
                        assert(!is_nan(t[p].0) && !is_nan(t[b].0));
                        lemma_ahead(t[b], x, t[p]);
                        if b > p {
                            assert(!ahead(t[b], t[p]));
                        } else {
                            lemma_ahead_itself(t[p]);
                        }
                    }
                }
            }
        }
    }
}

proof fn lemma_ahead_itself(a: HitV)
    ensures
        !ahead(a, a),
{
    lemma_text_irreflexive(a.1);
}

/// Orders hits by score and handle; equal ones keep their order.
pub fn rank_hits(hits: Vec<(u64, String)>) -> (r: Vec<(u64, String)>)
    ensures
        hit_views(r@) == in_order(hit_views(hits@)),
{
    let mut rest = hits;
    let ghost all = hit_views(rest@);
    let mut out: Vec<(u64, String)> = Vec::new();
    let n: usize = rest.len();
    let mut i: usize = 0;
    assert(hit_views(out@) =~= in_order(all.take(0)));
    while i < n
        invariant
            i <= n == all.len(),
            hit_views(rest@) == all.skip(i as int),
            hit_views(out@) == in_order(all.take(i as int)),
        decreases n - i,
    {
        let ghost before = hit_views(rest@);
        assert(rest@.len() == hit_views(rest@).len());
        let x = rest.remove(0);
        assert(hit_views(rest@) =~= before.remove(0));
        assert(before[0] == all[i as int]);
        assert(before.remove(0) =~= all.skip(i + 1));
        let ghost xv = (x.0, x.1@);
        let ghost have = hit_views(out@);
        let mut j: usize = 0;
        while j < out.len() && !(less(out[j].0, x.0) || (!less(x.0, out[j].0) && str_before(
            x.1.as_str(),
            out[j].1.as_str(),
        )))
            invariant
                j <= out@.len(),
                xv == (x.0, x.1@),
                have == hit_views(out@),
                seat(have, xv, 0) == seat(have, xv, j as int),
            decreases out.len() - j,
        {
            assert(have[j as int] == (out@[j as int].0, out@[j as int].1@));
            j += 1;
        }
        out.insert(j, x);
        assert(hit_views(out@) =~= have.insert(j as int, xv));
        assert(all.take(i + 1).drop_last() =~= all.take(i as int));
        i += 1;
    }
    assert(all.take(all.len() as int) =~= all);
    out
}

/// The state of a vector index.
#[verifier::ext_equal]
pub struct VectorV {
    pub dim: usize,
    pub seed: u64,
    /// The handles and texts, in the order of insertion.
    pub items: Seq<(Seq<char>, Seq<char>)>,
    pub index: HnswV,
}

impl VectorV {
    pub open spec fn new(dim: usize, seed: u64) -> VectorV {
        VectorV { dim, seed, items: Seq::empty(), index: HnswV::new(seed) }
    }

    /// Every text has its point.
    pub open spec fn wf(self) -> bool {
        &&& self.index.graph.wf()
        &&& self.index.graph.links.len() == self.items.len()
    }

    /// The state after a text was added.
    pub open spec fn add(self, handle: Seq<char>, text: Seq<char>, sim: Nearness) -> VectorV {
        VectorV {
            items: self.items.push((handle, text)),
            index: self.index.insert(sim),
            ..self
        }
    }

    /// The index is that of its texts: what adding them in order gives.
    pub open spec fn true_to(self, sim: Nearness) -> bool {
        self.index == HnswV::built(self.seed, sim, self.items.len())
    }

    pub open spec fn image(self) -> CborV {
        vector_image(self.dim as u64, self.seed, self.items)
    }

    /// The state after a snapshot was taken up.
    pub open spec fn restored(self, state: CborV, sim: Nearness) -> VectorV {
        let seed = match state.u64_field("seed"@) {
            Some(s) => s,
            None => self.seed,
        };
        let items = items_of(state).0;
        VectorV {
            dim: match state.u64_field("dim"@) {
                Some(d) => d as usize,
                None => 768,
            },
            seed,
            items,
            index: HnswV::built(seed, sim, items.len()),
        }
    }

    /// Adding a text keeps the index true to its texts.
    pub proof fn lemma_add(self, handle: Seq<char>, text: Seq<char>, sim: Nearness)
        requires
            self.true_to(sim),
        ensures
            self.add(handle, text, sim).true_to(sim),
    {
    }

    /// An index that is true to its texts is rebuilt the same from its snapshot,
    /// links and all, whatever was there before.
    pub proof fn lemma_rebuilt(self, before: VectorV, sim: Nearness)
        requires
            self.true_to(sim),
        ensures
            before.restored(self.image(), sim) == self,
            items_of(self.image()).1 is None,
    {
        lemma_vector_items_back(self.dim as u64, self.seed, self.items);
        assert(before.restored(self.image(), sim) =~= self);
    }
}

/// The hits of a search by handle.
pub open spec fn named_hits(
    found: Seq<Scored>,
    items: Seq<(Seq<char>, Seq<char>)>,
) -> Seq<HitV> {
    Seq::new(found.len(), |i: int| (found[i].0, items[found[i].1 as int].0))
}

/// The vector index.
#[derive(Debug)]
pub struct VectorCell {
    pub id: CellId,
    index: Hnsw,
    items: Vec<(String, String)>,
    embedder: HashEmbedder,
    seed: u64,
}

impl View for VectorCell {
    type V = VectorV;

    closed spec fn view(&self) -> VectorV {
        VectorV {
            dim: self.embedder.places(),
            seed: self.seed,
            items: item_views(self.items@),
            index: self.index@,
        }
    }
}

impl VectorCell {
    /// The id of the cell.
    pub closed spec fn ident(&self) -> CellId {
        self.id
    }

    pub fn new(id: CellId, dim: usize, seed: u64) -> (r: Self)
        ensures
            r.ident() == id,
            r@ == VectorV::new(dim, seed),
            r@.wf(),
    {
        let r = VectorCell {
            id,
            index: Hnsw::new(seed),
            items: Vec::new(),
            embedder: HashEmbedder::new(dim),
            seed,
        };
        assert(r@.items =~= Seq::empty());
        r
    }

    pub fn embedder(&self) -> (r: HashEmbedder)
        ensures
            r.places() == self@.dim,
    {
        self.embedder
    }

    pub fn len(&self) -> (r: usize)
        ensures
            r == self@.items.len(),
    {
        assert(self@.items.len() == self.items@.len());
        self.items.len()
    }

    /// Adds a text; gives its point. The nearness is that of the texts by point,
    /// this one being the next.
    pub fn add<F: Fn(u32, u32) -> u64>(&mut self, handle: String, text: &str, sim: &F) -> (r: u32)
        requires
            old(self)@.wf(),
            old(self)@.items.len() < u32::MAX,
            measures(*sim, old(self)@.items.len()),
        ensures
            final(self).ident() == old(self).ident(),
            final(self)@ == old(self)@.add(handle@, text@, nearness(*sim)),
            final(self)@.wf(),
            r == old(self)@.items.len(),
    {
        let ghost was = self@;
        let ghost x = (handle@, text@);
        let node: u32 = self.index.insert(sim);
        self.items.push((handle, text.to_string()));
        assert(self@.items =~= was.items.push(x));
        node
    }

    /// The best `k` texts, the best first, by handle. The nearness is that of the
    /// texts by point, the query being the next.
    pub fn query<F: Fn(u32, u32) -> u64>(&self, sim: &F, k: usize) -> (r: Vec<(u64, String)>)
        requires
            self@.wf(),
            measures(*sim, self@.items.len()),
        ensures
            hit_views(r@) == named_hits(
                self@.index.graph.search(nearness(*sim), k as nat),
                self@.items,
            ),
    {
        let ghost v = self@;
        let found = self.index.search(sim, k);
        proof {
            lemma_search(v.index.graph, nearness(*sim), k as nat);
        }
        let ghost want = named_hits(found@, v.items);
        let mut out: Vec<(u64, String)> = Vec::new();
        let mut i: usize = 0;
        assert(hit_views(out@) =~= want.take(0));
        while i < found.len()
            invariant
                i <= found@.len(),
                v == self@,
                v.items == item_views(self.items@),
                want == named_hits(found@, v.items),
                forall|j: int| 0 <= j < found@.len() ==> (#[trigger] found@[j]).1 < v.items.len(),
                hit_views(out@) == want.take(i as int),
            decreases found.len() - i,
        {
            let ghost before = hit_views(out@);
            let n: usize = found[i].1 as usize;
            assert(found@[i as int].1 < v.items.len());
            let hit = (found[i].0, self.items[n].0.as_str().to_string());
            out.push(hit);
            assert(hit_views(out@) =~= before.push((hit.0, hit.1@)));
            assert(want[i as int] == (hit.0, hit.1@));
            i += 1;
            assert(want.take(i as int) =~= want.take(i - 1).push(want[i - 1]));
        }
        assert(want.take(want.len() as int) =~= want);
        out
    }

    pub fn cell_type(&self) -> (r: CellType)
        ensures
            r == CellType::Vector,
    {
        CellType::Vector
    }

    pub fn schema_id(&self) -> (r: SchemaId)
        ensures
            r.0@ == "vector.hnsw."@ + dec_text(self@.dim as nat) + "d.v1"@,
    {
        let text = cat3("vector.hnsw.", u64_text(self.embedder.dim() as u64).as_str(), "d.v1");
        SchemaId::new(text.as_str())
    }

    /// The snapshot: the texts and the seed, from which the index is rebuilt.
    pub fn snapshot_state(&self) -> (r: Cbor)
        ensures
            r@ == self@.image(),
    {
        vector_snapshot(self.embedder.dim() as u64, self.seed, &self.items)
    }

    /// Rebuilds the index from a snapshot. The nearness is that of the texts of
    /// the snapshot, by their place in it.
    pub fn restore_state<F: Fn(u32, u32) -> u64>(&mut self, state: &Cbor, sim: &F) -> (r: UcResult<
        (),
    >)
        requires
            items_of(state@).0.len() <= u32::MAX,
            measures(*sim, items_of(state@).0.len()),
        ensures
            final(self).ident() == old(self).ident(),
            final(self)@ == old(self)@.restored(state@, nearness(*sim)),
            final(self)@.wf(),
            agrees(r, done(items_of(state@).1)),
    {
        let ghost was = self@;
        let ghost s = nearness(*sim);
        let dim: usize = match state.opt_u64("dim") {
            Some(d) => d as usize,
            None => 768,
        };
        let seed: u64 = match state.opt_u64("seed") {
            Some(x) => x,
            None => self.seed,
        };
        let (items, r) = read_items(state);
        assert(item_views(items@).len() == items@.len());
        let mut index = Hnsw::new(seed);
        let mut i: usize = 0;
        while i < items.len()
            invariant
                i <= items@.len() <= u32::MAX,
                s == nearness(*sim),
                measures(*sim, items@.len()),
                index@ == HnswV::built(seed, s, i as nat),
                index@.graph.wf(),
                index@.graph.links.len() == i,
            decreases items.len() - i,
        {
            let _ = index.insert(sim);
            i += 1;
        }
        self.embedder = HashEmbedder::new(dim);
        self.seed = seed;
        self.index = index;
        self.items = items;
        assert(self@ =~= was.restored(state@, s));
        r
    }
}

/// The answer to an update of the vector index.
pub fn indexed_at(handle: &str, node: u32) -> (r: Cbor)
    ensures
        r@ == map_value(
            seq![("indexed"@, CborV::Text(handle@)), ("node"@, CborV::U64(node as u64))],
        ),
{
    Cbor::map2("indexed", Cbor::t(handle), "node", Cbor::U64(node as u64))
}

/// The answer to an update of the lexical index.
pub fn indexed(handle: &str) -> (r: Cbor)
    ensures
        r@ == map_value(seq![("indexed"@, CborV::Text(handle@))]),
{
    Cbor::map1("indexed", Cbor::t(handle))
}

} // verus!
