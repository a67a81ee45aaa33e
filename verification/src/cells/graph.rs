//! The graph: labelled edges between handles.

use vstd::prelude::*;
use crate::cbor::{
    lemma_one_field, lemma_texts_back, lookup_from, map_value, missing_text, text_views,
    texts_field, texts_value, views, Cbor, CborV,
};
use crate::cells::{CellBehavior, CellType};
use crate::rows::done;
use crate::textmap::{lemma_finite_listed, lists, text_order, TextMap, TextSet};
use crate::vocab::{agrees, CellId, ErrCode, ErrV, SchemaId, UcResult};

verus! {

/// Source, label, destinations.
pub type EdgesV = Map<Seq<char>, Map<Seq<char>, Set<Seq<char>>>>;

/// There is an edge.
pub open spec fn has_edge(m: EdgesV, src: Seq<char>, label: Seq<char>, dst: Seq<char>) -> bool {
    m.contains_key(src) && m[src].contains_key(label) && m[src][label].contains(dst)
}

/// Only sources and labels with edges are kept, finitely many of each.
pub open spec fn edges_wf(m: EdgesV) -> bool {
    &&& m.dom().finite()
    &&& forall|s: Seq<char>| #[trigger]
        m.contains_key(s) ==> m[s].dom().finite() && m[s].dom().len() > 0
    &&& forall|s: Seq<char>, l: Seq<char>| #[trigger]
        m.contains_key(s) && #[trigger] m[s].contains_key(l) ==> m[s][l].finite() && m[s][l].len()
            > 0
}

/// One edge more.
pub open spec fn with_edge(m: EdgesV, src: Seq<char>, label: Seq<char>, dst: Seq<char>) -> EdgesV {
    let labels = if m.contains_key(src) {
        m[src]
    } else {
        Map::empty()
    };
    let dsts = if labels.contains_key(label) {
        labels[label]
    } else {
        Set::empty()
    };
    m.insert(src, labels.insert(label, dsts.insert(dst)))
}

/// The destinations of a source under a label, or under any.
pub open spec fn reach(m: EdgesV, src: Seq<char>, label: Option<Seq<char>>) -> Set<Seq<char>> {
    Set::new(|d: Seq<char>| reached(m, src, label, d))
}

/// There is an edge to this destination under a label, or under any.
pub open spec fn reached(
    m: EdgesV,
    src: Seq<char>,
    label: Option<Seq<char>>,
    d: Seq<char>,
) -> bool {
    match label {
        Some(l) => has_edge(m, src, l, d),
        None => exists|l: Seq<char>| #[trigger] has_edge(m, src, l, d),
    }
}

/// The encoded form of an edge.
pub open spec fn edge_value(src: Seq<char>, label: Seq<char>, dst: Seq<char>) -> CborV {
    map_value(
        seq![
            ("src"@, CborV::Text(src)),
            ("label"@, CborV::Text(label)),
            ("dst"@, CborV::Text(dst)),
        ],
    )
}

/// The edges of a source under a label, in order.
pub open spec fn dst_rows(src: Seq<char>, label: Seq<char>, dsts: Set<Seq<char>>) -> Seq<CborV> {
    let o = text_order(dsts);
    Seq::new(o.len(), |i: int| edge_value(src, label, o[i]))
}

/// The edges of a source under its first `n` labels.
pub open spec fn label_rows(src: Seq<char>, m: Map<Seq<char>, Set<Seq<char>>>, n: nat) -> Seq<CborV>
    decreases n,
{
    if n == 0 {
        Seq::empty()
    } else {
        let l = text_order(m.dom())[n - 1];
        label_rows(src, m, (n - 1) as nat) + dst_rows(src, l, m[l])
    }
}

/// The edges of the first `n` sources.
pub open spec fn source_rows(m: EdgesV, n: nat) -> Seq<CborV>
    decreases n,
{
    if n == 0 {
        Seq::empty()
    } else {
        let s = text_order(m.dom())[n - 1];
        source_rows(m, (n - 1) as nat) + label_rows(s, m[s], text_order(m[s].dom()).len())
    }
}

/// Every edge: by source, label and destination.
pub open spec fn edge_rows(m: EdgesV) -> Seq<CborV> {
    source_rows(m, text_order(m.dom()).len())
}

/// The snapshot of the edges.
pub open spec fn graph_image(m: EdgesV) -> CborV {
    map_value(seq![("edges"@, CborV::Array(edge_rows(m)))])
}

/// The edge that an encoded form says.
pub open spec fn edge_of(v: CborV) -> Result<(Seq<char>, Seq<char>, Seq<char>), ErrV> {
    if v.text_field("src"@) is None {
        Err((ErrCode::Internal, missing_text("src"@)))
    } else if v.text_field("label"@) is None {
        Err((ErrCode::Internal, missing_text("label"@)))
    } else if v.text_field("dst"@) is None {
        Err((ErrCode::Internal, missing_text("dst"@)))
    } else {
        Ok((v.text_field("src"@)->0, v.text_field("label"@)->0, v.text_field("dst"@)->0))
    }
}

/// The edges after these rows, and the error that ended it.
pub open spec fn edges_from(items: Seq<CborV>) -> (EdgesV, Option<ErrV>)
    decreases items.len(),
{
    if items.len() == 0 {
        (Map::empty(), None)
    } else {
        let (m, e) = edges_from(items.drop_last());
        if e is Some {
            (m, e)
        } else {
            match edge_of(items.last()) {
                Ok((s, l, d)) => (with_edge(m, s, l, d), None),
                Err(x) => (m, Some(x)),
            }
        }
    }
}

/// What a snapshot restores to.
pub open spec fn graph_from_image(v: CborV) -> (EdgesV, Option<ErrV>) {
    match v.array_field("edges"@) {
        Some(a) => edges_from(a),
        None => (Map::empty(), None),
    }
}

/// The answer to a query.
pub open spec fn graph_answer(m: EdgesV, q: CborV) -> Result<CborV, ErrV> {
    match q.text_field("src"@) {
        None => Err((ErrCode::Internal, missing_text("src"@))),
        Some(s) => Ok(
            map_value(
                seq![
                    ("neighbors"@, texts_value(text_order(reach(m, s, q.text_field("label"@))))),
                ],
            ),
        ),
    }
}

/// Adding an edge adds that edge and no other, from its source, under its label, to its
/// destination.
pub proof fn lemma_edge_added(
    m: EdgesV,
    u: CborV,
    s: Seq<char>,
    l: Seq<char>,
    d: Seq<char>,
)
    ensures
        edge_of(u) is Ok <==> u.text_field("src"@) is Some && u.text_field("label"@) is Some
            && u.text_field("dst"@) is Some,
        edge_of(u) is Ok ==> {
            let (us, ul, ud) = edge_of(u)->Ok_0;
            has_edge(with_edge(m, us, ul, ud), s, l, d) <==> has_edge(m, s, l, d) || (
            u.text_field("src"@) == Some(s) && u.text_field("label"@) == Some(l) && u.text_field(
                "dst"@,
            ) == Some(d))
        },
{
}

/// The neighbours of a source are the destinations of its edges: of those under a label,
/// where one is given, and of all of them where none is.
pub proof fn lemma_neighbours(m: EdgesV, q: CborV, s: Seq<char>, d: Seq<char>)
    requires
        q.text_field("src"@) == Some(s),
        reach(m, s, q.text_field("label"@)).finite(),
    ensures
        graph_answer(m, q) is Ok,
        ({
            let told = texts_field(graph_answer(m, q)->Ok_0, "neighbors"@).contains(d);
            match q.text_field("label"@) {
                Some(l) => told <==> has_edge(m, s, l, d),
                None => told <==> exists|l: Seq<char>| #[trigger] has_edge(m, s, l, d),
            }
        }),
{
    let r = reach(m, s, q.text_field("label"@));
    let o = text_order(r);
    lemma_one_field("neighbors"@, texts_value(o));
    lemma_texts_back(o);
    lemma_finite_listed(r);
    assert(r.contains(d) <==> o.contains(d));
}

proof fn lemma_with_edge(m: EdgesV, s: Seq<char>, l: Seq<char>, d: Seq<char>)
    requires
        edges_wf(m),
    ensures
        edges_wf(with_edge(m, s, l, d)),
        forall|a: Seq<char>, b: Seq<char>, c: Seq<char>|
            #[trigger] has_edge(with_edge(m, s, l, d), a, b, c) <==> (has_edge(m, a, b, c) || (a == s
                && b == l && c == d)),
{
    let r = with_edge(m, s, l, d);
    let labels = if m.contains_key(s) {
        m[s]
    } else {
        Map::empty()
    };
    let dsts = if labels.contains_key(l) {
        labels[l]
    } else {
        Set::empty()
    };
    assert(r[s].dom() =~= labels.dom().insert(l));
    assert(dsts.finite());
    assert(dsts.insert(d).contains(d));
    assert(dsts.insert(d).len() > 0);
    assert(r[s].dom().contains(l));
    assert(r[s].dom().len() > 0);
}

proof fn lemma_stops(items: Seq<CborV>, n: int)
    requires
        0 <= n <= items.len(),
        edges_from(items.take(n)).1 is Some,
    ensures
        edges_from(items) == edges_from(items.take(n)),
    decreases items.len(),
{
    if n < items.len() {
        assert(items.drop_last().take(n) =~= items.take(n));
        lemma_stops(items.drop_last(), n);
    } else {
        assert(items.take(n) =~= items);
    }
}

proof fn lemma_edge_back(s: Seq<char>, l: Seq<char>, d: Seq<char>)
    ensures
        edge_of(edge_value(s, l, d)) == Ok::<_, ErrV>((s, l, d)),
{
    let v = edge_value(s, l, d);
    let m = v->Pairs_0;
    reveal_strlit("src");
    reveal_strlit("label");
    reveal_strlit("dst");
    assert("src"@.len() == 3);
    assert("label"@.len() == 5);
    assert("dst"@.len() == 3);
    assert("src"@[0] != "dst"@[0]);
    reveal_with_fuel(lookup_from, 4);
    assert(m[0].0 == CborV::Text("src"@));
    assert(m[1].0 == CborV::Text("label"@));
    assert(m[2].0 == CborV::Text("dst"@));
    assert(v.field("src"@) == Some(CborV::Text(s)));
    assert(v.field("label"@) == Some(CborV::Text(l)));
    assert(v.field("dst"@) == Some(CborV::Text(d)));
}

/// The rows are all edges, and hold this one.
spec fn sound_rows(m: EdgesV, items: Seq<CborV>) -> bool {
    forall|i: int| 0 <= i < items.len() ==> is_row(m, #[trigger] items[i])
}

spec fn is_row(m: EdgesV, v: CborV) -> bool {
    exists|s: Seq<char>, l: Seq<char>, d: Seq<char>|
        has_edge(m, s, l, d) && v == #[trigger] edge_value(s, l, d)
}

proof fn lemma_from_rows(m: EdgesV, items: Seq<CborV>)
    requires
        sound_rows(m, items),
    ensures
        edges_from(items).1 is None,
        edges_wf(edges_from(items).0),
        forall|s: Seq<char>, l: Seq<char>, d: Seq<char>|
            #[trigger] has_edge(edges_from(items).0, s, l, d) <==> items.contains(
                edge_value(s, l, d),
            ),
    decreases items.len(),
{
    let r = edges_from(items).0;
    if items.len() > 0 {
        let p = items.drop_last();
        assert forall|i: int| 0 <= i < p.len() implies is_row(m, #[trigger] p[i]) by {
            assert(is_row(m, items[i]));
        }
        lemma_from_rows(m, p);
        assert(is_row(m, items[items.len() - 1]));
        let (s, l, d) = choose|s: Seq<char>, l: Seq<char>, d: Seq<char>|
            has_edge(m, s, l, d) && items.last() == #[trigger] edge_value(s, l, d);
        lemma_edge_back(s, l, d);
        lemma_with_edge(edges_from(p).0, s, l, d);
        assert forall|a: Seq<char>, b: Seq<char>, c: Seq<char>|
            #[trigger] has_edge(r, a, b, c) <==> items.contains(edge_value(a, b, c)) by {
            lemma_edge_back(a, b, c);
            let x = edge_value(a, b, c);
            if p.contains(x) {
                let i = choose|i: int| 0 <= i < p.len() && p[i] == x;
                assert(items[i] == x);
            }
            if items.contains(x) {
                let i = choose|i: int| 0 <= i < items.len() && items[i] == x;
                if i < p.len() {
                    assert(p[i] == x);
                }
            }
            if a == s && b == l && c == d {
                assert(items[items.len() - 1] == x);
            }
        }
    }
}

proof fn lemma_dst_rows(m: EdgesV, s: Seq<char>, l: Seq<char>)
    requires
        edges_wf(m),
        m.contains_key(s),
        m[s].contains_key(l),
    ensures
        sound_rows(m, dst_rows(s, l, m[s][l])),
        forall|d: Seq<char>|
            has_edge(m, s, l, d) ==> dst_rows(s, l, m[s][l]).contains(#[trigger] edge_value(s, l, d)),
{
    lemma_finite_listed(m[s][l]);
    let o = text_order(m[s][l]);
    let r = dst_rows(s, l, m[s][l]);
    assert forall|i: int| 0 <= i < r.len() implies is_row(m, #[trigger] r[i]) by {
        assert(o.contains(o[i]));
        assert(m[s][l].contains(o[i]));
        assert(has_edge(m, s, l, o[i]) && r[i] == edge_value(s, l, o[i]));
    }
    assert forall|d: Seq<char>| has_edge(m, s, l, d) implies r.contains(#[trigger] edge_value(s, l, d)) by {
        assert(o.contains(d));
        let i = choose|i: int| 0 <= i < o.len() && o[i] == d;
        assert(r[i] == edge_value(s, l, d));
    }
}

proof fn lemma_join(m: EdgesV, a: Seq<CborV>, b: Seq<CborV>)
    requires
        sound_rows(m, a),
        sound_rows(m, b),
    ensures
        sound_rows(m, a + b),
        forall|v: CborV| a.contains(v) || b.contains(v) ==> #[trigger] (a + b).contains(v),
{
    let c = a + b;
    assert forall|i: int| 0 <= i < c.len() implies is_row(m, #[trigger] c[i]) by {
        if i < a.len() {
            assert(is_row(m, a[i]));
        } else {
            assert(is_row(m, b[i - a.len()]));
        }
    }
    assert forall|v: CborV| a.contains(v) || b.contains(v) implies #[trigger] c.contains(v) by {
        if a.contains(v) {
            let i = choose|i: int| 0 <= i < a.len() && a[i] == v;
            assert(c[i] == v);
        } else {
            let i = choose|i: int| 0 <= i < b.len() && b[i] == v;
            assert(c[a.len() + i] == v);
        }
    }
}

proof fn lemma_label_rows(m: EdgesV, s: Seq<char>, n: nat)
    requires
        edges_wf(m),
        m.contains_key(s),
        n <= text_order(m[s].dom()).len(),
    ensures
        sound_rows(m, label_rows(s, m[s], n)),
        forall|k: int, d: Seq<char>|
            0 <= k < n && has_edge(m, s, text_order(m[s].dom())[k], d) ==> label_rows(
                s,
                m[s],
                n,
            ).contains(#[trigger] edge_value(s, text_order(m[s].dom())[k], d)),
    decreases n,
{
    if n > 0 {
        let o = text_order(m[s].dom());
        lemma_finite_listed(m[s].dom());
        lemma_label_rows(m, s, (n - 1) as nat);
        let l = o[n - 1];
        assert(o.contains(l));
        assert(m[s].dom().contains(l));
        lemma_dst_rows(m, s, l);
        let a = label_rows(s, m[s], (n - 1) as nat);
        let b = dst_rows(s, l, m[s][l]);
        lemma_join(m, a, b);
        assert forall|k: int, d: Seq<char>| 0 <= k < n && has_edge(m, s, o[k], d) implies (a + b).contains(
            #[trigger] edge_value(s, o[k], d),
        ) by {
            if k < n - 1 {
                assert(a.contains(edge_value(s, o[k], d)));
            } else {
                assert(b.contains(edge_value(s, o[k], d)));
            }
        }
    }
}

proof fn lemma_source_rows(m: EdgesV, n: nat)
    requires
        edges_wf(m),
        n <= text_order(m.dom()).len(),
    ensures
        sound_rows(m, source_rows(m, n)),
        forall|k: int, l: Seq<char>, d: Seq<char>|
            0 <= k < n && has_edge(m, text_order(m.dom())[k], l, d) ==> source_rows(m, n).contains(
                #[trigger] edge_value(text_order(m.dom())[k], l, d),
            ),
    decreases n,
{
    if n > 0 {
        let o = text_order(m.dom());
        lemma_finite_listed(m.dom());
        lemma_source_rows(m, (n - 1) as nat);
        let s = o[n - 1];
        assert(o.contains(s));
        assert(m.dom().contains(s));
        let p = text_order(m[s].dom());
        lemma_finite_listed(m[s].dom());
        lemma_label_rows(m, s, p.len());
        let a = source_rows(m, (n - 1) as nat);
        let b = label_rows(s, m[s], p.len());
        lemma_join(m, a, b);
        assert forall|k: int, l: Seq<char>, d: Seq<char>| 0 <= k < n && has_edge(m, o[k], l, d) implies (a
            + b).contains(#[trigger] edge_value(o[k], l, d)) by {
            if k < n - 1 {
                assert(a.contains(edge_value(o[k], l, d)));
            } else {
                assert(m[s].dom().contains(l));
                assert(p.contains(l));
                let i = choose|i: int| 0 <= i < p.len() && p[i] == l;
                assert(b.contains(edge_value(s, p[i], d)));
            }
        }
    }
}

/// Two well-formed graphs with the same edges are the same.
pub proof fn lemma_same_edges(a: EdgesV, b: EdgesV)
    requires
        edges_wf(a),
        edges_wf(b),
        forall|s: Seq<char>, l: Seq<char>, d: Seq<char>|
            #[trigger] has_edge(a, s, l, d) <==> has_edge(b, s, l, d),
    ensures
        a == b,
{
    lemma_keys(a, b);
    lemma_keys(b, a);
    assert forall|s: Seq<char>| a.contains_key(s) implies #[trigger] a[s] == b[s] by {
        assert forall|l: Seq<char>| a[s].contains_key(l) implies #[trigger] a[s][l] == b[s][l] by {
            assert forall|d: Seq<char>| a[s][l].contains(d) <==> b[s][l].contains(d) by {
                assert(has_edge(a, s, l, d) <==> has_edge(b, s, l, d));
            }
            assert(a[s][l] =~= b[s][l]);
        }
        assert(a[s] =~= b[s]);
    }
    assert(a =~= b);
}

proof fn lemma_keys(a: EdgesV, b: EdgesV)
    requires
        edges_wf(a),
        edges_wf(b),
        forall|s: Seq<char>, l: Seq<char>, d: Seq<char>|
            #[trigger] has_edge(a, s, l, d) <==> has_edge(b, s, l, d),
    ensures
        forall|s: Seq<char>| #[trigger] a.contains_key(s) ==> b.contains_key(s),
        forall|s: Seq<char>, l: Seq<char>| #[trigger]
            a.contains_key(s) && #[trigger] a[s].contains_key(l) ==> b[s].contains_key(l),
{
    assert forall|s: Seq<char>, l: Seq<char>| #[trigger]
        a.contains_key(s) && #[trigger] a[s].contains_key(l) implies b.contains_key(s)
        && b[s].contains_key(l) by {
        let d = a[s][l].choose();
        assert(a[s][l].contains(d));
        assert(has_edge(a, s, l, d));
        assert(has_edge(b, s, l, d));
    }
    assert forall|s: Seq<char>| #[trigger] a.contains_key(s) implies b.contains_key(s) by {
        let l = a[s].dom().choose();
        assert(a[s].dom().contains(l));
        assert(a[s].contains_key(l));
    }
}

/// A snapshot restores to the same graph.
pub proof fn lemma_graph_restore(m: EdgesV)
    requires
        edges_wf(m),
    ensures
        graph_from_image(graph_image(m)) == (m, None::<ErrV>),
{
    let items = edge_rows(m);
    let o = text_order(m.dom());
    lemma_finite_listed(m.dom());
    assert(graph_image(m)->Pairs_0[0].0 == CborV::Text("edges"@));
    assert(graph_image(m).field("edges"@) == Some(CborV::Array(items)));
    lemma_source_rows(m, o.len());
    lemma_from_rows(m, items);
    let r = edges_from(items).0;
    assert forall|s: Seq<char>, l: Seq<char>, d: Seq<char>|
        #[trigger] has_edge(r, s, l, d) <==> has_edge(m, s, l, d) by {
        if has_edge(r, s, l, d) {
            assert(items.contains(edge_value(s, l, d)));
            let i = choose|i: int| 0 <= i < items.len() && items[i] == edge_value(s, l, d);
            assert(is_row(m, items[i]));
            let (a, b, c) = choose|a: Seq<char>, b: Seq<char>, c: Seq<char>|
                has_edge(m, a, b, c) && items[i] == #[trigger] edge_value(a, b, c);
            lemma_edge_back(a, b, c);
            lemma_edge_back(s, l, d);
        }
        if has_edge(m, s, l, d) {
            assert(m.dom().contains(s));
            assert(o.contains(s));
            let i = choose|i: int| 0 <= i < o.len() && o[i] == s;
            assert(items.contains(edge_value(o[i], l, d)));
        }
    }
    lemma_same_edges(r, m);
}

/// The graph.
#[derive(Debug)]
pub struct GraphCell {
    pub id: CellId,
    edges: TextMap<TextMap<TextSet>>,
}

impl View for GraphCell {
    type V = EdgesV;

    closed spec fn view(&self) -> EdgesV {
        self.edges@
    }
}

impl GraphCell {
    /// The id of the cell.
    pub closed spec fn ident(&self) -> CellId {
        self.id
    }

    pub fn new(id: CellId) -> (r: Self)
        ensures
            r.ident() == id,
            r@ == EdgesV::empty(),
            edges_wf(r@),
    {
        GraphCell { id, edges: TextMap::new() }
    }

    pub fn add_edge(&mut self, src: &str, label: &str, dst: &str)
        requires
            edges_wf(old(self)@),
        ensures
            final(self).ident() == old(self).ident(),
            final(self)@ == with_edge(old(self)@, src@, label@, dst@),
            edges_wf(final(self)@),
    {
        let ghost was = self@;
        proof {
            lemma_with_edge(was, src@, label@, dst@);
        }
        let mut labels: TextMap<TextSet> = match self.edges.remove(src) {
            Some(m) => m,
            None => TextMap::new(),
        };
        let ghost labels0 = labels@;
        assert(labels0 =~= if was.contains_key(src@) {
            was[src@]
        } else {
            Map::empty()
        });
        let mut dsts: TextSet = match labels.remove(label) {
            Some(s) => s,
            None => TextSet::new(),
        };
        dsts.insert(dst);
        let ghost dsts1 = dsts@;
        labels.insert(label.to_owned(), dsts);
        assert(labels@ =~= labels0.insert(label@, dsts1));
        self.edges.insert(src.to_owned(), labels);
        assert(self@ =~= with_edge(was, src@, label@, dst@));
    }

    /// The destinations of a source under a label, or under any, in ascending
    /// order, each once.
    pub fn neighbors(&self, src: &str, label: Option<&str>) -> (r: Vec<String>)
        ensures
            text_views(r@) == text_order(reach(self@, src@, label.deep_view())),
            lists(text_views(r@), reach(self@, src@, label.deep_view())),
    {
        let ghost want = reach(self@, src@, label.deep_view());
        let mut found = TextSet::new();
        if let Some(labels) = self.edges.get(src) {
            match label {
                Some(l) => {
                    if let Some(d) = labels.get(l) {
                        assert(d@ =~= want);
                        return d.to_vec();
                    }
                },
                None => {
                    let n: usize = labels.len();
                    let ghost m = labels@;
                    let ghost o = labels.order();
                    let mut i: usize = 0;
                    while i < n
                        invariant
                            i <= n == o.len(),
                            o == labels.order(),
                            m == labels@,
                            self@.contains_key(src@),
                            m == self@[src@],
                            forall|j: int| 0 <= j < n ==> m.contains_key(#[trigger] o[j]),
                            forall|d: Seq<char>|
                                #[trigger] found@.contains(d) ==> exists|l: Seq<char>| #[trigger]
                                    has_edge(self@, src@, l, d),
                            forall|j: int, d: Seq<char>|
                                0 <= j < i && #[trigger] m[o[j]].contains(d) ==> found@.contains(d),
                        decreases n - i,
                    {
                        let set = labels.value_at(i);
                        let ghost l = o[i as int];
                        let items = set.to_vec();
                        let ghost so = text_order(set@);
                        proof {
                            lemma_finite_listed(set@);
                        }
                        let mut k: usize = 0;
                        while k < items.len()
                            invariant
                                k <= items@.len(),
                                text_views(items@) == so,
                                so == text_order(set@),
                                lists(so, set@),
                                self@.contains_key(src@),
                                m == self@[src@],
                                m.contains_key(l),
                                set@ == m[l],
                                l == o[i as int],
                                forall|d: Seq<char>|
                                    #[trigger] found@.contains(d) ==> exists|x: Seq<char>| #[trigger]
                                        has_edge(self@, src@, x, d),
                                forall|j: int, d: Seq<char>|
                                    0 <= j < i && #[trigger] m[o[j]].contains(d) ==> found@.contains(
                                        d,
                                    ),
                                forall|j: int| 0 <= j < k ==> found@.contains(#[trigger] so[j]),
                            decreases items.len() - k,
                        {
                            assert(so[k as int] == items@[k as int]@);
                            assert(so.contains(so[k as int]));
                            assert(has_edge(self@, src@, l, so[k as int]));
                            found.insert(items[k].as_str());
                            k += 1;
                        }
                        assert forall|j: int, d: Seq<char>|
                            0 <= j < i + 1 && #[trigger] m[o[j]].contains(d) implies found@.contains(d) by {
                            if j == i {
                                assert(set@.contains(d));
                                assert(so.contains(d));
                                let x = choose|x: int| 0 <= x < so.len() && so[x] == d;
                                assert(found@.contains(so[x]));
                            }
                        }
                        i += 1;
                    }
                    proof {
                        assert forall|d: Seq<char>| #[trigger] found@.contains(d) <==> want.contains(d) by {
                            if want.contains(d) {
                                let l = choose|l: Seq<char>| #[trigger] has_edge(self@, src@, l, d);
                                assert(m.dom().contains(l));
                                assert(o.contains(l));
                                let j = choose|j: int| 0 <= j < o.len() && o[j] == l;
                                assert(m[o[j]].contains(d));
                            }
                        }
                    }
                },
            }
        }
        assert(found@ =~= want);
        found.to_vec()
    }

    fn rows(&self) -> (r: Vec<Cbor>)
        ensures
            views(r@) == edge_rows(self@),
    {
        let mut out: Vec<Cbor> = Vec::new();
        let n: usize = self.edges.len();
        let ghost m = self@;
        let ghost o = self.edges.order();
        let mut i: usize = 0;
        assert(views(out@) =~= source_rows(m, 0));
        while i < n
            invariant
                i <= n == o.len(),
                m == self@,
                o == self.edges.order(),
                o == text_order(m.dom()),
                views(out@) == source_rows(m, i as nat),
            decreases n - i,
        {
            let src = self.edges.key_at(i);
            let labels = self.edges.value_at(i);
            let ghost lm = labels@;
            let nl: usize = labels.len();
            let ghost lo = labels.order();
            let ghost done_rows = views(out@);
            let mut j: usize = 0;
            assert(views(out@) =~= done_rows + label_rows(src@, lm, 0));
            while j < nl
                invariant
                    j <= nl == lo.len(),
                    lm == labels@,
                    lo == labels.order(),
                    lo == text_order(lm.dom()),
                    views(out@) == done_rows + label_rows(src@, lm, j as nat),
                decreases nl - j,
            {
                let label = labels.key_at(j);
                let dsts = labels.value_at(j).to_vec();
                let ghost base = views(out@);
                let ghost want = dst_rows(src@, label@, lm[label@]);
                let mut k: usize = 0;
                assert(views(out@) =~= base + want.take(0));
                while k < dsts.len()
                    invariant
                        k <= dsts@.len(),
                        text_views(dsts@) == text_order(lm[label@]),
                        want == dst_rows(src@, label@, lm[label@]),
                        views(out@) == base + want.take(k as int),
                    decreases dsts.len() - k,
                {
                    let ghost before = views(out@);
                    assert(text_order(lm[label@])[k as int] == dsts@[k as int]@);
                    let row = Cbor::map3(
                        "src",
                        Cbor::t(src.as_str()),
                        "label",
                        Cbor::t(label.as_str()),
                        "dst",
                        Cbor::t(dsts[k].as_str()),
                    );
                    out.push(row);
                    assert(views(out@) =~= before.push(row@));
                    k += 1;
                    assert(views(out@) =~= base + want.take(k as int));
                }
                assert(want.take(want.len() as int) =~= want);
                j += 1;
                assert(views(out@) =~= done_rows + label_rows(src@, lm, j as nat));
            }
            i += 1;
        }
        out
    }
}

impl CellBehavior for GraphCell {
    open spec fn wf(&self) -> bool {
        edges_wf(self@)
    }

    open spec fn accepts(&self, logical_at: u64, update: CborV) -> bool {
        true
    }

    open spec fn restorable(state: CborV) -> bool {
        true
    }

    fn cell_id(&self) -> (r: CellId)
        ensures
            r == self.ident(),
    {
        self.id
    }

    fn cell_type(&self) -> (r: CellType)
        ensures
            r == CellType::Graph,
    {
        CellType::Graph
    }

    fn schema_id(&self) -> (r: SchemaId)
        ensures
            r.0@ == "graph.csr.v1"@,
    {
        SchemaId::new("graph.csr.v1")
    }

    fn on_query(&self, _at: u64, query: &Cbor) -> (r: UcResult<Cbor>)
        ensures
            agrees(r, graph_answer(self@, query@)),
    {
        let src = match query.req_str("src") {
            Ok(x) => x,
            Err(e) => {
                return Err(e);
            },
        };
        let label = query.opt_str("label");
        let found = match &label {
            Some(l) => self.neighbors(src.as_str(), Some(l.as_str())),
            None => self.neighbors(src.as_str(), None),
        };
        Ok(Cbor::map1("neighbors", Cbor::text_array(found.as_slice())))
    }

    fn on_update(&mut self, _at: u64, update: &Cbor) -> (r: UcResult<Cbor>)
        ensures
            final(self).ident() == old(self).ident(),
            match edge_of(update@) {
                Ok((s, l, d)) => final(self)@ == with_edge(old(self)@, s, l, d) && agrees(
                    r,
                    Ok(map_value(seq![("edge_added"@, CborV::Bool(true))])),
                ),
                Err(e) => final(self)@ == old(self)@ && agrees(r, Err(e)),
            },
    {
        let src = match update.req_str("src") {
            Ok(x) => x,
            Err(e) => {
                return Err(e);
            },
        };
        let label = match update.req_str("label") {
            Ok(x) => x,
            Err(e) => {
                return Err(e);
            },
        };
        let dst = match update.req_str("dst") {
            Ok(x) => x,
            Err(e) => {
                return Err(e);
            },
        };
        self.add_edge(src.as_str(), label.as_str(), dst.as_str());
        Ok(Cbor::map1("edge_added", Cbor::Bool(true)))
    }

    fn snapshot_state(&self) -> (r: Cbor)
        ensures
            r@ == graph_image(self@),
            self@.dom().finite(),
    {
        Cbor::map1("edges", Cbor::arr(self.rows()))
    }

    fn restore_state(&mut self, state: &Cbor) -> (r: UcResult<()>)
        ensures
            final(self).ident() == old(self).ident(),
            final(self)@ == graph_from_image(state@).0,
            agrees(r, done(graph_from_image(state@).1)),
    {
        self.edges = TextMap::new();
        if let Some(arr) = state.opt_array("edges") {
            let ghost items = views(arr@);
            let mut i: usize = 0;
            while i < arr.len()
                invariant
                    i <= arr@.len(),
                    items == views(arr@),
                    self.ident() == old(self).ident(),
                    edges_wf(self@),
                    edges_from(items.take(i as int)) == (self@, None::<ErrV>),
                    graph_from_image(state@) == edges_from(items),
                decreases arr.len() - i,
            {
                proof {
                    assert(items.take(i + 1).drop_last() =~= items.take(i as int));
                    assert(items.take(i + 1).last() == arr@[i as int]@);
                    if edges_from(items.take(i + 1)).1 is Some {
                        lemma_stops(items, i + 1);
                    }
                }
                let src = match arr[i].req_str("src") {
                    Ok(x) => x,
                    Err(e) => {
                        return Err(e);
                    },
                };
                let label = match arr[i].req_str("label") {
                    Ok(x) => x,
                    Err(e) => {
                        return Err(e);
                    },
                };
                let dst = match arr[i].req_str("dst") {
                    Ok(x) => x,
                    Err(e) => {
                        return Err(e);
                    },
                };
                self.add_edge(src.as_str(), label.as_str(), dst.as_str());
                i += 1;
            }
            assert(items.take(items.len() as int) =~= items);
        }
        Ok(())
    }
}

} // verus!
