//! A navigable small world: points linked to their near ones on several layers,
//! and the search that follows the links.
//!
//! How near two points are is given by the caller, as a number that is greater
//! the nearer they are. The point that is asked about, or is to be added, has the
//! id that comes next.

use vstd::prelude::*;
use crate::cells::ranking::{
    best, best_first, better, lemma_placed, lemma_placed_holds, lemma_ranked, place, placed, ranked,
    top_of, Scored,
};
use crate::ulid::{draw, next_state, seeded, DetRng};

verus! {

/// How many links a point has on a layer above the lowest.
pub const HNSW_M: usize = 16;

/// How many links a point has on the lowest layer.
pub const HNSW_M0: usize = 32;

/// How many points are kept while a place for a new one is sought.
pub const HNSW_EF_CONSTRUCTION: usize = 64;

/// How many points are kept in a search, at least.
pub const HNSW_EF_SEARCH: usize = 48;

/// How near two points are.
pub type Nearness = spec_fn(u32, u32) -> u64;

/// How near two points are, as a function says it.
pub open spec fn nearness<F: Fn(u32, u32) -> u64>(f: F) -> Nearness {
    |a: u32, b: u32| choose|r: u64| call_ensures(f, (a, b), r)
}

/// The function says how near two points are, for all ids up to `n`, and says the
/// same each time.
pub open spec fn measures<F: Fn(u32, u32) -> u64>(f: F, n: nat) -> bool {
    &&& forall|a: u32, b: u32| a <= n && b <= n ==> #[trigger] call_requires(f, (a, b))
    &&& forall|a: u32, b: u32, r: u64| #[trigger]
        call_ensures(f, (a, b), r) ==> r == nearness(f)(a, b)
}

/// The points and their links.
#[verifier::ext_equal]
pub struct GraphV {
    /// The links of each point on each of its layers, the lowest first.
    pub links: Seq<Seq<Seq<u32>>>,
    pub entry: Option<u32>,
    pub top: nat,
}

/// How many links a point may have on a layer.
pub open spec fn most_links(layer: nat) -> nat {
    if layer == 0 {
        32
    } else {
        16
    }
}

/// The state of a search on one layer.
#[verifier::ext_equal]
pub struct Front {
    /// The points whose links were not followed yet, the best first.
    pub open: Seq<Scored>,
    /// The best points so far, the best first.
    pub kept: Seq<Scored>,
    /// Which points were met.
    pub met: Seq<bool>,
}

/// How many of the flags are down.
pub open spec fn unmet(met: Seq<bool>) -> nat
    decreases met.len(),
{
    if met.len() == 0 {
        0
    } else {
        unmet(met.drop_last()) + if met.last() {
            0nat
        } else {
            1
        }
    }
}

/// The nearest of a list and of the best so far; the earlier among equals.
pub open spec fn nearest_in(sim: Nearness, q: u32, list: Seq<u32>, from: u32) -> u32
    decreases list.len(),
{
    if list.len() == 0 {
        from
    } else {
        let b = nearest_in(sim, q, list.drop_last(), from);
        if sim(q, list.last()) > sim(q, b) {
            list.last()
        } else {
            b
        }
    }
}

impl Front {
    /// The state after a point was met.
    pub open spec fn meet(self, sim: Nearness, q: u32, ef: nat, n: u32) -> Front {
        if n >= self.met.len() || self.met[n as int] {
            self
        } else {
            let x = (sim(q, n), n);
            let met = self.met.update(n as int, true);
            if self.kept.len() < ef || x.0 > self.kept.last().0 {
                Front { open: placed(self.open, x), kept: top_of(placed(self.kept, x), ef), met }
            } else {
                Front { met, ..self }
            }
        }
    }

    /// The state after the points of a list were met.
    pub open spec fn meet_all(self, sim: Nearness, q: u32, ef: nat, ns: Seq<u32>) -> Front
        decreases ns.len(),
    {
        if ns.len() == 0 {
            self
        } else {
            self.meet_all(sim, q, ef, ns.drop_last()).meet(sim, q, ef, ns.last())
        }
    }

    /// What is left to do at most.
    pub open spec fn left(self) -> nat {
        2 * unmet(self.met) + self.open.len()
    }

    /// The search is over: nothing is open, or what is open is worse than all that
    /// is kept.
    pub open spec fn over(self, ef: nat) -> bool {
        self.open.len() == 0 || (self.kept.len() >= ef && self.open[0].0 < self.kept.last().0)
    }

    /// The state with the best open point taken.
    pub open spec fn taken(self) -> Front {
        Front { open: self.open.drop_first(), ..self }
    }
}

proof fn lemma_unmet(met: Seq<bool>, n: int)
    requires
        0 <= n < met.len(),
        !met[n],
    ensures
        unmet(met.update(n, true)) + 1 == unmet(met),
    decreases met.len(),
{
    if n == met.len() - 1 {
        assert(met.update(n, true).drop_last() =~= met.drop_last());
    } else {
        lemma_unmet(met.drop_last(), n);
        assert(met.update(n, true).drop_last() =~= met.drop_last().update(n, true));
    }
}

proof fn lemma_meet_left(st: Front, sim: Nearness, q: u32, ef: nat, n: u32)
    ensures
        st.meet(sim, q, ef, n).left() <= st.left(),
{
    if n < st.met.len() && !st.met[n as int] {
        lemma_unmet(st.met, n as int);
        lemma_placed_holds(st.open, (sim(q, n), n), (sim(q, n), n));
    }
}

proof fn lemma_meet_all_left(st: Front, sim: Nearness, q: u32, ef: nat, ns: Seq<u32>)
    ensures
        st.meet_all(sim, q, ef, ns).left() <= st.left(),
    decreases ns.len(),
{
    if ns.len() > 0 {
        lemma_meet_all_left(st, sim, q, ef, ns.drop_last());
        lemma_meet_left(st.meet_all(sim, q, ef, ns.drop_last()), sim, q, ef, ns.last());
    }
}

impl GraphV {
    pub open spec fn empty() -> GraphV {
        GraphV { links: Seq::empty(), entry: None, top: 0 }
    }

    /// The point is on the layer.
    pub open spec fn on(self, n: u32, layer: nat) -> bool {
        n < self.links.len() && layer < self.links[n as int].len()
    }

    /// The links of a point on a layer.
    pub open spec fn near(self, n: u32, layer: nat) -> Seq<u32> {
        if self.on(n, layer) {
            self.links[n as int][layer as int]
        } else {
            Seq::empty()
        }
    }

    /// The point that is reached when one goes on to the nearest as long as that
    /// leads nearer.
    pub open spec fn closest(self, sim: Nearness, q: u32, cur: u32, layer: nat) -> u32
        decreases u64::MAX - sim(q, cur),
    {
        let b = nearest_in(sim, q, self.near(cur, layer), cur);
        if sim(q, b) > sim(q, cur) {
            self.closest(sim, q, b, layer)
        } else {
            cur
        }
    }

    /// The point that is reached when one does so on each layer from `layer` down
    /// to the one above `to`.
    pub open spec fn descended(self, sim: Nearness, q: u32, cur: u32, layer: nat, to: nat) -> u32
        decreases layer,
    {
        if layer > to {
            self.descended(sim, q, self.closest(sim, q, cur, layer), (layer - 1) as nat, to)
        } else {
            cur
        }
    }

    /// The points that a search keeps from a state on.
    pub open spec fn explored(
        self,
        sim: Nearness,
        q: u32,
        ef: nat,
        layer: nat,
        st: Front,
    ) -> Seq<Scored>
        decreases st.left(),
        via GraphV::explored_ends
    {
        if st.over(ef) {
            st.kept
        } else {
            self.explored(
                sim,
                q,
                ef,
                layer,
                st.taken().meet_all(sim, q, ef, self.near(st.open[0].1, layer)),
            )
        }
    }

    #[via_fn]
    proof fn explored_ends(self, sim: Nearness, q: u32, ef: nat, layer: nat, st: Front) {
        if !st.over(ef) {
            lemma_meet_all_left(st.taken(), sim, q, ef, self.near(st.open[0].1, layer));
        }
    }

    /// The state at the start of a search.
    pub open spec fn started(self, sim: Nearness, q: u32, start: u32) -> Front {
        let x = (sim(q, start), start);
        Front {
            open: seq![x],
            kept: seq![x],
            met: Seq::new(self.links.len(), |i: int| i == start),
        }
    }

    /// The best points, at most `ef`, that a search on a layer meets.
    pub open spec fn found(
        self,
        sim: Nearness,
        q: u32,
        start: u32,
        ef: nat,
        layer: nat,
    ) -> Seq<Scored> {
        self.explored(sim, q, ef, layer, self.started(sim, q, start))
    }

    /// The best `k` points for the point that comes next.
    pub open spec fn search(self, sim: Nearness, k: nat) -> Seq<Scored> {
        match self.entry {
            None => Seq::empty(),
            Some(e) => {
                let q = self.links.len() as u32;
                let cur = self.descended(sim, q, e, self.top, 0);
                top_of(
                    self.found(
                        sim,
                        q,
                        cur,
                        if k > 48 {
                            k
                        } else {
                            48
                        },
                        0,
                    ),
                    k,
                )
            },
        }
    }

    /// The graph with other links of a point on a layer.
    pub open spec fn relinked(self, n: u32, layer: nat, list: Seq<u32>) -> GraphV {
        GraphV {
            links: self.links.update(
                n as int,
                self.links[n as int].update(layer as int, list),
            ),
            ..self
        }
    }

    /// The graph with a link both ways, and the links of `n` cut to the nearest `m`.
    pub open spec fn linked(self, sim: Nearness, id: u32, layer: nat, m: nat, n: u32) -> GraphV {
        let g = self.relinked(id, layer, self.near(id, layer).push(n));
        let list = g.near(n, layer).push(id);
        g.relinked(
            n,
            layer,
            if list.len() > m {
                trimmed(sim, n, list, m)
            } else {
                list
            },
        )
    }

    /// The graph with links to all of a list.
    pub open spec fn linked_all(
        self,
        sim: Nearness,
        id: u32,
        layer: nat,
        m: nat,
        ns: Seq<Scored>,
    ) -> GraphV
        decreases ns.len(),
    {
        if ns.len() == 0 {
            self
        } else {
            self.linked_all(sim, id, layer, m, ns.drop_last()).linked(
                sim,
                id,
                layer,
                m,
                ns.last().1,
            )
        }
    }

    /// The graph after a point was linked on a layer and on all below.
    pub open spec fn linked_down(self, sim: Nearness, id: u32, cur: u32, layer: nat) -> GraphV
        decreases layer,
    {
        let ns = self.found(sim, id, cur, 64, layer);
        let m = most_links(layer);
        let g = self.linked_all(sim, id, layer, m, top_of(ns, m));
        if layer == 0 {
            g
        } else {
            g.linked_down(
                sim,
                id,
                if ns.len() > 0 {
                    ns[0].1
                } else {
                    cur
                },
                (layer - 1) as nat,
            )
        }
    }

    /// The graph with one more point, without links.
    pub open spec fn grown(self, level: nat) -> GraphV {
        GraphV {
            links: self.links.push(Seq::new(level + 1, |i: int| Seq::<u32>::empty())),
            ..self
        }
    }

    /// The graph after a point was added that is on the layers up to `level`.
    pub open spec fn inserted(self, sim: Nearness, level: nat) -> GraphV {
        let id = self.links.len() as u32;
        let g = self.grown(level);
        match self.entry {
            None => GraphV { entry: Some(id), top: level, ..g },
            Some(e) => {
                let cur = g.descended(sim, id, e, self.top, level);
                let done = g.linked_down(
                    sim,
                    id,
                    cur,
                    if level < self.top {
                        level
                    } else {
                        self.top
                    },
                );
                if level > self.top {
                    GraphV { entry: Some(id), top: level, ..done }
                } else {
                    done
                }
            },
        }
    }

    /// Each link on a layer leads to a point on that layer, and no point has more
    /// links than it may.
    pub open spec fn sound(self) -> bool {
        &&& self.links.len() <= u32::MAX
        &&& forall|n: u32, l: nat, j: int|
            0 <= j < self.near(n, l).len() ==> self.on(#[trigger] self.near(n, l)[j], l)
        &&& forall|n: u32, l: nat| (#[trigger] self.near(n, l)).len() <= most_links(l)
    }

    /// The graph is sound, and is entered on its highest layer.
    pub open spec fn wf(self) -> bool {
        &&& self.sound()
        &&& match self.entry {
            None => self.links.len() == 0,
            Some(e) => self.on(e, self.top),
        }
    }
}

/// The scores of points by how near they are to `n`.
pub open spec fn scores(sim: Nearness, n: u32, list: Seq<u32>) -> Seq<Scored> {
    Seq::new(list.len(), |i: int| (sim(n, list[i]), list[i]))
}

/// The points of a list of scores.
pub open spec fn ids_of(s: Seq<Scored>) -> Seq<u32> {
    Seq::new(s.len(), |i: int| s[i].1)
}

/// The nearest `m` of the links of `n`.
pub open spec fn trimmed(sim: Nearness, n: u32, list: Seq<u32>, m: nat) -> Seq<u32> {
    ids_of(top_of(ranked(scores(sim, n, list)), m))
}

/// The layers of a point, by a random number: one more for each pair of zero bits
/// at its end, and at most sixteen above the lowest.
pub open spec fn level_of(v: u64, level: nat) -> nat
    decreases 16 - level,
{
    if v % 4 == 0 && level < 16 {
        level_of(v / 4, level + 1)
    } else {
        level
    }
}

/// Scored points on a layer, each with its score, the best first, and none of them
/// the point that is asked about.
pub open spec fn true_scores(
    g: GraphV,
    sim: Nearness,
    q: u32,
    layer: nat,
    s: Seq<Scored>,
) -> bool {
    &&& best_first(s)
    &&& forall|i: int|
        0 <= i < s.len() ==> g.on((#[trigger] s[i]).1, layer) && s[i].0 == sim(q, s[i].1)
            && s[i].1 != q
}

/// No link on the layer leads to the point.
pub open spec fn unlinked(g: GraphV, q: u32, layer: nat) -> bool {
    forall|n: u32, j: int| 0 <= j < g.near(n, layer).len() ==> #[trigger] g.near(n, layer)[j] != q
}

/// What holds of every state of a search.
pub open spec fn searching(
    g: GraphV,
    sim: Nearness,
    q: u32,
    ef: nat,
    layer: nat,
    st: Front,
) -> bool {
    &&& true_scores(g, sim, q, layer, st.open)
    &&& true_scores(g, sim, q, layer, st.kept)
    &&& 1 <= st.kept.len() <= ef
    &&& st.met.len() == g.links.len()
    &&& forall|i: int| 0 <= i < st.open.len() ==> st.met[(#[trigger] st.open[i]).1 as int]
    &&& forall|i: int| 0 <= i < st.kept.len() ==> st.met[(#[trigger] st.kept[i]).1 as int]
}

proof fn lemma_placed_true(
    g: GraphV,
    sim: Nearness,
    q: u32,
    layer: nat,
    s: Seq<Scored>,
    met: Seq<bool>,
    n: u32,
)
    requires
        true_scores(g, sim, q, layer, s),
        g.on(n, layer),
        n != q,
        n < met.len(),
        !met[n as int],
        met.len() == g.links.len(),
        forall|i: int| 0 <= i < s.len() ==> met[(#[trigger] s[i]).1 as int],
    ensures
        ({
            let t = placed(s, (sim(q, n), n));
            &&& true_scores(g, sim, q, layer, t)
            &&& t.len() == s.len() + 1
            &&& forall|i: int|
                0 <= i < t.len() ==> met.update(n as int, true)[(#[trigger] t[i]).1 as int]
        }),
{
    let x = (sim(q, n), n);
    let t = placed(s, x);
    assert(!s.contains(x)) by {
        if s.contains(x) {
            let i = choose|i: int| 0 <= i < s.len() && s[i] == x;
            assert(met[s[i].1 as int]);
        }
    }
    lemma_placed(s, x);
    lemma_placed_holds(s, x, x);
    assert forall|i: int| 0 <= i < t.len() implies g.on((#[trigger] t[i]).1, layer) && t[i].0
        == sim(q, t[i].1) && t[i].1 != q && met.update(n as int, true)[t[i].1 as int] by {
        lemma_placed_holds(s, x, t[i]);
        assert(t.contains(t[i]));
        if t[i] != x {
            let j = choose|j: int| 0 <= j < s.len() && s[j] == t[i];
            assert(met[s[j].1 as int]);
        }
    }
}

proof fn lemma_meet(
    g: GraphV,
    sim: Nearness,
    q: u32,
    ef: nat,
    layer: nat,
    st: Front,
    n: u32,
)
    requires
        searching(g, sim, q, ef, layer, st),
        g.on(n, layer),
        n != q,
    ensures
        searching(g, sim, q, ef, layer, st.meet(sim, q, ef, n)),
{
    if !st.met[n as int] {
        lemma_placed_true(g, sim, q, layer, st.open, st.met, n);
        lemma_placed_true(g, sim, q, layer, st.kept, st.met, n);
        let r = st.meet(sim, q, ef, n);
        let x = (sim(q, n), n);
        assert forall|i: int| 0 <= i < r.kept.len() implies g.on((#[trigger] r.kept[i]).1, layer)
            && r.kept[i].0 == sim(q, r.kept[i].1) && r.kept[i].1 != q && r.met[r.kept[i].1 as int] by {
            if st.kept.len() < ef || x.0 > st.kept.last().0 {
                assert(r.kept[i] == placed(st.kept, x)[i]);
            } else {
                assert(st.met[st.kept[i].1 as int]);
            }
        }
        assert forall|i: int| 0 <= i < r.open.len() implies r.met[(#[trigger] r.open[i]).1 as int] by {
            if !(st.kept.len() < ef || x.0 > st.kept.last().0) {
                assert(st.met[st.open[i].1 as int]);
            }
        }
        assert(best_first(r.kept)) by {
            if st.kept.len() < ef || x.0 > st.kept.last().0 {
                assert forall|i: int, j: int| 0 <= i < j < r.kept.len() implies better(
                    #[trigger] r.kept[i],
                    #[trigger] r.kept[j],
                ) by {
                    assert(better(placed(st.kept, x)[i], placed(st.kept, x)[j]));
                }
            }
        }
    }
}

proof fn lemma_meet_all(
    g: GraphV,
    sim: Nearness,
    q: u32,
    ef: nat,
    layer: nat,
    st: Front,
    ns: Seq<u32>,
)
    requires
        searching(g, sim, q, ef, layer, st),
        forall|j: int| 0 <= j < ns.len() ==> g.on(#[trigger] ns[j], layer) && ns[j] != q,
    ensures
        searching(g, sim, q, ef, layer, st.meet_all(sim, q, ef, ns)),
    decreases ns.len(),
{
    if ns.len() > 0 {
        lemma_meet_all(g, sim, q, ef, layer, st, ns.drop_last());
        assert(g.on(ns[ns.len() - 1], layer));
        lemma_meet(g, sim, q, ef, layer, st.meet_all(sim, q, ef, ns.drop_last()), ns.last());
    }
}

proof fn lemma_taken(g: GraphV, sim: Nearness, q: u32, ef: nat, layer: nat, st: Front)
    requires
        searching(g, sim, q, ef, layer, st),
        st.open.len() > 0,
    ensures
        searching(g, sim, q, ef, layer, st.taken()),
{
    let t = st.taken().open;
    assert forall|i: int| 0 <= i < t.len() implies g.on((#[trigger] t[i]).1, layer) && t[i].0
        == sim(q, t[i].1) && t[i].1 != q && st.met[t[i].1 as int] by {
        assert(t[i] == st.open[i + 1]);
    }
    assert forall|i: int, j: int| 0 <= i < j < t.len() implies better(
        #[trigger] t[i],
        #[trigger] t[j],
    ) by {
        assert(better(st.open[i + 1], st.open[j + 1]));
    }
}

proof fn lemma_explored(g: GraphV, sim: Nearness, q: u32, ef: nat, layer: nat, st: Front)
    requires
        g.sound(),
        unlinked(g, q, layer),
        searching(g, sim, q, ef, layer, st),
    ensures
        true_scores(g, sim, q, layer, g.explored(sim, q, ef, layer, st)),
        1 <= g.explored(sim, q, ef, layer, st).len() <= ef,
    decreases st.left(),
{
    if !st.over(ef) {
        let ns = g.near(st.open[0].1, layer);
        lemma_meet_all_left(st.taken(), sim, q, ef, ns);
        lemma_taken(g, sim, q, ef, layer, st);
        lemma_meet_all(g, sim, q, ef, layer, st.taken(), ns);
        lemma_explored(g, sim, q, ef, layer, st.taken().meet_all(sim, q, ef, ns));
    }
}

proof fn lemma_started(g: GraphV, sim: Nearness, q: u32, start: u32, ef: nat, layer: nat)
    requires
        g.on(start, layer),
        start != q,
        ef >= 1,
    ensures
        searching(g, sim, q, ef, layer, g.started(sim, q, start)),
{
}

/// What a search on a layer finds are points of that layer with their scores, the
/// best first: at least one, and at most `ef`.
pub proof fn lemma_found(g: GraphV, sim: Nearness, q: u32, start: u32, ef: nat, layer: nat)
    requires
        g.sound(),
        unlinked(g, q, layer),
        g.on(start, layer),
        start != q,
        ef >= 1,
    ensures
        true_scores(g, sim, q, layer, g.found(sim, q, start, ef, layer)),
        1 <= g.found(sim, q, start, ef, layer).len() <= ef,
{
    lemma_started(g, sim, q, start, ef, layer);
    lemma_explored(g, sim, q, ef, layer, g.started(sim, q, start));
}

proof fn lemma_nearest_in(g: GraphV, sim: Nearness, q: u32, layer: nat, list: Seq<u32>, from: u32)
    requires
        g.on(from, layer),
        from != q,
        forall|j: int| 0 <= j < list.len() ==> g.on(#[trigger] list[j], layer) && list[j] != q,
    ensures
        g.on(nearest_in(sim, q, list, from), layer),
        nearest_in(sim, q, list, from) != q,
        sim(q, nearest_in(sim, q, list, from)) >= sim(q, from),
    decreases list.len(),
{
    if list.len() > 0 {
        lemma_nearest_in(g, sim, q, layer, list.drop_last(), from);
        assert(g.on(list[list.len() - 1], layer));
    }
}

proof fn lemma_closest(g: GraphV, sim: Nearness, q: u32, cur: u32, layer: nat)
    requires
        g.sound(),
        unlinked(g, q, layer),
        g.on(cur, layer),
        cur != q,
    ensures
        g.on(g.closest(sim, q, cur, layer), layer),
        g.closest(sim, q, cur, layer) != q,
        sim(q, g.closest(sim, q, cur, layer)) >= sim(q, cur),
    decreases u64::MAX - sim(q, cur),
{
    let b = nearest_in(sim, q, g.near(cur, layer), cur);
    lemma_nearest_in(g, sim, q, layer, g.near(cur, layer), cur);
    if sim(q, b) > sim(q, cur) {
        lemma_closest(g, sim, q, b, layer);
    }
}

proof fn lemma_descended(g: GraphV, sim: Nearness, q: u32, cur: u32, layer: nat, to: nat)
    requires
        g.sound(),
        forall|l: nat| #[trigger] unlinked(g, q, l),
        g.on(cur, layer),
        cur != q,
    ensures
        g.descended(sim, q, cur, layer, to) != q,
        g.on(
            g.descended(sim, q, cur, layer, to),
            if layer > to {
                to
            } else {
                layer
            },
        ),
    decreases layer,
{
    if layer > to {
        assert(unlinked(g, q, layer));
        lemma_closest(g, sim, q, cur, layer);
        lemma_descended(g, sim, q, g.closest(sim, q, cur, layer), (layer - 1) as nat, to);
    }
}

proof fn lemma_next_unlinked(g: GraphV, q: u32)
    requires
        g.sound(),
        q >= g.links.len(),
    ensures
        forall|l: nat| #[trigger] unlinked(g, q, l),
{
    assert forall|l: nat| #[trigger] unlinked(g, q, l) by {
        assert forall|n: u32, j: int| 0 <= j < g.near(n, l).len() implies #[trigger] g.near(
            n,
            l,
        )[j] != q by {
            assert(g.on(g.near(n, l)[j], l));
        }
    }
}

/// What a search gives are points of the graph with their scores, the best first
/// and none twice; at most as many as asked for, and some where there is a point
/// and any are asked for.
pub proof fn lemma_search(g: GraphV, sim: Nearness, k: nat)
    requires
        g.wf(),
    ensures
        best_first(g.search(sim, k)),
        g.search(sim, k).len() <= k,
        k > 0 && g.links.len() > 0 ==> g.search(sim, k).len() > 0,
        forall|i: int|
            0 <= i < g.search(sim, k).len() ==> {
                let x = #[trigger] g.search(sim, k)[i];
                x.1 < g.links.len() && x.0 == sim(g.links.len() as u32, x.1)
            },
{
    if g.entry is Some {
        let q = g.links.len() as u32;
        let ef = if k > 48 {
            k
        } else {
            48
        };
        lemma_next_unlinked(g, q);
        lemma_descended(g, sim, q, g.entry->0, g.top, 0);
        let cur = g.descended(sim, q, g.entry->0, g.top, 0);
        assert(unlinked(g, q, 0));
        lemma_found(g, sim, q, cur, ef, 0);
        let all = g.found(sim, q, cur, ef, 0);
        let r = g.search(sim, k);
        assert(r == top_of(all, k));
        assert forall|i: int, j: int| 0 <= i < j < r.len() implies better(
            #[trigger] r[i],
            #[trigger] r[j],
        ) by {
            assert(better(all[i], all[j]));
        }
        assert forall|i: int| 0 <= i < r.len() implies (#[trigger] r[i]).1 < g.links.len()
            && r[i].0 == sim(q, r[i].1) by {
            assert(r[i] == all[i]);
        }
    }
}

proof fn lemma_trimmed(sim: Nearness, n: u32, list: Seq<u32>, m: nat)
    requires
        list.len() > m,
    ensures
        trimmed(sim, n, list, m).len() == m,
        forall|j: int| 0 <= j < m ==> list.contains(#[trigger] trimmed(sim, n, list, m)[j]),
{
    let s = scores(sim, n, list);
    lemma_ranked(s, (0, 0));
    assert forall|j: int| 0 <= j < m implies list.contains(
        #[trigger] trimmed(sim, n, list, m)[j],
    ) by {
        let x = ranked(s)[j];
        assert(ranked(s).contains(x));
        lemma_ranked(s, x);
        let i = choose|i: int| 0 <= i < s.len() && s[i] == x;
        assert(list[i] == x.1);
    }
}

/// The two graphs have the same points on the same layers, and the same links on
/// all but one layer.
pub open spec fn alike(a: GraphV, b: GraphV, layer: nat) -> bool {
    &&& a.links.len() == b.links.len()
    &&& a.entry == b.entry
    &&& a.top == b.top
    &&& forall|n: u32, l: nat| #[trigger] a.on(n, l) == b.on(n, l)
    &&& forall|n: u32, l: nat| l != layer ==> #[trigger] a.near(n, l) == b.near(n, l)
}

proof fn lemma_relinked(g: GraphV, n: u32, layer: nat, list: Seq<u32>)
    requires
        g.on(n, layer),
    ensures
        alike(g.relinked(n, layer, list), g, layer),
        g.relinked(n, layer, list).near(n, layer) == list,
        forall|k: u32, l: nat|
            k != n ==> #[trigger] g.relinked(n, layer, list).near(k, l) == g.near(k, l),
{
}

proof fn lemma_linked(g: GraphV, sim: Nearness, id: u32, layer: nat, n: u32)
    requires
        g.sound(),
        g.on(id, layer),
        g.on(n, layer),
        n != id,
        g.near(id, layer).len() < most_links(layer),
    ensures
        ({
            let r = g.linked(sim, id, layer, most_links(layer), n);
            &&& r.sound()
            &&& alike(r, g, layer)
            &&& r.near(id, layer) == g.near(id, layer).push(n)
        }),
{
    let m = most_links(layer);
    let mine = g.near(id, layer).push(n);
    let g1 = g.relinked(id, layer, mine);
    lemma_relinked(g, id, layer, mine);
    let list = g1.near(n, layer).push(id);
    assert(g1.on(n, layer));
    let cut = if list.len() > m {
        trimmed(sim, n, list, m)
    } else {
        list
    };
    let r = g1.relinked(n, layer, cut);
    lemma_relinked(g1, n, layer, cut);
    if list.len() > m {
        lemma_trimmed(sim, n, list, m);
    }
    assert(r == g.linked(sim, id, layer, m, n));
    assert forall|k: u32, l: nat, j: int| 0 <= j < r.near(k, l).len() implies r.on(
        #[trigger] r.near(k, l)[j],
        l,
    ) by {
        if l == layer && k == n {
            assert(list.contains(cut[j]));
            let i = choose|i: int| 0 <= i < list.len() && list[i] == cut[j];
            if i < g.near(n, layer).len() {
                assert(g.on(g.near(n, layer)[i], layer));
            }
        } else if l == layer && k == id {
            assert(r.near(k, l) == mine);
            if j < g.near(id, layer).len() {
                assert(g.on(g.near(id, layer)[j], layer));
            }
        } else {
            assert(r.near(k, l) == g.near(k, l));
            assert(g.on(g.near(k, l)[j], l));
        }
    }
    assert forall|k: u32, l: nat| (#[trigger] r.near(k, l)).len() <= most_links(l) by {
        if l == layer && k == n {
        } else if l == layer && k == id {
        } else {
            assert(r.near(k, l) == g.near(k, l));
        }
    }
}

proof fn lemma_linked_all(g: GraphV, sim: Nearness, id: u32, layer: nat, ns: Seq<Scored>)
    requires
        g.sound(),
        g.on(id, layer),
        g.near(id, layer).len() == 0,
        ns.len() <= most_links(layer),
        forall|i: int| 0 <= i < ns.len() ==> g.on((#[trigger] ns[i]).1, layer) && ns[i].1 != id,
    ensures
        ({
            let r = g.linked_all(sim, id, layer, most_links(layer), ns);
            &&& r.sound()
            &&& alike(r, g, layer)
            &&& r.near(id, layer) == ids_of(ns)
        }),
    decreases ns.len(),
{
    if ns.len() == 0 {
        assert(ids_of(ns) =~= g.near(id, layer));
    } else {
        let part = ns.drop_last();
        lemma_linked_all(g, sim, id, layer, part);
        let r = g.linked_all(sim, id, layer, most_links(layer), part);
        assert(g.on(ns[ns.len() - 1].1, layer));
        assert(r.on(id, layer));
        assert(r.on(ns.last().1, layer));
        lemma_linked(r, sim, id, layer, ns.last().1);
        assert(ids_of(ns) =~= ids_of(part).push(ns.last().1));
    }
}

/// A point that is about to be linked: it has no links on the layers up to this
/// one, and none leads to it there.
pub open spec fn fresh(g: GraphV, id: u32, layer: nat) -> bool {
    &&& g.sound()
    &&& g.on(id, layer)
    &&& forall|l: nat| l <= layer ==> #[trigger] unlinked(g, id, l)
    &&& forall|l: nat| l <= layer ==> (#[trigger] g.near(id, l)).len() == 0
}

proof fn lemma_link_layer(g: GraphV, sim: Nearness, id: u32, cur: u32, layer: nat)
    requires
        fresh(g, id, layer),
        g.on(cur, layer),
        cur != id,
    ensures
        ({
            let ns = g.found(sim, id, cur, 64, layer);
            let m = most_links(layer);
            let r = g.linked_all(sim, id, layer, m, top_of(ns, m));
            &&& ns.len() > 0
            &&& true_scores(g, sim, id, layer, ns)
            &&& r.sound()
            &&& alike(r, g, layer)
            &&& r.near(id, layer) == ids_of(top_of(ns, m))
            &&& g.on(ns[0].1, layer)
            &&& ns[0].1 != id
            &&& layer > 0 ==> fresh(r, id, (layer - 1) as nat) && r.on(
                ns[0].1,
                (layer - 1) as nat,
            )
        }),
{
    assert(unlinked(g, id, layer));
    lemma_found(g, sim, id, cur, 64, layer);
    let ns = g.found(sim, id, cur, 64, layer);
    let m = most_links(layer);
    let some = top_of(ns, m);
    assert forall|i: int| 0 <= i < some.len() implies g.on((#[trigger] some[i]).1, layer)
        && some[i].1 != id by {
        assert(some[i] == ns[i]);
    }
    assert(g.near(id, layer).len() == 0);
    lemma_linked_all(g, sim, id, layer, some);
    let r = g.linked_all(sim, id, layer, m, some);
    assert(g.on(ns[0].1, layer));
    if layer > 0 {
        let low = (layer - 1) as nat;
        assert(g.on(id, low));
        assert(r.on(id, low));
        assert(g.on(ns[0].1, low));
        assert(r.on(ns[0].1, low));
        assert forall|l: nat| l <= low implies #[trigger] unlinked(r, id, l) by {
            assert(unlinked(g, id, l));
            assert forall|n: u32, j: int| 0 <= j < r.near(n, l).len() implies #[trigger] r.near(
                n,
                l,
            )[j] != id by {
                assert(r.near(n, l) == g.near(n, l));
                assert(g.near(n, l)[j] != id);
            }
        }
        assert forall|l: nat| l <= low implies (#[trigger] r.near(id, l)).len() == 0 by {
            assert(r.near(id, l) == g.near(id, l));
        }
    }
}

proof fn lemma_linked_down(g: GraphV, sim: Nearness, id: u32, cur: u32, layer: nat)
    requires
        fresh(g, id, layer),
        g.on(cur, layer),
        cur != id,
    ensures
        ({
            let r = g.linked_down(sim, id, cur, layer);
            &&& r.sound()
            &&& r.links.len() == g.links.len()
            &&& r.entry == g.entry
            &&& r.top == g.top
            &&& forall|n: u32, l: nat| #[trigger] r.on(n, l) == g.on(n, l)
            &&& r.near(id, 0).len() > 0
        }),
    decreases layer,
{
    lemma_link_layer(g, sim, id, cur, layer);
    let ns = g.found(sim, id, cur, 64, layer);
    let m = most_links(layer);
    let r = g.linked_all(sim, id, layer, m, top_of(ns, m));
    if layer > 0 {
        lemma_linked_down(r, sim, id, ns[0].1, (layer - 1) as nat);
    }
}

proof fn lemma_grown(g: GraphV, level: nat)
    requires
        g.wf(),
        g.links.len() < u32::MAX,
    ensures
        g.grown(level).sound(),
        g.grown(level).on(g.links.len() as u32, level),
        forall|l: nat| #[trigger] unlinked(g.grown(level), g.links.len() as u32, l),
        forall|l: nat| (#[trigger] g.grown(level).near(g.links.len() as u32, l)).len() == 0,
        forall|n: u32, l: nat| g.on(n, l) ==> #[trigger] g.grown(level).on(n, l),
{
    let id = g.links.len() as u32;
    let r = g.grown(level);
    assert forall|n: u32, l: nat, j: int| 0 <= j < r.near(n, l).len() implies r.on(
        #[trigger] r.near(n, l)[j],
        l,
    ) && r.near(n, l)[j] != id by {
        if n == id {
            assert(r.near(n, l).len() == 0);
        } else {
            assert(r.near(n, l) == g.near(n, l));
            assert(g.on(g.near(n, l)[j], l));
        }
    }
    assert forall|n: u32, l: nat| (#[trigger] r.near(n, l)).len() <= most_links(l) by {
        if n != id {
            assert(r.near(n, l) == g.near(n, l));
        }
    }
    assert forall|l: nat| #[trigger] unlinked(r, id, l) by {
        assert forall|n: u32, j: int| 0 <= j < r.near(n, l).len() implies #[trigger] r.near(
            n,
            l,
        )[j] != id by {}
    }
}

/// Adding a point keeps the graph well-formed: each link leads to a point on its
/// layer, no point has more links than it may, and the entry is on the highest
/// layer. Every point but the first has a link on the lowest layer when it is
/// added.
pub proof fn lemma_inserted(g: GraphV, sim: Nearness, level: nat)
    requires
        g.wf(),
        g.links.len() < u32::MAX,
    ensures
        g.inserted(sim, level).wf(),
        g.inserted(sim, level).links.len() == g.links.len() + 1,
        g.links.len() > 0 ==> g.inserted(sim, level).near(g.links.len() as u32, 0).len() > 0,
{
    let id = g.links.len() as u32;
    let r = g.grown(level);
    lemma_grown(g, level);
    match g.entry {
        None => {
            let out = g.inserted(sim, level);
            assert forall|n: u32, l: nat, j: int| 0 <= j < out.near(n, l).len() implies out.on(
                #[trigger] out.near(n, l)[j],
                l,
            ) by {
                assert(out.near(n, l) == r.near(n, l));
                assert(r.on(r.near(n, l)[j], l));
            }
            assert forall|n: u32, l: nat| (#[trigger] out.near(n, l)).len() <= most_links(l) by {
                assert(out.near(n, l) == r.near(n, l));
            }
            assert(r.on(id, level));
        },
        Some(e) => {
            assert(g.on(e, g.top));
            assert(r.on(e, g.top));
            lemma_descended(r, sim, id, e, g.top, level);
            let cur = r.descended(sim, id, e, g.top, level);
            let layer = if level < g.top {
                level
            } else {
                g.top
            };
            assert(r.on(id, layer));
            assert(fresh(r, id, layer));
            lemma_linked_down(r, sim, id, cur, layer);
            let done = r.linked_down(sim, id, cur, layer);
            let out = g.inserted(sim, level);
            assert(done.on(e, g.top));
            assert(done.on(id, level));
            if level > g.top {
                assert forall|n: u32, l: nat, j: int| 0 <= j < out.near(n, l).len() implies out.on(
                    #[trigger] out.near(n, l)[j],
                    l,
                ) by {
                    assert(out.near(n, l) == done.near(n, l));
                    assert(done.on(done.near(n, l)[j], l));
                }
                assert forall|n: u32, l: nat| (#[trigger] out.near(n, l)).len() <= most_links(
                    l,
                ) by {
                    assert(out.near(n, l) == done.near(n, l));
                }
                assert(out.near(id, 0) == done.near(id, 0));
            }
        },
    }
}

/// The state of an index: its graph and its source of random numbers.
#[verifier::ext_equal]
pub struct HnswV {
    pub graph: GraphV,
    pub rng: u64,
}

impl HnswV {
    pub open spec fn new(seed: u64) -> HnswV {
        HnswV { graph: GraphV::empty(), rng: seeded(seed) }
    }

    /// The state after the next point was added.
    pub open spec fn insert(self, sim: Nearness) -> HnswV {
        let rng = next_state(self.rng);
        HnswV { graph: self.graph.inserted(sim, level_of(draw(rng), 0)), rng }
    }

    /// The state after so many points were added to an empty index.
    pub open spec fn built(seed: u64, sim: Nearness, n: nat) -> HnswV
        decreases n,
    {
        if n == 0 {
            HnswV::new(seed)
        } else {
            HnswV::built(seed, sim, (n - 1) as nat).insert(sim)
        }
    }
}

/// An index of points by nearness.
#[derive(Debug)]
pub struct Hnsw {
    links: Vec<Vec<Vec<u32>>>,
    entry: Option<u32>,
    max_level: usize,
    rng: DetRng,
}

/// The links of a point on each layer.
pub open spec fn layers_of(v: Seq<Vec<u32>>) -> Seq<Seq<u32>> {
    Seq::new(v.len(), |i: int| v[i]@)
}

/// The links of all points.
pub open spec fn links_of(v: Seq<Vec<Vec<u32>>>) -> Seq<Seq<Seq<u32>>> {
    Seq::new(v.len(), |i: int| layers_of(v[i]@))
}

impl View for Hnsw {
    type V = HnswV;

    closed spec fn view(&self) -> HnswV {
        HnswV {
            graph: GraphV {
                links: links_of(self.links@),
                entry: self.entry,
                top: self.max_level as nat,
            },
            rng: self.rng@,
        }
    }
}

impl Hnsw {
    pub fn new(seed: u64) -> (r: Self)
        ensures
            r@ == HnswV::new(seed),
    {
        let r = Hnsw { links: Vec::new(), entry: None, max_level: 0, rng: DetRng::new(seed) };
        assert(r@.graph.links =~= Seq::empty());
        r
    }

    pub fn len(&self) -> (r: usize)
        ensures
            r == self@.graph.links.len(),
    {
        self.links.len()
    }

    pub fn is_empty(&self) -> (r: bool)
        ensures
            r == (self@.graph.links.len() == 0),
    {
        self.links.len() == 0
    }

    fn random_level(&mut self) -> (r: usize)
        ensures
            final(self)@ == (HnswV { rng: next_state(old(self)@.rng), ..old(self)@ }),
            r == level_of(draw(next_state(old(self)@.rng)), 0),
            r <= 16,
    {
        let mut v: u64 = self.rng.next_u64();
        let ghost all = v;
        let mut level: usize = 0;
        while v % 4 == 0 && level < 16
            invariant
                level <= 16,
                level_of(all, 0) == level_of(v, level as nat),
            decreases 16 - level,
        {
            level += 1;
            v = v / 4;
        }
        level
    }

    fn greedy_closest<F: Fn(u32, u32) -> u64>(
        &self,
        sim: &F,
        q: u32,
        start: u32,
        layer: usize,
    ) -> (r: u32)
        requires
            self@.graph.sound(),
            unlinked(self@.graph, q, layer as nat),
            self@.graph.on(start, layer as nat),
            start != q,
            self@.graph.links.len() <= q + 1,
            measures(*sim, q as nat),
        ensures
            r == self@.graph.closest(nearness(*sim), q, start, layer as nat),
    {
        let ghost g = self@.graph;
        let ghost s = nearness(*sim);
        let ghost l = layer as nat;
        let mut cur: u32 = start;
        let mut cur_sim: u64 = sim(q, cur);
        loop
            invariant
                g == self@.graph,
                s == nearness(*sim),
                l == layer,
                g.sound(),
                unlinked(g, q, l),
                g.links.len() <= q + 1,
                measures(*sim, q as nat),
                g.on(cur, l),
                cur != q,
                cur_sim == s(q, cur),
                g.closest(s, q, cur, l) == g.closest(s, q, start, l),
            ensures
                cur == g.closest(s, q, start, l),
            decreases u64::MAX - cur_sim,
        {
            let list = &self.links[cur as usize][layer];
            let ghost near = g.near(cur, l);
            assert(list@ == near);
            let mut next: u32 = cur;
            let mut next_sim: u64 = cur_sim;
            let mut i: usize = 0;
            while i < list.len()
                invariant
                    i <= list@.len(),
                    list@ == near,
                    near == g.near(cur, l),
                    s == nearness(*sim),
                    measures(*sim, q as nat),
                    g.sound(),
                    g.links.len() <= q + 1,
                    next == nearest_in(s, q, near.take(i as int), cur),
                    next_sim == s(q, next),
                decreases list.len() - i,
            {
                let n: u32 = list[i];
                assert(g.on(near[i as int], l));
                let sn: u64 = sim(q, n);
                assert(near.take(i + 1).drop_last() =~= near.take(i as int));
                if sn > next_sim {
                    next = n;
                    next_sim = sn;
                }
                i += 1;
            }
            assert(near.take(near.len() as int) =~= near);
            proof {
                assert forall|j: int| 0 <= j < near.len() implies g.on(#[trigger] near[j], l)
                    && near[j] != q by {
                    assert(g.near(cur, l)[j] != q);
                }
                lemma_nearest_in(g, s, q, l, near, cur);
            }
            if next_sim <= cur_sim {
                break;
            }
            cur = next;
            cur_sim = next_sim;
        }
        cur
    }

    fn descend<F: Fn(u32, u32) -> u64>(&self, sim: &F, q: u32, start: u32, to: usize) -> (r: u32)
        requires
            self@.graph.sound(),
            forall|l: nat| #[trigger] unlinked(self@.graph, q, l),
            self@.graph.on(start, self@.graph.top),
            start != q,
            self@.graph.links.len() <= q + 1,
            measures(*sim, q as nat),
        ensures
            r == self@.graph.descended(nearness(*sim), q, start, self@.graph.top, to as nat),
    {
        let ghost g = self@.graph;
        let ghost s = nearness(*sim);
        let mut cur: u32 = start;
        let mut layer: usize = self.max_level;
        while layer > to
            invariant
                g == self@.graph,
                s == nearness(*sim),
                g.sound(),
                forall|l: nat| #[trigger] unlinked(g, q, l),
                g.links.len() <= q + 1,
                measures(*sim, q as nat),
                g.on(cur, layer as nat),
                cur != q,
                g.descended(s, q, cur, layer as nat, to as nat) == g.descended(
                    s,
                    q,
                    start,
                    g.top,
                    to as nat,
                ),
            decreases layer,
        {
            assert(unlinked(g, q, layer as nat));
            proof {
                lemma_closest(g, s, q, cur, layer as nat);
            }
            cur = self.greedy_closest(sim, q, cur, layer);
            layer -= 1;
        }
        cur
    }

    fn search_layer<F: Fn(u32, u32) -> u64>(
        &self,
        sim: &F,
        q: u32,
        start: u32,
        ef: usize,
        layer: usize,
    ) -> (r: Vec<Scored>)
        requires
            self@.graph.sound(),
            unlinked(self@.graph, q, layer as nat),
            self@.graph.on(start, layer as nat),
            start != q,
            ef >= 1,
            self@.graph.links.len() <= q + 1,
            measures(*sim, q as nat),
        ensures
            r@ == self@.graph.found(nearness(*sim), q, start, ef as nat, layer as nat),
    {
        let ghost g = self@.graph;
        let ghost s = nearness(*sim);
        let ghost l = layer as nat;
        let first: u64 = sim(q, start);
        let mut open: Vec<Scored> = vec![(first, start)];
        let mut kept: Vec<Scored> = vec![(first, start)];
        let mut met: Vec<bool> = no_flags(self.links.len());
        met.set(start as usize, true);
        let ghost st = g.started(s, q, start);
        proof {
            assert(open@ =~= st.open);
            assert(kept@ =~= st.kept);
            assert(met@ =~= st.met);
            lemma_started(g, s, q, start, ef as nat, l);
        }
        loop
            invariant
                g == self@.graph,
                s == nearness(*sim),
                l == layer,
                g.sound(),
                unlinked(g, q, l),
                g.links.len() <= q + 1,
                measures(*sim, q as nat),
                st == (Front { open: open@, kept: kept@, met: met@ }),
                searching(g, s, q, ef as nat, l, st),
                g.explored(s, q, ef as nat, l, st) == g.found(s, q, start, ef as nat, l),
            ensures
                kept@ == g.found(s, q, start, ef as nat, l),
            decreases st.left(),
        {
            if open.len() == 0 {
                break;
            }
            if kept.len() >= ef && open[0].0 < kept[kept.len() - 1].0 {
                break;
            }
            proof {
                lemma_taken(g, s, q, ef as nat, l, st);
            }
            let node: u32 = open.remove(0).1;
            let ghost before = st;
            let ghost taken = st.taken();
            assert(open@ =~= taken.open);
            let list = &self.links[node as usize][layer];
            let ghost near = g.near(node, l);
            assert(list@ == near);
            let mut i: usize = 0;
            proof {
                st = taken;
                assert(near.take(0) =~= Seq::empty());
            }
            while i < list.len()
                invariant
                    i <= list@.len(),
                    list@ == near,
                    near == g.near(node, l),
                    s == nearness(*sim),
                    measures(*sim, q as nat),
                    g.sound(),
                    unlinked(g, q, l),
                    g.links.len() <= q + 1,
                    ef >= 1,
                    st == (Front { open: open@, kept: kept@, met: met@ }),
                    searching(g, s, q, ef as nat, l, st),
                    st == taken.meet_all(s, q, ef as nat, near.take(i as int)),
                decreases list.len() - i,
            {
                let n: u32 = list[i];
                assert(g.on(g.near(node, l)[i as int], l));
                assert(g.near(node, l)[i as int] != q);
                proof {
                    lemma_meet(g, s, q, ef as nat, l, st, n);
                    assert(near.take(i + 1).drop_last() =~= near.take(i as int));
                    st = st.meet(s, q, ef as nat, n);
                }
                if !met[n as usize] {
                    met.set(n as usize, true);
                    let sn: u64 = sim(q, n);
                    if kept.len() < ef || sn > kept[kept.len() - 1].0 {
                        place(&mut open, (sn, n));
                        place(&mut kept, (sn, n));
                        if kept.len() > ef {
                            kept.truncate(ef);
                        }
                    }
                }
                i += 1;
            }
            proof {
                assert(near.take(near.len() as int) =~= near);
                lemma_meet_all_left(taken, s, q, ef as nat, near);
            }
        }
        kept
    }

    /// The best `k` points for the one that comes next, the best first.
    pub fn search<F: Fn(u32, u32) -> u64>(&self, sim: &F, k: usize) -> (r: Vec<Scored>)
        requires
            self@.graph.wf(),
            measures(*sim, self@.graph.links.len()),
        ensures
            r@ == self@.graph.search(nearness(*sim), k as nat),
    {
        let ghost g = self@.graph;
        let ghost s = nearness(*sim);
        match self.entry {
            None => Vec::new(),
            Some(e) => {
                let q: u32 = self.links.len() as u32;
                proof {
                    lemma_next_unlinked(g, q);
                    lemma_descended(g, s, q, e, g.top, 0);
                }
                let cur: u32 = self.descend(sim, q, e, 0);
                let ef: usize = if k > HNSW_EF_SEARCH {
                    k
                } else {
                    HNSW_EF_SEARCH
                };
                assert(unlinked(g, q, 0));
                let mut out = self.search_layer(sim, q, cur, ef, 0);
                if out.len() > k {
                    out.truncate(k);
                }
                out
            },
        }
    }

    fn link<F: Fn(u32, u32) -> u64>(&mut self, sim: &F, id: u32, layer: usize, m: usize, n: u32)
        requires
            old(self)@.graph.sound(),
            old(self)@.graph.on(id, layer as nat),
            old(self)@.graph.on(n, layer as nat),
            n != id,
            m == most_links(layer as nat),
            old(self)@.graph.near(id, layer as nat).len() < m,
            old(self)@.graph.links.len() <= id + 1,
            measures(*sim, id as nat),
        ensures
            final(self)@ == (HnswV {
                graph: old(self)@.graph.linked(nearness(*sim), id, layer as nat, m as nat, n),
                ..old(self)@
            }),
    {
        let ghost g = self@.graph;
        let ghost l = layer as nat;
        let ghost s = nearness(*sim);
        proof {
            lemma_linked(g, s, id, l, n);
        }
        let ghost mine = g.near(id, l).push(n);
        self.links[id as usize][layer].push(n);
        let ghost g1 = g.relinked(id, l, mine);
        assert(self@.graph.links =~= g1.links) by {
            assert(self@.graph.links[id as int] =~= g1.links[id as int]);
        }
        self.links[n as usize][layer].push(id);
        let ghost list = g1.near(n, l).push(id);
        let ghost g2 = g1.relinked(n, l, list);
        assert(self@.graph.links =~= g2.links) by {
            assert(self@.graph.links[n as int] =~= g2.links[n as int]);
        }
        assert(self.links@[n as int]@[layer as int]@ == list);
        let size: usize = self.links[n as usize][layer].len();
        if size > m {
            proof {
                lemma_relinked(g, id, l, mine);
                assert forall|j: int| 0 <= j < list.len() implies #[trigger] list[j] <= id by {
                    if j < g.near(n, l).len() {
                        assert(g1.near(n, l) == g.near(n, l));
                        assert(g.on(g.near(n, l)[j], l));
                    }
                }
            }
            let cut = nearest_of(sim, n, &self.links[n as usize][layer], m, Ghost(id as nat));
            self.links[n as usize].set(layer, cut);
            let ghost g3 = g1.relinked(n, l, cut@);
            assert(self@.graph.links =~= g3.links) by {
                assert(self@.graph.links[n as int] =~= g3.links[n as int]);
            }
        }
    }

    /// Adds the next point, and gives its id.
    pub fn insert<F: Fn(u32, u32) -> u64>(&mut self, sim: &F) -> (r: u32)
        requires
            old(self)@.graph.wf(),
            old(self)@.graph.links.len() < u32::MAX,
            measures(*sim, old(self)@.graph.links.len()),
        ensures
            final(self)@ == old(self)@.insert(nearness(*sim)),
            final(self)@.graph.wf(),
            final(self)@.graph.links.len() == old(self)@.graph.links.len() + 1,
            r == old(self)@.graph.links.len(),
    {
        let ghost g0 = self@.graph;
        let ghost s = nearness(*sim);
        let id: u32 = self.links.len() as u32;
        let level: usize = self.random_level();
        let ghost rng = self@.rng;
        assert(self@.graph == g0);
        proof {
            lemma_grown(g0, level as nat);
            lemma_inserted(g0, s, level as nat);
        }
        let layers = no_links(level + 1);
        self.links.push(layers);
        let ghost grown = g0.grown(level as nat);
        assert(self@.graph.links =~= grown.links);
        let start: u32 = match self.entry {
            None => {
                self.entry = Some(id);
                self.max_level = level;
                return id;
            },
            Some(e) => e,
        };
        proof {
            assert(g0.on(start, g0.top));
            assert(grown.on(start, g0.top));
            lemma_descended(grown, s, id, start, g0.top, level as nat);
        }
        let mut cur: u32 = self.descend(sim, id, start, level);
        let top: usize = self.max_level;
        let mut layer: usize = if level < top {
            level
        } else {
            top
        };
        let ghost whole = grown.linked_down(s, id, cur, layer as nat);
        assert(grown.on(id, layer as nat));
        assert(fresh(grown, id, layer as nat));
        proof {
            lemma_linked_down(grown, s, id, cur, layer as nat);
        }
        loop
            invariant_except_break
                self@.rng == rng,
                self@.graph.links.len() == id + 1,
                fresh(self@.graph, id, layer as nat),
                self@.graph.on(cur, layer as nat),
                cur != id,
                self@.graph.linked_down(s, id, cur, layer as nat) == whole,
            invariant
                s == nearness(*sim),
                measures(*sim, id as nat),
            ensures
                self@ == (HnswV { graph: whole, rng }),
            decreases layer,
        {
            let ghost g = self@.graph;
            let ghost l = layer as nat;
            assert(unlinked(g, id, l));
            proof {
                lemma_link_layer(g, s, id, cur, l);
            }
            let found = self.search_layer(sim, id, cur, HNSW_EF_CONSTRUCTION, layer);
            let m: usize = if layer == 0 {
                HNSW_M0
            } else {
                HNSW_M
            };
            let count: usize = if found.len() < m {
                found.len()
            } else {
                m
            };
            let ghost some = top_of(found@, m as nat);
            assert(some =~= found@.take(count as int));
            let mut i: usize = 0;
            assert(some.take(0) =~= Seq::empty());
            while i < count
                invariant
                    i <= count == some.len() <= found@.len(),
                    some == found@.take(count as int),
                    count <= m,
                    m == most_links(l),
                    l == layer,
                    g.sound(),
                    g.on(id, l),
                    g.near(id, l).len() == 0,
                    g.links.len() == id + 1,
                    s == nearness(*sim),
                    measures(*sim, id as nat),
                    true_scores(g, s, id, l, found@),
                    self@ == (HnswV {
                        graph: g.linked_all(s, id, l, m as nat, some.take(i as int)),
                        rng,
                    }),
                decreases count - i,
            {
                let n: u32 = found[i].1;
                let ghost part = some.take(i as int);
                proof {
                    assert forall|j: int| 0 <= j < part.len() implies g.on(
                        (#[trigger] part[j]).1,
                        l,
                    ) && part[j].1 != id by {
                        assert(part[j] == found@[j]);
                    }
                    lemma_linked_all(g, s, id, l, part);
                    assert(g.on(found@[i as int].1, l));
                    assert(self@.graph.on(id, l));
                    assert(self@.graph.on(n, l));
                    assert(some.take(i + 1).drop_last() =~= part);
                    assert(some.take(i + 1).last() == found@[i as int]);
                }
                self.link(sim, id, layer, m, n);
                i += 1;
            }
            assert(some.take(some.len() as int) =~= some);
            cur = found[0].1;
            if layer == 0 {
                break;
            }
            layer -= 1;
        }
        assert(self.max_level == g0.top);
        if level > self.max_level {
            self.max_level = level;
            self.entry = Some(id);
        }
        assert(self@ =~= old(self)@.insert(s));
        id
    }
}

fn no_flags(n: usize) -> (r: Vec<bool>)
    ensures
        r@ == Seq::new(n as nat, |i: int| false),
{
    let mut out: Vec<bool> = Vec::new();
    let mut i: usize = 0;
    while i < n
        invariant
            i <= n,
            out@ == Seq::new(i as nat, |j: int| false),
        decreases n - i,
    {
        out.push(false);
        i += 1;
        assert(out@ =~= Seq::new(i as nat, |j: int| false));
    }
    out
}

fn no_links(n: usize) -> (r: Vec<Vec<u32>>)
    ensures
        layers_of(r@) == Seq::new(n as nat, |i: int| Seq::<u32>::empty()),
{
    let mut out: Vec<Vec<u32>> = Vec::new();
    let mut i: usize = 0;
    while i < n
        invariant
            i <= n,
            out@.len() == i,
            forall|j: int| 0 <= j < i ==> (#[trigger] out@[j])@ == Seq::<u32>::empty(),
        decreases n - i,
    {
        out.push(Vec::new());
        i += 1;
    }
    assert(layers_of(out@) =~= Seq::new(n as nat, |i: int| Seq::<u32>::empty()));
    out
}

fn nearest_of<F: Fn(u32, u32) -> u64>(
    sim: &F,
    n: u32,
    list: &Vec<u32>,
    m: usize,
    Ghost(most): Ghost<nat>,
) -> (r: Vec<u32>)
    requires
        measures(*sim, most),
        n <= most,
        forall|j: int| 0 <= j < list@.len() ==> #[trigger] list@[j] <= most,
    ensures
        r@ == trimmed(nearness(*sim), n, list@, m as nat),
{
    let ghost s = nearness(*sim);
    let mut scored: Vec<Scored> = Vec::new();
    let mut i: usize = 0;
    while i < list.len()
        invariant
            i <= list@.len(),
            s == nearness(*sim),
            measures(*sim, most),
            n <= most,
            forall|j: int| 0 <= j < list@.len() ==> #[trigger] list@[j] <= most,
            scored@ == scores(s, n, list@).take(i as int),
        decreases list.len() - i,
    {
        let x: u32 = list[i];
        scored.push((sim(n, x), x));
        i += 1;
        assert(scored@ =~= scores(s, n, list@).take(i as int));
    }
    assert(scored@ =~= scores(s, n, list@));
    let kept = best(&scored, m);
    let mut out: Vec<u32> = Vec::new();
    let mut k: usize = 0;
    while k < kept.len()
        invariant
            k <= kept@.len(),
            out@ == ids_of(kept@).take(k as int),
        decreases kept.len() - k,
    {
        out.push(kept[k].1);
        k += 1;
        assert(out@ =~= ids_of(kept@).take(k as int));
    }
    assert(out@ =~= ids_of(kept@));
    out
}

} // verus!
