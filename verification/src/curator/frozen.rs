//! A picture of the public substrate, as far as an audit needs it.

use vstd::prelude::*;
use crate::cbor::{text_views, Cbor, CborV};
use crate::curator::librarian::{CurationJob, CurationJobV};
use crate::curator::warden::{harvest_handles, harvested, job_view};
use crate::curator::{CuratorPublic, CuratorPublicV, SubstrateView};
use crate::textmap::{TextMap, TextSet};

verus! {

/// The facts of a slot, as handle and object.
pub type FactsV = Seq<(Seq<char>, Seq<char>)>;

/// What is known, what stands in which slot, and the public texts.
#[verifier::ext_equal]
pub struct FrozenV {
    pub handles: Set<Seq<char>>,
    pub active: Map<Seq<char>, Map<Seq<char>, FactsV>>,
    pub texts: Map<Seq<char>, Seq<char>>,
}

impl FrozenV {
    pub open spec fn empty() -> FrozenV {
        FrozenV { handles: Set::empty(), active: Map::empty(), texts: Map::empty() }
    }

    /// The facts of a slot.
    pub open spec fn slot(self, s: Seq<char>, p: Seq<char>) -> FactsV {
        if self.active.contains_key(s) && self.active[s].contains_key(p) {
            self.active[s][p]
        } else {
            Seq::empty()
        }
    }

    /// The picture with a handle.
    pub open spec fn with_handle(self, h: Seq<char>) -> FrozenV {
        FrozenV { handles: self.handles.insert(h), ..self }
    }

    /// The picture with a text.
    pub open spec fn with_text(self, h: Seq<char>, t: Seq<char>) -> FrozenV {
        FrozenV { texts: self.texts.insert(h, t), ..self }
    }

    /// The picture with a slot's facts.
    pub open spec fn with_slot(self, s: Seq<char>, p: Seq<char>, facts: FactsV) -> FrozenV {
        let ps = if self.active.contains_key(s) {
            self.active[s]
        } else {
            Map::empty()
        };
        FrozenV { active: self.active.insert(s, ps.insert(p, facts)), ..self }
    }

    /// The picture with a handle that the view knows, and its text.
    pub open spec fn noted<V: SubstrateView>(self, view: &V, h: Seq<char>) -> FrozenV {
        if view.known(h) {
            match view.text(h) {
                Some(t) => self.with_handle(h).with_text(h, t),
                None => self.with_handle(h),
            }
        } else {
            self
        }
    }

    /// The picture with the first `n` handles.
    pub open spec fn noted_all<V: SubstrateView>(self, view: &V, hs: Seq<Seq<char>>, n: nat) -> FrozenV
        decreases n,
    {
        if n == 0 {
            self
        } else {
            self.noted_all(view, hs, (n - 1) as nat).noted(view, hs[n - 1])
        }
    }

    /// The picture with the first `n` facts of a slot: each with its public text,
    /// or else its object.
    pub open spec fn with_facts<V: SubstrateView>(self, view: &V, facts: FactsV, n: nat) -> FrozenV
        decreases n,
    {
        if n == 0 {
            self
        } else {
            let (h, o) = facts[n - 1];
            self.with_facts(view, facts, (n - 1) as nat).with_handle(h).with_text(
                h,
                match view.text(h) {
                    Some(t) => t,
                    None => o,
                },
            )
        }
    }
}

/// The handles that an audit of an output may ask for.
pub open spec fn references(output: CuratorPublicV, job: Option<CurationJobV>) -> Seq<Seq<char>> {
    let base = output.grounded_in.push(output.target_handle) + harvested(
        CborV::Text(output.body),
    );
    match job {
        Some(j) => base.push(j.written_handle),
        None => base,
    }
}

/// The picture that an audit of an output needs.
pub open spec fn picture<V: SubstrateView>(
    view: &V,
    output: CuratorPublicV,
    job: Option<CurationJobV>,
) -> FrozenV {
    let refs = references(output, job);
    let st = FrozenV::empty().noted_all(view, refs, refs.len());
    match job {
        Some(j) => match (j.subject, j.predicate) {
            (Some(s), Some(p)) => {
                let facts = view.facts(s, p);
                st.with_facts(view, facts, facts.len()).with_slot(s, p, facts)
            },
            _ => st,
        },
        None => st,
    }
}

proof fn lemma_noted<V: SubstrateView>(view: &V, st: FrozenV, hs: Seq<Seq<char>>, n: nat, h: Seq<char>)
    requires
        n <= hs.len(),
    ensures
        ({
            let now = st.noted_all(view, hs, n);
            let among = exists|i: int| 0 <= i < n && #[trigger] hs[i] == h;
            &&& now.handles.contains(h) <==> st.handles.contains(h) || (among && view.known(h))
            &&& among && view.known(h) && view.text(h) is Some ==> now.texts.contains_key(h)
                && Some(now.texts[h]) == view.text(h)
            &&& !(among && view.known(h) && view.text(h) is Some) ==> (now.texts.contains_key(h)
                <==> st.texts.contains_key(h)) && (st.texts.contains_key(h) ==> now.texts[h]
                == st.texts[h])
            &&& now.active == st.active
        }),
    decreases n,
{
    if n > 0 {
        lemma_noted(view, st, hs, (n - 1) as nat, h);
        if exists|i: int| 0 <= i < n - 1 && #[trigger] hs[i] == h {
            let i = choose|i: int| 0 <= i < n - 1 && #[trigger] hs[i] == h;
            assert(hs[i] == h);
        }
    }
}

proof fn lemma_facts_noted<V: SubstrateView>(
    view: &V,
    st: FrozenV,
    facts: FactsV,
    n: nat,
    h: Seq<char>,
)
    requires
        n <= facts.len(),
    ensures
        ({
            let now = st.with_facts(view, facts, n);
            let among = exists|i: int| 0 <= i < n && (#[trigger] facts[i]).0 == h;
            &&& now.handles.contains(h) <==> st.handles.contains(h) || among
            &&& among && view.text(h) is Some ==> now.texts.contains_key(h) && Some(now.texts[h])
                == view.text(h)
            &&& !among ==> (now.texts.contains_key(h) <==> st.texts.contains_key(h)) && (
            st.texts.contains_key(h) ==> now.texts[h] == st.texts[h])
            &&& now.active == st.active
        }),
    decreases n,
{
    if n > 0 {
        lemma_facts_noted(view, st, facts, (n - 1) as nat, h);
        if exists|i: int| 0 <= i < n - 1 && (#[trigger] facts[i]).0 == h {
            let i = choose|i: int| 0 <= i < n - 1 && (#[trigger] facts[i]).0 == h;
            assert(facts[i].0 == h);
        }
    }
}

/// A picture shows of the substrate what an audit asks of it: every handle that the output
/// cites or names is there exactly where the substrate knows it, with the text that it has
/// there, and the slot of the job holds the same facts. (Of a fact of the slot the substrate
/// knows the handle.)
pub proof fn lemma_picture<V: SubstrateView>(
    view: &V,
    output: CuratorPublicV,
    job: Option<CurationJobV>,
    h: Seq<char>,
)
    requires
        output.grounded_in.contains(h) || h == output.target_handle || harvested(
            CborV::Text(output.body),
        ).contains(h),
        match job {
            Some(j) => j.subject is Some && j.predicate is Some ==> forall|i: int|
                0 <= i < view.facts(j.subject->0, j.predicate->0).len() ==> view.known(
                    (#[trigger] view.facts(j.subject->0, j.predicate->0)[i]).0,
                ) && view.text(view.facts(j.subject->0, j.predicate->0)[i].0) is Some,
            None => true,
        },
    ensures
        ({
            let p = picture(view, output, job);
            &&& p.handles.contains(h) <==> view.known(h)
            &&& view.known(h) && view.text(h) is Some ==> p.texts.contains_key(h)
                && Some(p.texts[h]) == view.text(h)
            &&& p.texts.contains_key(h) ==> view.text(h) == Some(p.texts[h])
            &&& match job {
                Some(j) => j.subject is Some && j.predicate is Some ==> p.slot(
                    j.subject->0,
                    j.predicate->0,
                ) == view.facts(j.subject->0, j.predicate->0),
                None => true,
            }
        }),
{
    let refs = references(output, job);
    let named = harvested(CborV::Text(output.body));
    let head = output.grounded_in.push(output.target_handle);
    assert(exists|i: int| 0 <= i < refs.len() && #[trigger] refs[i] == h) by {
        if output.grounded_in.contains(h) {
            let i = output.grounded_in.index_of(h);
            assert(refs[i] == h);
        } else if h == output.target_handle {
            assert(refs[output.grounded_in.len() as int] == h);
        } else {
            let i = named.index_of(h);
            assert(refs[head.len() + i] == h);
        }
    }
    let st = FrozenV::empty().noted_all(view, refs, refs.len());
    lemma_noted(view, FrozenV::empty(), refs, refs.len(), h);
    if let Some(j) = job {
        if let (Some(s), Some(p)) = (j.subject, j.predicate) {
            let facts = view.facts(s, p);
            lemma_facts_noted(view, st, facts, facts.len(), h);
            if exists|i: int| 0 <= i < facts.len() && (#[trigger] facts[i]).0 == h {
                let i = choose|i: int| 0 <= i < facts.len() && (#[trigger] facts[i]).0 == h;
                assert(view.known(facts[i].0));
            }
        }
    }
}

/// A picture of the public substrate.
#[derive(Debug)]
pub struct FrozenPublicView {
    handles: TextSet,
    active: TextMap<TextMap<Vec<(String, String)>>>,
    texts: TextMap<String>,
}

impl View for FrozenPublicView {
    type V = FrozenV;

    closed spec fn view(&self) -> FrozenV {
        FrozenV { handles: self.handles@, active: self.active@, texts: self.texts@ }
    }
}

fn dup_facts(v: &Vec<(String, String)>) -> (r: Vec<(String, String)>)
    ensures
        r.deep_view() == v.deep_view(),
{
    let mut out: Vec<(String, String)> = Vec::new();
    let mut i: usize = 0;
    assert(out.deep_view() =~= v.deep_view().take(0));
    while i < v.len()
        invariant
            i <= v@.len(),
            out.deep_view() == v.deep_view().take(i as int),
        decreases v.len() - i,
    {
        let ghost before = out.deep_view();
        let f = (v[i].0.as_str().to_string(), v[i].1.as_str().to_string());
        out.push(f);
        assert(out.deep_view() =~= before.push((f.0@, f.1@)));
        assert(v.deep_view()[i as int] == (v@[i as int].0@, v@[i as int].1@));
        i += 1;
        assert(v.deep_view().take(i as int) =~= v.deep_view().take(i - 1).push(
            v.deep_view()[i - 1],
        ));
    }
    assert(v.deep_view().take(i as int) =~= v.deep_view());
    out
}

impl SubstrateView for FrozenPublicView {
    open spec fn known(&self, handle: Seq<char>) -> bool {
        self@.handles.contains(handle)
    }

    open spec fn facts(&self, subject: Seq<char>, predicate: Seq<char>) -> Seq<
        (Seq<char>, Seq<char>),
    > {
        self@.slot(subject, predicate)
    }

    open spec fn text(&self, handle: Seq<char>) -> Option<Seq<char>> {
        if self@.texts.contains_key(handle) {
            Some(self@.texts[handle])
        } else {
            None
        }
    }

    fn handle_exists(&self, handle: &str) -> (r: bool) {
        self.handles.contains(handle)
    }

    fn active_sp(&self, subject: &str, predicate: &str) -> (r: Vec<(String, String)>) {
        let none: Vec<(String, String)> = Vec::new();
        assert(none.deep_view() =~= Seq::empty());
        match self.active.get(subject) {
            Some(ps) => match ps.get(predicate) {
                Some(f) => dup_facts(f),
                None => none,
            },
            None => none,
        }
    }

    fn public_text(&self, handle: &str) -> (r: Option<String>) {
        match self.texts.get(handle) {
            Some(t) => Some(t.as_str().to_string()),
            None => None,
        }
    }
}

impl FrozenPublicView {
    pub fn new() -> (r: Self)
        ensures
            r@ == FrozenV::empty(),
    {
        let r = FrozenPublicView {
            handles: TextSet::new(),
            active: TextMap::new(),
            texts: TextMap::new(),
        };
        assert(r@ =~= FrozenV::empty());
        r
    }

    /// Adds a handle.
    pub fn add_handle(&mut self, h: &str)
        ensures
            final(self)@ == old(self)@.with_handle(h@),
    {
        self.handles.insert(h);
    }

    /// Adds the text of a handle.
    pub fn add_text(&mut self, h: &str, t: &str)
        ensures
            final(self)@ == old(self)@.with_text(h@, t@),
    {
        self.texts.insert(h.to_string(), t.to_string());
    }

    /// Sets the facts of a slot.
    pub fn set_slot(&mut self, s: &str, p: &str, facts: Vec<(String, String)>)
        ensures
            final(self)@ == old(self)@.with_slot(s@, p@, facts.deep_view()),
    {
        let ghost was = self@;
        let mut ps = match self.active.remove(s) {
            Some(m) => m,
            None => TextMap::new(),
        };
        ps.insert(p.to_string(), facts);
        self.active.insert(s.to_string(), ps);
        assert(self@.active =~= was.with_slot(s@, p@, facts.deep_view()).active);
    }

    /// Adds a fact: its handle, its slot, and its object as the handle's text.
    pub fn add_fact(&mut self, h: &str, s: &str, p: &str, o: &str)
        ensures
            final(self)@ == old(self)@.with_handle(h@).with_slot(
                s@,
                p@,
                old(self)@.slot(s@, p@).push((h@, o@)),
            ).with_text(h@, o@),
    {
        let mut facts = self.active_sp(s, p);
        let ghost before = facts.deep_view();
        let f = (h.to_string(), o.to_string());
        facts.push(f);
        assert(facts.deep_view() =~= before.push((h@, o@)));
        self.add_handle(h);
        self.set_slot(s, p, facts);
        self.add_text(h, o);
    }

    fn note<V: SubstrateView>(&mut self, view: &V, h: &str)
        ensures
            final(self)@ == old(self)@.noted(view, h@),
    {
        if view.handle_exists(h) {
            self.add_handle(h);
            if let Some(t) = view.public_text(h) {
                self.add_text(h, t.as_str());
            }
        }
    }

    fn note_all<V: SubstrateView>(&mut self, view: &V, hs: &Vec<String>)
        ensures
            final(self)@ == old(self)@.noted_all(view, text_views(hs@), hs@.len()),
    {
        let ghost first = self@;
        let ghost all = text_views(hs@);
        let mut i: usize = 0;
        while i < hs.len()
            invariant
                i <= hs@.len(),
                all == text_views(hs@),
                self@ == first.noted_all(view, all, i as nat),
            decreases hs.len() - i,
        {
            assert(all[i as int] == hs@[i as int]@);
            self.note(view, hs[i].as_str());
            i += 1;
        }
    }

    /// The picture that an audit of an output needs.
    pub fn capture<V: SubstrateView>(
        view: &V,
        output: &CuratorPublic,
        job: Option<&CurationJob>,
    ) -> (r: FrozenPublicView)
        ensures
            r@ == picture(view, output.deep_view(), job_view(job)),
    {
        let mut refs: Vec<String> = crate::cbor::dup_texts(&output.grounded_in);
        refs.push(output.target_handle.as_str().to_string());
        let more = harvest_handles(&Cbor::t(output.body.as_str()));
        let ghost head = text_views(refs@);
        assert(head =~= output.deep_view().grounded_in.push(output.target_handle@));
        let ghost tail = text_views(more@);
        let mut i: usize = 0;
        assert(text_views(refs@) =~= head + tail.take(0));
        while i < more.len()
            invariant
                i <= more@.len(),
                tail == text_views(more@),
                text_views(refs@) == head + tail.take(i as int),
            decreases more.len() - i,
        {
            let ghost before = text_views(refs@);
            let h = more[i].as_str().to_string();
            refs.push(h);
            assert(text_views(refs@) =~= before.push(h@));
            i += 1;
            assert(tail.take(i as int) =~= tail.take(i - 1).push(tail[i - 1]));
            assert(text_views(refs@) =~= head + tail.take(i as int));
        }
        assert(tail.take(i as int) =~= tail);
        if let Some(j) = job {
            let ghost before = text_views(refs@);
            let h = j.written_handle.as_str().to_string();
            refs.push(h);
            assert(text_views(refs@) =~= before.push(h@));
        }
        assert(text_views(refs@) =~= references(output.deep_view(), job_view(job)));
        let mut frozen = FrozenPublicView::new();
        frozen.note_all(view, &refs);
        if let Some(j) = job {
            if let (Some(s), Some(p)) = (&j.subject, &j.predicate) {
                let facts = view.active_sp(s.as_str(), p.as_str());
                let ghost all = facts.deep_view();
                let ghost first = frozen@;
                let mut k: usize = 0;
                while k < facts.len()
                    invariant
                        k <= facts@.len(),
                        all == facts.deep_view(),
                        frozen@ == first.with_facts(view, all, k as nat),
                    decreases facts.len() - k,
                {
                    assert(all[k as int] == (facts@[k as int].0@, facts@[k as int].1@));
                    let h = facts[k].0.as_str();
                    frozen.add_handle(h);
                    match view.public_text(h) {
                        Some(t) => {
                            frozen.add_text(h, t.as_str());
                        },
                        None => {
                            frozen.add_text(h, facts[k].1.as_str());
                        },
                    }
                    k += 1;
                }
                frozen.set_slot(s.as_str(), p.as_str(), facts);
            }
        }
        frozen
    }
}

} // verus!
