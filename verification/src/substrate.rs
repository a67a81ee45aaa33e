//! The cells of a node together: one snapshot of them all, and all of them taken
//! up from one.

use vstd::prelude::*;
use crate::cbor::{map_value, Cbor, CborV};
use crate::cells::blob::{
    blob_image, digests_are_whole, digests_whole, lemma_blob_restore, BlobCell, BlobEntry, BlobsV,
};
use crate::cells::cache::{CacheCell, CacheV};
use crate::cells::fact::{FactCell, FactsV};
use crate::cells::graph::{
    edges_wf, graph_from_image, graph_image, lemma_graph_restore, EdgesV, GraphCell,
};
use crate::cells::hnsw::{measures, nearness, Nearness};
use crate::cells::index::{
    bm25_image, docs_in, items_of, joined_back, lemma_docs_back, read_items,
    Bm25Cell, DocV,
};
use crate::cells::playbook::{
    lemma_playbook_restore, playbook_image, Playbook, PlaybookCell, PlaybooksV,
};
use crate::cells::proposal::{ProposalCell, ProposalsV};
use crate::cells::registry::{AgentRegistryCell, RegistryV};
use crate::cells::scratchpad::{ScratchV, ScratchpadCell};
use crate::cells::subscription::{SubscriptionCell, SubsV};
use crate::cells::timeline::{TimelineCell, TimelineV};
use crate::cells::vector::{VectorCell, VectorV};
use crate::cells::{CatalogCell, CatalogV, CellBehavior};
use crate::curator::adjudicator::{counts_fit, counts_stand, AdjudicatorCell, AdjudicatorV};
use crate::curator::ledger::{numbers_fit, numbers_stand, CrossCheckLedgerCell, LedgerV};
use crate::curator::librarian::{LibrarianCell, LibrarianV};
use crate::curator::warden::{WardenCell, WardenV};
use crate::curator::CuratorBackend;
use crate::idmap::IdMap;
use crate::node::{
    hashes_of, CATALOG_ID, FACT_ID, TIMELINE_ID, SCRATCHPAD_ID, PLAYBOOK_ID, VECTOR_ID, BM25_ID,
    GRAPH_ID, BLOB_ID, AGENT_REGISTRY_ID, PROPOSAL_ID, SUBSCRIPTION_ID, CACHE_ID, LIBRARIAN_ID,
    WARDEN_ID, ADJUDICATOR_ID, CROSS_CHECK_ID,
};
use crate::rows::{done, keyed, records_in};
use crate::vocab::{agrees, CellId, ErrV, UcResult};

verus! {

/// The first error of the first `n`.
pub open spec fn first_error(es: Seq<Option<ErrV>>, n: nat) -> Option<ErrV>
    decreases n,
{
    if n == 0 {
        None
    } else {
        match first_error(es, (n - 1) as nat) {
            Some(e) => Some(e),
            None => es[n - 1],
        }
    }
}

proof fn lemma_first_error(es: Seq<Option<ErrV>>, n: nat, m: nat)
    requires
        n <= m,
        first_error(es, n) is Some,
    ensures
        first_error(es, m) == first_error(es, n),
    decreases m,
{
    if n < m {
        lemma_first_error(es, n, (m - 1) as nat);
    }
}

/// The documents that a snapshot of the lexical index gives, and the error that
/// ended its reading.
pub open spec fn docs_of(st: CborV) -> (Seq<DocV>, Option<ErrV>) {
    let (items, e) = items_of(st);
    (docs_in(items), e)
}

/// The states of the cells that hold memory, indexes and coordination.
#[verifier::ext_equal]
pub struct CellsV {
    pub catalog: CatalogV,
    pub fact: FactsV,
    pub timeline: TimelineV,
    pub scratchpad: ScratchV,
    pub playbook: PlaybooksV,
    pub vector: VectorV,
    pub bm25: Seq<DocV>,
    pub graph: EdgesV,
    pub blob: BlobsV,
    pub agent_registry: RegistryV,
    pub proposal: ProposalsV,
    pub subscription: SubsV,
    pub cache: CacheV,
}

impl CellsV {
    /// The snapshot of each.
    pub open spec fn images(self) -> Map<u64, CborV> {
        Map::<u64, CborV>::empty()
            .insert(CATALOG_ID, self.catalog.image())
            .insert(FACT_ID, self.fact.image())
            .insert(TIMELINE_ID, self.timeline.image())
            .insert(SCRATCHPAD_ID, self.scratchpad.image())
            .insert(PLAYBOOK_ID, playbook_image(self.playbook))
            .insert(VECTOR_ID, self.vector.image())
            .insert(BM25_ID, bm25_image(self.bm25))
            .insert(GRAPH_ID, graph_image(self.graph))
            .insert(BLOB_ID, blob_image(self.blob))
            .insert(AGENT_REGISTRY_ID, self.agent_registry.image())
            .insert(PROPOSAL_ID, self.proposal.image())
            .insert(SUBSCRIPTION_ID, self.subscription.image())
            .insert(CACHE_ID, map_value(seq![("ephemeral"@, CborV::Bool(true))]))
    }

    /// The errors that taking up each from its snapshot gives.
    pub open spec fn errors(self, states: Map<u64, CborV>) -> Seq<Option<ErrV>> {
        seq![
            if states.contains_key(CATALOG_ID) {
                let st = states[CATALOG_ID];
                CatalogV::from_image(st).1
            } else {
                None
            },
            if states.contains_key(FACT_ID) {
                let st = states[FACT_ID];
                FactsV::from_image(st).1
            } else {
                None
            },
            if states.contains_key(TIMELINE_ID) {
                let st = states[TIMELINE_ID];
                TimelineV::from_image(st).1
            } else {
                None
            },
            if states.contains_key(SCRATCHPAD_ID) {
                let st = states[SCRATCHPAD_ID];
                ScratchV::from_image(st).1
            } else {
                None
            },
            if states.contains_key(PLAYBOOK_ID) {
                let st = states[PLAYBOOK_ID];
                records_in::<Playbook>(st, "playbooks"@).1
            } else {
                None
            },
            if states.contains_key(VECTOR_ID) {
                let st = states[VECTOR_ID];
                items_of(st).1
            } else {
                None
            },
            if states.contains_key(BM25_ID) {
                let st = states[BM25_ID];
                docs_of(st).1
            } else {
                None
            },
            if states.contains_key(GRAPH_ID) {
                let st = states[GRAPH_ID];
                graph_from_image(st).1
            } else {
                None
            },
            if states.contains_key(BLOB_ID) {
                let st = states[BLOB_ID];
                records_in::<BlobEntry>(st, "blobs"@).1
            } else {
                None
            },
            if states.contains_key(AGENT_REGISTRY_ID) {
                let st = states[AGENT_REGISTRY_ID];
                RegistryV::from_image(st).1
            } else {
                None
            },
            if states.contains_key(PROPOSAL_ID) {
                let st = states[PROPOSAL_ID];
                ProposalsV::from_image(st).1
            } else {
                None
            },
            if states.contains_key(SUBSCRIPTION_ID) {
                let st = states[SUBSCRIPTION_ID];
                SubsV::from_image(st).1
            } else {
                None
            },
            if states.contains_key(CACHE_ID) {
                let st = states[CACHE_ID];
                None::<ErrV>
            } else {
                None
            },
        ]
    }

    /// The snapshot is taken up: it is there, and no error came before.
    pub open spec fn takes(self, states: Map<u64, CborV>, i: nat, id: u64) -> bool {
        states.contains_key(id) && first_error(self.errors(states), i) is None
    }

    /// The state after snapshots were taken up, one after the other, up to the
    /// first error.
    pub open spec fn restored(self, states: Map<u64, CborV>, sim: Nearness) -> CellsV {
        self.restored_to(states, sim, 13)
    }

    /// The state after this was done for the first `n` of them.
    #[verifier::opaque]
    pub open spec fn restored_to(self, states: Map<u64, CborV>, sim: Nearness, n: nat) -> CellsV {
        CellsV {
            catalog: if 0 < n && self.takes(states, 0, CATALOG_ID) {
                let st = states[CATALOG_ID];
                CatalogV::from_image(st).0
            } else {
                self.catalog
            },
            fact: if 1 < n && self.takes(states, 1, FACT_ID) {
                let st = states[FACT_ID];
                FactsV::from_image(st).0
            } else {
                self.fact
            },
            timeline: if 2 < n && self.takes(states, 2, TIMELINE_ID) {
                let st = states[TIMELINE_ID];
                TimelineV::from_image(st).0
            } else {
                self.timeline
            },
            scratchpad: if 3 < n && self.takes(states, 3, SCRATCHPAD_ID) {
                let st = states[SCRATCHPAD_ID];
                ScratchV { entries: ScratchV::from_image(st).0, ..self.scratchpad }
            } else {
                self.scratchpad
            },
            playbook: if 4 < n && self.takes(states, 4, PLAYBOOK_ID) {
                let st = states[PLAYBOOK_ID];
                records_in::<Playbook>(st, "playbooks"@).0
            } else {
                self.playbook
            },
            vector: if 5 < n && self.takes(states, 5, VECTOR_ID) {
                let st = states[VECTOR_ID];
                self.vector.restored(st, sim)
            } else {
                self.vector
            },
            bm25: if 6 < n && self.takes(states, 6, BM25_ID) {
                let st = states[BM25_ID];
                docs_of(st).0
            } else {
                self.bm25
            },
            graph: if 7 < n && self.takes(states, 7, GRAPH_ID) {
                let st = states[GRAPH_ID];
                graph_from_image(st).0
            } else {
                self.graph
            },
            blob: if 8 < n && self.takes(states, 8, BLOB_ID) {
                let st = states[BLOB_ID];
                records_in::<BlobEntry>(st, "blobs"@).0
            } else {
                self.blob
            },
            agent_registry: if 9 < n && self.takes(states, 9, AGENT_REGISTRY_ID) {
                let st = states[AGENT_REGISTRY_ID];
                RegistryV::from_image(st).0
            } else {
                self.agent_registry
            },
            proposal: if 10 < n && self.takes(states, 10, PROPOSAL_ID) {
                let st = states[PROPOSAL_ID];
                ProposalsV::from_image(st).0
            } else {
                self.proposal
            },
            subscription: if 11 < n && self.takes(states, 11, SUBSCRIPTION_ID) {
                let st = states[SUBSCRIPTION_ID];
                SubsV::from_image(st).0
            } else {
                self.subscription
            },
            cache: if 12 < n && self.takes(states, 12, CACHE_ID) {
                let st = states[CACHE_ID];
                CacheV { slots: Map::empty(), ..self.cache }
            } else {
                self.cache
            },
        }
    }

    proof fn lemma_stopped(self, states: Map<u64, CborV>, sim: Nearness, n: nat)
        requires
            n <= 13,
            first_error(self.errors(states), n) is Some,
        ensures
            self.restored_to(states, sim, n) == self.restored_to(states, sim, 13),
            first_error(self.errors(states), n) == first_error(self.errors(states), 13),
    {
        reveal(CellsV::restored_to);
        let es = self.errors(states);
        assert forall|m: nat| n <= m implies #[trigger] first_error(es, m) == first_error(es, n) by {
            lemma_first_error(es, n, m);
        }
        assert(self.restored_to(states, sim, n) =~= self.restored_to(states, sim, 13));
    }
}

/// The cells that hold memory, indexes and coordination.
#[derive(Debug)]
pub struct Cells {
    pub catalog: CatalogCell,
    pub fact: FactCell,
    pub timeline: TimelineCell,
    pub scratchpad: ScratchpadCell,
    pub playbook: PlaybookCell,
    pub vector: VectorCell,
    pub bm25: Bm25Cell,
    pub graph: GraphCell,
    pub blob: BlobCell,
    pub agent_registry: AgentRegistryCell,
    pub proposal: ProposalCell,
    pub subscription: SubscriptionCell,
    pub cache: CacheCell,
}

/// The states of the curators and of their ledger.
#[verifier::ext_equal]
pub struct CuratorsV {
    pub librarian: LibrarianV,
    pub warden: WardenV,
    pub adjudicator: AdjudicatorV,
    pub cross_check: LedgerV,
}

impl CuratorsV {
    /// The snapshot of each.
    pub open spec fn images(self) -> Map<u64, CborV> {
        Map::<u64, CborV>::empty()
            .insert(LIBRARIAN_ID, self.librarian.image())
            .insert(WARDEN_ID, self.warden.image())
            .insert(ADJUDICATOR_ID, self.adjudicator.image())
            .insert(CROSS_CHECK_ID, self.cross_check.image())
    }

    /// The errors that taking up each from its snapshot gives.
    pub open spec fn errors(self, states: Map<u64, CborV>) -> Seq<Option<ErrV>> {
        seq![
            if states.contains_key(LIBRARIAN_ID) {
                let st = states[LIBRARIAN_ID];
                LibrarianV::from_image(st).1
            } else {
                None
            },
            if states.contains_key(WARDEN_ID) {
                let st = states[WARDEN_ID];
                WardenV::from_image(st).1
            } else {
                None
            },
            if states.contains_key(ADJUDICATOR_ID) {
                let st = states[ADJUDICATOR_ID];
                AdjudicatorV::from_image(st).1
            } else {
                None
            },
            if states.contains_key(CROSS_CHECK_ID) {
                let st = states[CROSS_CHECK_ID];
                self.cross_check.restored(st).1
            } else {
                None
            },
        ]
    }

    /// The snapshot is taken up: it is there, and no error came before.
    pub open spec fn takes(self, states: Map<u64, CborV>, i: nat, id: u64) -> bool {
        states.contains_key(id) && first_error(self.errors(states), i) is None
    }

    /// The state after snapshots were taken up, one after the other, up to the
    /// first error.
    pub open spec fn restored(self, states: Map<u64, CborV>) -> CuratorsV {
        self.restored_to(states, 4)
    }

    /// The state after this was done for the first `n` of them.
    #[verifier::opaque]
    pub open spec fn restored_to(self, states: Map<u64, CborV>, n: nat) -> CuratorsV {
        CuratorsV {
            librarian: if 0 < n && self.takes(states, 0, LIBRARIAN_ID) {
                let st = states[LIBRARIAN_ID];
                LibrarianV::from_image(st).0
            } else {
                self.librarian
            },
            warden: if 1 < n && self.takes(states, 1, WARDEN_ID) {
                let st = states[WARDEN_ID];
                WardenV::from_image(st).0
            } else {
                self.warden
            },
            adjudicator: if 2 < n && self.takes(states, 2, ADJUDICATOR_ID) {
                let st = states[ADJUDICATOR_ID];
                AdjudicatorV::from_image(st).0
            } else {
                self.adjudicator
            },
            cross_check: if 3 < n && self.takes(states, 3, CROSS_CHECK_ID) {
                let st = states[CROSS_CHECK_ID];
                self.cross_check.restored(st).0
            } else {
                self.cross_check
            },
        }
    }

    proof fn lemma_stopped(self, states: Map<u64, CborV>, n: nat)
        requires
            n <= 4,
            first_error(self.errors(states), n) is Some,
        ensures
            self.restored_to(states, n) == self.restored_to(states, 4),
            first_error(self.errors(states), n) == first_error(self.errors(states), 4),
    {
        reveal(CuratorsV::restored_to);
        let es = self.errors(states);
        assert forall|m: nat| n <= m implies #[trigger] first_error(es, m) == first_error(es, n) by {
            lemma_first_error(es, n, m);
        }
        assert(self.restored_to(states, n) =~= self.restored_to(states, 4));
    }
}

/// The curators.
#[derive(Debug)]
pub struct Curators<B: CuratorBackend> {
    pub librarian: LibrarianCell<B>,
    pub warden: WardenCell<B>,
    pub adjudicator: AdjudicatorCell<B>,
}

impl View for Cells {
    type V = CellsV;

    open spec fn view(&self) -> CellsV {
        CellsV {
            catalog: self.catalog@,
            fact: self.fact@,
            timeline: self.timeline@,
            scratchpad: self.scratchpad@,
            playbook: self.playbook@,
            vector: self.vector@,
            bm25: self.bm25@,
            graph: self.graph@,
            blob: self.blob@,
            agent_registry: self.agent_registry@,
            proposal: self.proposal@,
            subscription: self.subscription@,
            cache: self.cache@,
        }
    }
}

impl Cells {
    /// What holds of the cells between calls.
    pub open spec fn wf(&self) -> bool {
        &&& self.catalog.wf()
        &&& self.fact.wf()
        &&& self.timeline.wf()
        &&& self.scratchpad.wf()
        &&& self.playbook.wf()
        &&& self.vector@.wf()
        &&& self.bm25.counted()
        &&& self.graph.wf()
        &&& self.blob.wf()
        &&& self.agent_registry.wf()
        &&& self.proposal.wf()
        &&& self.subscription.wf()
        &&& self.cache.wf()
    }

    /// The cells have the same ids.
    pub open spec fn same_ids(&self, other: &Cells) -> bool {
        &&& self.catalog.ident() == other.catalog.ident()
        &&& self.fact.ident() == other.fact.ident()
        &&& self.timeline.ident() == other.timeline.ident()
        &&& self.scratchpad.ident() == other.scratchpad.ident()
        &&& self.playbook.ident() == other.playbook.ident()
        &&& self.vector.ident() == other.vector.ident()
        &&& self.bm25.ident() == other.bm25.ident()
        &&& self.graph.ident() == other.graph.ident()
        &&& self.blob.ident() == other.blob.ident()
        &&& self.agent_registry.ident() == other.agent_registry.ident()
        &&& self.proposal.ident() == other.proposal.ident()
        &&& self.subscription.ident() == other.subscription.ident()
        &&& self.cache.ident() == other.cache.ident()
    }

    /// Empty cells.
    pub fn new(embedder_dim: usize, boot_seed: u64) -> (r: Self)
        ensures
            r.wf(),
            r.vector@ == VectorV::new(embedder_dim, boot_seed),
            r.catalog.ident().0 == CATALOG_ID,
            r.fact.ident().0 == FACT_ID,
            r.timeline.ident().0 == TIMELINE_ID,
            r.scratchpad.ident().0 == SCRATCHPAD_ID,
            r.playbook.ident().0 == PLAYBOOK_ID,
            r.vector.ident().0 == VECTOR_ID,
            r.bm25.ident().0 == BM25_ID,
            r.graph.ident().0 == GRAPH_ID,
            r.blob.ident().0 == BLOB_ID,
            r.agent_registry.ident().0 == AGENT_REGISTRY_ID,
            r.proposal.ident().0 == PROPOSAL_ID,
            r.subscription.ident().0 == SUBSCRIPTION_ID,
            r.cache.ident().0 == CACHE_ID,
    {
        Cells {
            catalog: CatalogCell::new(CellId(CATALOG_ID)),
            fact: FactCell::new(CellId(FACT_ID)),
            timeline: TimelineCell::new(CellId(TIMELINE_ID)),
            scratchpad: ScratchpadCell::new(CellId(SCRATCHPAD_ID)),
            playbook: PlaybookCell::new(CellId(PLAYBOOK_ID)),
            vector: VectorCell::new(CellId(VECTOR_ID), embedder_dim, boot_seed),
            bm25: Bm25Cell::new(CellId(BM25_ID)),
            graph: GraphCell::new(CellId(GRAPH_ID)),
            blob: BlobCell::new(CellId(BLOB_ID)),
            agent_registry: AgentRegistryCell::new(CellId(AGENT_REGISTRY_ID)),
            proposal: ProposalCell::new(CellId(PROPOSAL_ID)),
            subscription: SubscriptionCell::new(CellId(SUBSCRIPTION_ID)),
            cache: CacheCell::new(CellId(CACHE_ID)),
        }
    }

    /// The snapshot of each, beside what is there already.
    pub fn snapshot_all(&self, out: &mut IdMap<Cbor>)
        requires
            self.wf(),
        ensures
            final(out)@ == old(out)@.union_prefer_right(self@.images()),
            self@.kept(),
    {
        out.insert(CATALOG_ID, self.catalog.snapshot_state());
        out.insert(FACT_ID, self.fact.snapshot_state());
        out.insert(TIMELINE_ID, self.timeline.snapshot_state());
        out.insert(SCRATCHPAD_ID, self.scratchpad.snapshot_state());
        out.insert(PLAYBOOK_ID, self.playbook.snapshot_state());
        out.insert(VECTOR_ID, self.vector.snapshot_state());
        out.insert(BM25_ID, self.bm25.snapshot_state());
        out.insert(GRAPH_ID, self.graph.snapshot_state());
        out.insert(BLOB_ID, self.blob.snapshot_state());
        out.insert(AGENT_REGISTRY_ID, self.agent_registry.snapshot_state());
        out.insert(PROPOSAL_ID, self.proposal.snapshot_state());
        out.insert(SUBSCRIPTION_ID, self.subscription.snapshot_state());
        out.insert(CACHE_ID, self.cache.snapshot_state());
        assert(out@ =~= old(out)@.union_prefer_right(self@.images()));
    }

    fn restore_catalog(
        &mut self,
        states: &IdMap<Cbor>,
        Ghost(was): Ghost<CellsV>,
        Ghost(sim): Ghost<Nearness>,
    ) -> (r: UcResult<()>)
        requires
            old(self).wf(),
            cells_restorable(states@),
            old(self)@ == was.restored_to(states@, sim, 0),
            first_error(was.errors(states@), 0) is None,
        ensures
            final(self).wf(),
            final(self).same_ids(old(self)),
            final(self)@ == was.restored_to(states@, sim, 1),
            agrees(r, done(first_error(was.errors(states@), 1))),
    {
        reveal(CellsV::restored_to);
        let ghost es = was.errors(states@);
        assert(first_error(es, 1) == es[0]);
        let r = match states.get(CATALOG_ID) {
            Some(s) => self.catalog.restore_state(s),
            None => Ok(()),
        };
        assert(self@ =~= was.restored_to(states@, sim, 1));
        r
    }

    fn restore_fact(
        &mut self,
        states: &IdMap<Cbor>,
        Ghost(was): Ghost<CellsV>,
        Ghost(sim): Ghost<Nearness>,
    ) -> (r: UcResult<()>)
        requires
            old(self).wf(),
            cells_restorable(states@),
            old(self)@ == was.restored_to(states@, sim, 1),
            first_error(was.errors(states@), 1) is None,
        ensures
            final(self).wf(),
            final(self).same_ids(old(self)),
            final(self)@ == was.restored_to(states@, sim, 2),
            agrees(r, done(first_error(was.errors(states@), 2))),
    {
        reveal(CellsV::restored_to);
        let ghost es = was.errors(states@);
        assert(first_error(es, 2) == es[1]);
        let r = match states.get(FACT_ID) {
            Some(s) => self.fact.restore_state(s),
            None => Ok(()),
        };
        assert(self@ =~= was.restored_to(states@, sim, 2));
        r
    }

    fn restore_timeline(
        &mut self,
        states: &IdMap<Cbor>,
        Ghost(was): Ghost<CellsV>,
        Ghost(sim): Ghost<Nearness>,
    ) -> (r: UcResult<()>)
        requires
            old(self).wf(),
            cells_restorable(states@),
            old(self)@ == was.restored_to(states@, sim, 2),
            first_error(was.errors(states@), 2) is None,
        ensures
            final(self).wf(),
            final(self).same_ids(old(self)),
            final(self)@ == was.restored_to(states@, sim, 3),
            agrees(r, done(first_error(was.errors(states@), 3))),
    {
        reveal(CellsV::restored_to);
        let ghost es = was.errors(states@);
        assert(first_error(es, 3) == es[2]);
        let r = match states.get(TIMELINE_ID) {
            Some(s) => self.timeline.restore_state(s),
            None => Ok(()),
        };
        assert(self@ =~= was.restored_to(states@, sim, 3));
        r
    }

    fn restore_scratchpad(
        &mut self,
        states: &IdMap<Cbor>,
        Ghost(was): Ghost<CellsV>,
        Ghost(sim): Ghost<Nearness>,
    ) -> (r: UcResult<()>)
        requires
            old(self).wf(),
            cells_restorable(states@),
            old(self)@ == was.restored_to(states@, sim, 3),
            first_error(was.errors(states@), 3) is None,
        ensures
            final(self).wf(),
            final(self).same_ids(old(self)),
            final(self)@ == was.restored_to(states@, sim, 4),
            agrees(r, done(first_error(was.errors(states@), 4))),
    {
        reveal(CellsV::restored_to);
        let ghost es = was.errors(states@);
        assert(first_error(es, 4) == es[3]);
        let r = match states.get(SCRATCHPAD_ID) {
            Some(s) => self.scratchpad.restore_state(s),
            None => Ok(()),
        };
        assert(self@ =~= was.restored_to(states@, sim, 4));
        r
    }

    fn restore_playbook(
        &mut self,
        states: &IdMap<Cbor>,
        Ghost(was): Ghost<CellsV>,
        Ghost(sim): Ghost<Nearness>,
    ) -> (r: UcResult<()>)
        requires
            old(self).wf(),
            cells_restorable(states@),
            old(self)@ == was.restored_to(states@, sim, 4),
            first_error(was.errors(states@), 4) is None,
        ensures
            final(self).wf(),
            final(self).same_ids(old(self)),
            final(self)@ == was.restored_to(states@, sim, 5),
            agrees(r, done(first_error(was.errors(states@), 5))),
    {
        reveal(CellsV::restored_to);
        let ghost es = was.errors(states@);
        assert(first_error(es, 5) == es[4]);
        let r = match states.get(PLAYBOOK_ID) {
            Some(s) => self.playbook.restore_state(s),
            None => Ok(()),
        };
        assert(self@ =~= was.restored_to(states@, sim, 5));
        r
    }

    fn restore_vector<F: Fn(u32, u32) -> u64>(
        &mut self,
        states: &IdMap<Cbor>,
        sim: &F,
        Ghost(was): Ghost<CellsV>,
    ) -> (r: UcResult<()>)
        requires
            old(self).wf(),
            cells_restorable(states@),
            states@.contains_key(VECTOR_ID) ==> measures(
                *sim,
                items_of(states@[VECTOR_ID]).0.len(),
            ),
            old(self)@ == was.restored_to(states@, nearness(*sim), 5),
            first_error(was.errors(states@), 5) is None,
        ensures
            final(self).wf(),
            final(self).same_ids(old(self)),
            final(self)@ == was.restored_to(states@, nearness(*sim), 6),
            agrees(r, done(first_error(was.errors(states@), 6))),
    {
        reveal(CellsV::restored_to);
        let ghost es = was.errors(states@);
        assert(first_error(es, 6) == es[5]);
        let r = match states.get(VECTOR_ID) {
            Some(s) => self.vector.restore_state(s, sim),
            None => Ok(()),
        };
        assert(self@ =~= was.restored_to(states@, nearness(*sim), 6));
        r
    }

    fn restore_bm25(
        &mut self,
        states: &IdMap<Cbor>,
        Ghost(was): Ghost<CellsV>,
        Ghost(sim): Ghost<Nearness>,
    ) -> (r: UcResult<()>)
        requires
            old(self).wf(),
            cells_restorable(states@),
            old(self)@ == was.restored_to(states@, sim, 6),
            first_error(was.errors(states@), 6) is None,
        ensures
            final(self).wf(),
            final(self).same_ids(old(self)),
            final(self)@ == was.restored_to(states@, sim, 7),
            agrees(r, done(first_error(was.errors(states@), 7))),
    {
        reveal(CellsV::restored_to);
        let ghost es = was.errors(states@);
        assert(first_error(es, 7) == es[6]);
        let r = match states.get(BM25_ID) {
            Some(s) => self.bm25.restore_state(s),
            None => Ok(()),
        };
        assert(self@ =~= was.restored_to(states@, sim, 7));
        r
    }

    fn restore_graph(
        &mut self,
        states: &IdMap<Cbor>,
        Ghost(was): Ghost<CellsV>,
        Ghost(sim): Ghost<Nearness>,
    ) -> (r: UcResult<()>)
        requires
            old(self).wf(),
            cells_restorable(states@),
            old(self)@ == was.restored_to(states@, sim, 7),
            first_error(was.errors(states@), 7) is None,
        ensures
            final(self).wf(),
            final(self).same_ids(old(self)),
            final(self)@ == was.restored_to(states@, sim, 8),
            agrees(r, done(first_error(was.errors(states@), 8))),
    {
        reveal(CellsV::restored_to);
        let ghost es = was.errors(states@);
        assert(first_error(es, 8) == es[7]);
        let r = match states.get(GRAPH_ID) {
            Some(s) => self.graph.restore_state(s),
            None => Ok(()),
        };
        assert(self@ =~= was.restored_to(states@, sim, 8));
        r
    }

    fn restore_blob(
        &mut self,
        states: &IdMap<Cbor>,
        Ghost(was): Ghost<CellsV>,
        Ghost(sim): Ghost<Nearness>,
    ) -> (r: UcResult<()>)
        requires
            old(self).wf(),
            cells_restorable(states@),
            old(self)@ == was.restored_to(states@, sim, 8),
            first_error(was.errors(states@), 8) is None,
        ensures
            final(self).wf(),
            final(self).same_ids(old(self)),
            final(self)@ == was.restored_to(states@, sim, 9),
            agrees(r, done(first_error(was.errors(states@), 9))),
    {
        reveal(CellsV::restored_to);
        let ghost es = was.errors(states@);
        assert(first_error(es, 9) == es[8]);
        let r = match states.get(BLOB_ID) {
            Some(s) => self.blob.restore_state(s),
            None => Ok(()),
        };
        assert(self@ =~= was.restored_to(states@, sim, 9));
        r
    }

    fn restore_agent_registry(
        &mut self,
        states: &IdMap<Cbor>,
        Ghost(was): Ghost<CellsV>,
        Ghost(sim): Ghost<Nearness>,
    ) -> (r: UcResult<()>)
        requires
            old(self).wf(),
            cells_restorable(states@),
            old(self)@ == was.restored_to(states@, sim, 9),
            first_error(was.errors(states@), 9) is None,
        ensures
            final(self).wf(),
            final(self).same_ids(old(self)),
            final(self)@ == was.restored_to(states@, sim, 10),
            agrees(r, done(first_error(was.errors(states@), 10))),
    {
        reveal(CellsV::restored_to);
        let ghost es = was.errors(states@);
        assert(first_error(es, 10) == es[9]);
        let r = match states.get(AGENT_REGISTRY_ID) {
            Some(s) => self.agent_registry.restore_state(s),
            None => Ok(()),
        };
        assert(self@ =~= was.restored_to(states@, sim, 10));
        r
    }

    fn restore_proposal(
        &mut self,
        states: &IdMap<Cbor>,
        Ghost(was): Ghost<CellsV>,
        Ghost(sim): Ghost<Nearness>,
    ) -> (r: UcResult<()>)
        requires
            old(self).wf(),
            cells_restorable(states@),
            old(self)@ == was.restored_to(states@, sim, 10),
            first_error(was.errors(states@), 10) is None,
        ensures
            final(self).wf(),
            final(self).same_ids(old(self)),
            final(self)@ == was.restored_to(states@, sim, 11),
            agrees(r, done(first_error(was.errors(states@), 11))),
    {
        reveal(CellsV::restored_to);
        let ghost es = was.errors(states@);
        assert(first_error(es, 11) == es[10]);
        let r = match states.get(PROPOSAL_ID) {
            Some(s) => self.proposal.restore_state(s),
            None => Ok(()),
        };
        assert(self@ =~= was.restored_to(states@, sim, 11));
        r
    }

    fn restore_subscription(
        &mut self,
        states: &IdMap<Cbor>,
        Ghost(was): Ghost<CellsV>,
        Ghost(sim): Ghost<Nearness>,
    ) -> (r: UcResult<()>)
        requires
            old(self).wf(),
            cells_restorable(states@),
            old(self)@ == was.restored_to(states@, sim, 11),
            first_error(was.errors(states@), 11) is None,
        ensures
            final(self).wf(),
            final(self).same_ids(old(self)),
            final(self)@ == was.restored_to(states@, sim, 12),
            agrees(r, done(first_error(was.errors(states@), 12))),
    {
        reveal(CellsV::restored_to);
        let ghost es = was.errors(states@);
        assert(first_error(es, 12) == es[11]);
        let r = match states.get(SUBSCRIPTION_ID) {
            Some(s) => self.subscription.restore_state(s),
            None => Ok(()),
        };
        assert(self@ =~= was.restored_to(states@, sim, 12));
        r
    }

    fn restore_cache(
        &mut self,
        states: &IdMap<Cbor>,
        Ghost(was): Ghost<CellsV>,
        Ghost(sim): Ghost<Nearness>,
    ) -> (r: UcResult<()>)
        requires
            old(self).wf(),
            cells_restorable(states@),
            old(self)@ == was.restored_to(states@, sim, 12),
            first_error(was.errors(states@), 12) is None,
        ensures
            final(self).wf(),
            final(self).same_ids(old(self)),
            final(self)@ == was.restored_to(states@, sim, 13),
            agrees(r, done(first_error(was.errors(states@), 13))),
    {
        reveal(CellsV::restored_to);
        let ghost es = was.errors(states@);
        assert(first_error(es, 13) == es[12]);
        let r = match states.get(CACHE_ID) {
            Some(s) => self.cache.restore_state(s),
            None => Ok(()),
        };
        assert(self@ =~= was.restored_to(states@, sim, 13));
        r
    }

    /// Takes up each from its snapshot, where there is one, up to the first error.
    /// The nearness is that of the texts in the snapshot of the vector index.
    pub fn restore_all<F: Fn(u32, u32) -> u64>(&mut self, states: &IdMap<Cbor>, sim: &F) -> (r:
        UcResult<()>)
        requires
            old(self).wf(),
            cells_restorable(states@),
            states@.contains_key(VECTOR_ID) ==> measures(
                *sim,
                items_of(states@[VECTOR_ID]).0.len(),
            ),
        ensures
            final(self).wf(),
            final(self).same_ids(old(self)),
            final(self)@ == old(self)@.restored(states@, nearness(*sim)),
            agrees(r, done(first_error(old(self)@.errors(states@), 13))),
    {
        let ghost was = self@;
        let ghost s = nearness(*sim);
        assert(was.restored_to(states@, s, 0) =~= was) by {
            reveal(CellsV::restored_to);
        }
        if let Err(e) = self.restore_catalog(states, Ghost(was), Ghost(s)) {
            proof {
                was.lemma_stopped(states@, s, 1);
            }
            return Err(e);
        }
        if let Err(e) = self.restore_fact(states, Ghost(was), Ghost(s)) {
            proof {
                was.lemma_stopped(states@, s, 2);
            }
            return Err(e);
        }
        if let Err(e) = self.restore_timeline(states, Ghost(was), Ghost(s)) {
            proof {
                was.lemma_stopped(states@, s, 3);
            }
            return Err(e);
        }
        if let Err(e) = self.restore_scratchpad(states, Ghost(was), Ghost(s)) {
            proof {
                was.lemma_stopped(states@, s, 4);
            }
            return Err(e);
        }
        if let Err(e) = self.restore_playbook(states, Ghost(was), Ghost(s)) {
            proof {
                was.lemma_stopped(states@, s, 5);
            }
            return Err(e);
        }
        if let Err(e) = self.restore_vector(states, sim, Ghost(was)) {
            proof {
                was.lemma_stopped(states@, s, 6);
            }
            return Err(e);
        }
        if let Err(e) = self.restore_bm25(states, Ghost(was), Ghost(s)) {
            proof {
                was.lemma_stopped(states@, s, 7);
            }
            return Err(e);
        }
        if let Err(e) = self.restore_graph(states, Ghost(was), Ghost(s)) {
            proof {
                was.lemma_stopped(states@, s, 8);
            }
            return Err(e);
        }
        if let Err(e) = self.restore_blob(states, Ghost(was), Ghost(s)) {
            proof {
                was.lemma_stopped(states@, s, 9);
            }
            return Err(e);
        }
        if let Err(e) = self.restore_agent_registry(states, Ghost(was), Ghost(s)) {
            proof {
                was.lemma_stopped(states@, s, 10);
            }
            return Err(e);
        }
        if let Err(e) = self.restore_proposal(states, Ghost(was), Ghost(s)) {
            proof {
                was.lemma_stopped(states@, s, 11);
            }
            return Err(e);
        }
        if let Err(e) = self.restore_subscription(states, Ghost(was), Ghost(s)) {
            proof {
                was.lemma_stopped(states@, s, 12);
            }
            return Err(e);
        }
        if let Err(e) = self.restore_cache(states, Ghost(was), Ghost(s)) {
            proof {
                was.lemma_stopped(states@, s, 13);
            }
            return Err(e);
        }
        Ok(())
    }
}

/// The snapshots keep the limits that taking them up needs: digests are whole,
/// and points can be numbered.
pub open spec fn cells_restorable(states: Map<u64, CborV>) -> bool {
    &&& states.contains_key(BLOB_ID) ==> digests_whole(states[BLOB_ID])
    &&& states.contains_key(VECTOR_ID) ==> items_of(states[VECTOR_ID]).0.len() <= u32::MAX
}

/// Tells whether the snapshots keep the limits that taking them up needs.
pub fn cells_can_restore(states: &IdMap<Cbor>) -> (r: bool)
    ensures
        r == cells_restorable(states@),
{
    if let Some(s) = states.get(BLOB_ID) {
        if !digests_are_whole(s) {
            return false;
        }
    }
    if let Some(s) = states.get(VECTOR_ID) {
        let items = read_items(s).0;
        assert(items@.len() == items_of(s@).0.len()) by {
            assert(crate::cells::index::item_views(items@).len() == items@.len());
        }
        if items.len() as u64 > u32::MAX as u64 {
            return false;
        }
    }
    true
}

/// The snapshots keep the limits that taking them up needs: counts and numbers
/// fit.
pub open spec fn curators_restorable(states: Map<u64, CborV>) -> bool {
    &&& states.contains_key(ADJUDICATOR_ID) ==> counts_fit(states[ADJUDICATOR_ID])
    &&& states.contains_key(CROSS_CHECK_ID) ==> numbers_fit(states[CROSS_CHECK_ID])
}

/// Tells whether the snapshots keep the limits that taking them up needs.
pub fn curators_can_restore(states: &IdMap<Cbor>) -> (r: bool)
    ensures
        r == curators_restorable(states@),
{
    if let Some(s) = states.get(ADJUDICATOR_ID) {
        if !counts_stand(s) {
            return false;
        }
    }
    if let Some(s) = states.get(CROSS_CHECK_ID) {
        if !numbers_stand(s) {
            return false;
        }
    }
    true
}

impl<B: CuratorBackend> Curators<B> {
    /// The states of the curators and of the ledger.
    pub open spec fn states(&self, cross_check: LedgerV) -> CuratorsV {
        CuratorsV {
            librarian: self.librarian@,
            warden: self.warden@,
            adjudicator: self.adjudicator@,
            cross_check,
        }
    }

    /// The curators have the same ids and the same backends.
    pub open spec fn same_backends(&self, other: &Curators<B>) -> bool {
        &&& self.librarian.ident() == other.librarian.ident()
        &&& self.librarian.worker() == other.librarian.worker()
        &&& self.warden.ident() == other.warden.ident()
        &&& self.warden.judge() == other.warden.judge()
        &&& self.adjudicator.ident() == other.adjudicator.ident()
        &&& self.adjudicator.judges() == other.adjudicator.judges()
    }

    /// What holds of the curators between calls.
    pub open spec fn wf(&self) -> bool {
        &&& self.librarian.wf()
        &&& self.warden.wf()
        &&& self.adjudicator.wf()
    }

    /// The snapshot of each curator and of the ledger, beside what is there
    /// already.
    pub fn snapshot_all(&self, cross_check: &CrossCheckLedgerCell, out: &mut IdMap<Cbor>)
        requires
            self.wf(),
            cross_check.wf(),
        ensures
            final(out)@ == old(out)@.union_prefer_right(self.states(cross_check@).images()),
            self.states(cross_check@).valid(),
    {
        out.insert(LIBRARIAN_ID, self.librarian.snapshot_state());
        out.insert(WARDEN_ID, self.warden.snapshot_state());
        out.insert(ADJUDICATOR_ID, self.adjudicator.snapshot_state());
        out.insert(CROSS_CHECK_ID, cross_check.snapshot_state());
        assert(out@ =~= old(out)@.union_prefer_right(self.states(cross_check@).images()));
    }

    fn restore_librarian(
        &mut self,
        states: &IdMap<Cbor>,
        Ghost(was): Ghost<CuratorsV>,
        Ghost(ledger): Ghost<LedgerV>,
    ) -> (r: UcResult<()>)
        requires
            old(self).wf(),
            curators_restorable(states@),
            old(self).states(ledger) == was.restored_to(states@, 0),
            first_error(was.errors(states@), 0) is None,
        ensures
            final(self).wf(),
            final(self).same_backends(old(self)),
            final(self).states(ledger) == was.restored_to(states@, 1),
            agrees(r, done(first_error(was.errors(states@), 1))),
    {
        reveal(CuratorsV::restored_to);
        let ghost es = was.errors(states@);
        assert(first_error(es, 1) == es[0]);
        let r = match states.get(LIBRARIAN_ID) {
            Some(s) => self.librarian.restore_state(s),
            None => Ok(()),
        };
        assert(self.states(ledger) =~= was.restored_to(states@, 1));
        r
    }

    fn restore_warden(
        &mut self,
        states: &IdMap<Cbor>,
        Ghost(was): Ghost<CuratorsV>,
        Ghost(ledger): Ghost<LedgerV>,
    ) -> (r: UcResult<()>)
        requires
            old(self).wf(),
            curators_restorable(states@),
            old(self).states(ledger) == was.restored_to(states@, 1),
            first_error(was.errors(states@), 1) is None,
        ensures
            final(self).wf(),
            final(self).same_backends(old(self)),
            final(self).states(ledger) == was.restored_to(states@, 2),
            agrees(r, done(first_error(was.errors(states@), 2))),
    {
        reveal(CuratorsV::restored_to);
        let ghost es = was.errors(states@);
        assert(first_error(es, 2) == es[1]);
        let r = match states.get(WARDEN_ID) {
            Some(s) => self.warden.restore_state(s),
            None => Ok(()),
        };
        assert(self.states(ledger) =~= was.restored_to(states@, 2));
        r
    }

    fn restore_adjudicator(
        &mut self,
        states: &IdMap<Cbor>,
        Ghost(was): Ghost<CuratorsV>,
        Ghost(ledger): Ghost<LedgerV>,
    ) -> (r: UcResult<()>)
        requires
            old(self).wf(),
            curators_restorable(states@),
            old(self).states(ledger) == was.restored_to(states@, 2),
            first_error(was.errors(states@), 2) is None,
        ensures
            final(self).wf(),
            final(self).same_backends(old(self)),
            final(self).states(ledger) == was.restored_to(states@, 3),
            agrees(r, done(first_error(was.errors(states@), 3))),
    {
        reveal(CuratorsV::restored_to);
        let ghost es = was.errors(states@);
        assert(first_error(es, 3) == es[2]);
        let r = match states.get(ADJUDICATOR_ID) {
            Some(s) => self.adjudicator.restore_state(s),
            None => Ok(()),
        };
        assert(self.states(ledger) =~= was.restored_to(states@, 3));
        r
    }

    fn restore_cross_check(
        &mut self,
        cross_check: &mut CrossCheckLedgerCell,
        states: &IdMap<Cbor>,
        Ghost(was): Ghost<CuratorsV>,
    ) -> (r: UcResult<()>)
        requires
            old(self).wf(),
            old(cross_check).wf(),
            curators_restorable(states@),
            old(self).states(old(cross_check)@) == was.restored_to(states@, 3),
            first_error(was.errors(states@), 3) is None,
        ensures
            final(self).wf(),
            final(self).same_backends(old(self)),
            final(cross_check).wf(),
            final(cross_check).ident() == old(cross_check).ident(),
            final(self).states(final(cross_check)@) == was.restored_to(states@, 4),
            agrees(r, done(first_error(was.errors(states@), 4))),
    {
        reveal(CuratorsV::restored_to);
        let ghost es = was.errors(states@);
        assert(first_error(es, 4) == es[3]);
        let r = match states.get(CROSS_CHECK_ID) {
            Some(s) => cross_check.restore_state(s),
            None => Ok(()),
        };
        assert(self.states(cross_check@) =~= was.restored_to(states@, 4));
        r
    }

    /// Takes up each curator and the ledger from its snapshot, where there is one,
    /// up to the first error.
    pub fn restore_all(&mut self, cross_check: &mut CrossCheckLedgerCell, states: &IdMap<Cbor>) -> (r:
        UcResult<()>)
        requires
            old(self).wf(),
            old(cross_check).wf(),
            curators_restorable(states@),
        ensures
            final(self).wf(),
            final(self).same_backends(old(self)),
            final(cross_check).wf(),
            final(cross_check).ident() == old(cross_check).ident(),
            final(self).states(final(cross_check)@) == old(self).states(old(cross_check)@).restored(
                states@,
            ),
            agrees(
                r,
                done(first_error(old(self).states(old(cross_check)@).errors(states@), 4)),
            ),
    {
        let ghost was = self.states(cross_check@);
        assert(was.restored_to(states@, 0) =~= was) by {
            reveal(CuratorsV::restored_to);
        }
        if let Err(e) = self.restore_librarian(states, Ghost(was), Ghost(cross_check@)) {
            proof {
                was.lemma_stopped(states@, 1);
            }
            return Err(e);
        }
        if let Err(e) = self.restore_warden(states, Ghost(was), Ghost(cross_check@)) {
            proof {
                was.lemma_stopped(states@, 2);
            }
            return Err(e);
        }
        if let Err(e) = self.restore_adjudicator(states, Ghost(was), Ghost(cross_check@)) {
            proof {
                was.lemma_stopped(states@, 3);
            }
            return Err(e);
        }
        if let Err(e) = self.restore_cross_check(cross_check, states, Ghost(was)) {
            proof {
                was.lemma_stopped(states@, 4);
            }
            return Err(e);
        }
        Ok(())
    }
}

impl CellsV {
    /// States that cells have: maps are finite and keyed by what they hold.
    pub open spec fn kept(self) -> bool {
        &&& self.catalog.wf() && self.catalog.entries.dom().finite()
        &&& self.fact.wf() && self.fact.facts.dom().finite()
        &&& self.timeline.wf() && self.timeline.streams.dom().finite()
        &&& self.scratchpad.wf() && self.scratchpad.entries.dom().finite()
        &&& keyed::<Playbook>(self.playbook) && self.playbook.dom().finite()
        &&& edges_wf(self.graph) && self.graph.dom().finite()
        &&& keyed::<BlobEntry>(self.blob) && self.blob.dom().finite()
        &&& self.agent_registry.wf() && self.agent_registry.agents.dom().finite()
            && self.agent_registry.revoked.dom().finite()
            && self.agent_registry.escalation.finite()
        &&& self.proposal.wf() && self.proposal.proposals.dom().finite()
        &&& self.subscription.wf() && self.subscription.subs.dom().finite()
    }

    /// Beside that, the vector index is true to its texts, and the tokens of a
    /// document are those of its text in a snapshot.
    pub open spec fn valid(self, sim: Nearness) -> bool {
        self.kept() && self.vector.true_to(sim) && joined_back(self.bm25)
    }

    /// Whatever cells held before, taking up the snapshots of others meets no
    /// error, and leaves them with the same snapshots, and so with the same state
    /// hashes.
    pub proof fn lemma_restore_all(self, before: CellsV, sim: Nearness)
        requires
            self.valid(sim),
        ensures
            first_error(before.errors(self.images()), 13) is None,
            before.restored(self.images(), sim).images() == self.images(),
            hashes_of(before.restored(self.images(), sim).images()) == hashes_of(self.images()),
    {
        let states = self.images();
        let es = before.errors(states);
        self.catalog.lemma_restore_snapshot();
        self.fact.lemma_restore_snapshot();
        self.timeline.lemma_restore_snapshot();
        self.scratchpad.lemma_restore_snapshot();
        lemma_playbook_restore(self.playbook);
        self.vector.lemma_rebuilt(before.vector, sim);
        lemma_docs_back(self.bm25);
        lemma_graph_restore(self.graph);
        lemma_blob_restore(self.blob);
        self.agent_registry.lemma_restore_snapshot();
        self.proposal.lemma_restore_snapshot();
        self.subscription.lemma_restore_snapshot();
        lemma_no_error(es, 13);
        reveal(CellsV::restored_to);
        let r = before.restored(states, sim);
        assert(r.scratchpad.image() == self.scratchpad.image());
        assert(r.images() =~= states);
    }
}

proof fn lemma_no_error(es: Seq<Option<ErrV>>, n: nat)
    requires
        n <= es.len(),
        forall|i: int| 0 <= i < n ==> #[trigger] es[i] is None,
    ensures
        forall|m: nat| m <= n ==> #[trigger] first_error(es, m) is None,
    decreases n,
{
    if n > 0 {
        lemma_no_error(es, (n - 1) as nat);
        assert(first_error(es, (n - 1) as nat) is None);
        assert(es[n - 1] is None);
        assert(first_error(es, n) is None);
    }
}

impl CuratorsV {
    /// States that curators have: maps are finite and keyed by what they hold, and
    /// digests are whole.
    pub open spec fn valid(self) -> bool {
        &&& self.librarian.wf() && self.librarian.outputs.dom().finite()
            && self.librarian.facets.dom().finite() && forall|k: Seq<char>| #[trigger]
            self.librarian.facets.contains_key(k) ==> self.librarian.facets[k].len() == 32
        &&& self.warden.wf() && self.warden.audits.dom().finite()
        &&& self.adjudicator.wf() && self.adjudicator.records.dom().finite()
    }

    /// Whatever curators held before, taking up the snapshots of others meets no
    /// error, and leaves them with the same snapshots, and so with the same state
    /// hashes.
    pub proof fn lemma_restore_all(self, before: CuratorsV)
        requires
            self.valid(),
        ensures
            first_error(before.errors(self.images()), 4) is None,
            before.restored(self.images()).images() == self.images(),
            hashes_of(before.restored(self.images()).images()) == hashes_of(self.images()),
    {
        let states = self.images();
        let es = before.errors(states);
        self.librarian.lemma_restore_snapshot();
        self.warden.lemma_restore_snapshot();
        self.adjudicator.lemma_restore_snapshot();
        self.cross_check.lemma_restore_snapshot(before.cross_check);
        lemma_no_error(es, 4);
        reveal(CuratorsV::restored_to);
        assert(before.restored(states).images() =~= states);
    }
}

} // verus!
