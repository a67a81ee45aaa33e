//! The cell abstraction and the catalog of cells.
//!
//! A cell is a single-writer state machine with a numeric id. Updates are
//! deterministic: the logical time comes in as an argument. A snapshot of a
//! cell's state restores to the same state.

pub mod proposal;
pub mod registry;
pub mod subscription;
pub mod graph;
pub mod hnsw;
pub mod index;
pub mod ranking;
pub mod blob;
pub mod cache;
pub mod playbook;
pub mod scratchpad;
pub mod timeline;
pub mod vector;
pub mod fact;

use vstd::prelude::*;
use crate::cbor::{
    lemma_field_at, lookup_from, map_value, missing_text, missing_uint, text_or_empty, u64_or_zero, views, Cbor,
    CborV,
};
use crate::idmap::{
    id_order, id_rows, id_unrows, lemma_id_rows_back, IdMap,
};
use crate::text::{dec_text, str_eq, u64_text};
use crate::textmap::TextMap;
use crate::vocab::{agrees, CellId, ErrCode, ErrV, SchemaId, UcError, UcResult};

verus! {

/// The kinds of cells: memory, index and coordination; governance; curators.
#[derive(Clone, Copy, Debug, PartialEq, Eq, Structural, PartialOrd, Ord)]
pub enum CellType {
    Catalog,
    Fact,
    Timeline,
    Playbook,
    Scratchpad,
    Vector,
    Graph,
    Bm25,
    Blob,
    Cache,
    AgentRegistry,
    Proposal,
    Subscription,
    Reranker,
    SpecAnchor,
    DecisionLedger,
    Congruence,
    Gap,
    Quarantine,
    WorkBudget,
    Contract,
    Librarian,
    Warden,
    Adjudicator,
    CrossCheckLedger,
}

impl CellType {
    /// The text that stands for a cell type.
    pub open spec fn name(self) -> Seq<char> {
        match self {
            CellType::Catalog => "Catalog"@,
            CellType::Fact => "Fact"@,
            CellType::Timeline => "Timeline"@,
            CellType::Playbook => "Playbook"@,
            CellType::Scratchpad => "Scratchpad"@,
            CellType::Vector => "Vector"@,
            CellType::Graph => "Graph"@,
            CellType::Bm25 => "BM25"@,
            CellType::Blob => "Blob"@,
            CellType::Cache => "Cache"@,
            CellType::AgentRegistry => "AgentRegistry"@,
            CellType::Proposal => "Proposal"@,
            CellType::Subscription => "Subscription"@,
            CellType::Reranker => "Reranker"@,
            CellType::SpecAnchor => "SpecAnchor"@,
            CellType::DecisionLedger => "DecisionLedger"@,
            CellType::Congruence => "Congruence"@,
            CellType::Gap => "Gap"@,
            CellType::Quarantine => "Quarantine"@,
            CellType::WorkBudget => "WorkBudget"@,
            CellType::Contract => "Contract"@,
            CellType::Librarian => "Librarian"@,
            CellType::Warden => "Warden"@,
            CellType::Adjudicator => "Adjudicator"@,
            CellType::CrossCheckLedger => "CrossCheckLedger"@,
        }
    }

    /// The cell type with that name.
    pub open spec fn named(s: Seq<char>) -> Option<CellType> {
        if s == "Catalog"@ {
            Some(CellType::Catalog)
        } else if s == "Fact"@ {
            Some(CellType::Fact)
        } else if s == "Timeline"@ {
            Some(CellType::Timeline)
        } else if s == "Playbook"@ {
            Some(CellType::Playbook)
        } else if s == "Scratchpad"@ {
            Some(CellType::Scratchpad)
        } else if s == "Vector"@ {
            Some(CellType::Vector)
        } else if s == "Graph"@ {
            Some(CellType::Graph)
        } else if s == "BM25"@ {
            Some(CellType::Bm25)
        } else if s == "Blob"@ {
            Some(CellType::Blob)
        } else if s == "Cache"@ {
            Some(CellType::Cache)
        } else if s == "AgentRegistry"@ {
            Some(CellType::AgentRegistry)
        } else if s == "Proposal"@ {
            Some(CellType::Proposal)
        } else if s == "Subscription"@ {
            Some(CellType::Subscription)
        } else if s == "Reranker"@ {
            Some(CellType::Reranker)
        } else if s == "SpecAnchor"@ {
            Some(CellType::SpecAnchor)
        } else if s == "DecisionLedger"@ {
            Some(CellType::DecisionLedger)
        } else if s == "Congruence"@ {
            Some(CellType::Congruence)
        } else if s == "Gap"@ {
            Some(CellType::Gap)
        } else if s == "Quarantine"@ {
            Some(CellType::Quarantine)
        } else if s == "WorkBudget"@ {
            Some(CellType::WorkBudget)
        } else if s == "Contract"@ {
            Some(CellType::Contract)
        } else if s == "Librarian"@ {
            Some(CellType::Librarian)
        } else if s == "Warden"@ {
            Some(CellType::Warden)
        } else if s == "Adjudicator"@ {
            Some(CellType::Adjudicator)
        } else if s == "CrossCheckLedger"@ {
            Some(CellType::CrossCheckLedger)
        } else {
            None
        }
    }

    pub fn as_str(&self) -> (r: &'static str)
        ensures
            r@ == self.name(),
    {
        match self {
            CellType::Catalog => "Catalog",
            CellType::Fact => "Fact",
            CellType::Timeline => "Timeline",
            CellType::Playbook => "Playbook",
            CellType::Scratchpad => "Scratchpad",
            CellType::Vector => "Vector",
            CellType::Graph => "Graph",
            CellType::Bm25 => "BM25",
            CellType::Blob => "Blob",
            CellType::Cache => "Cache",
            CellType::AgentRegistry => "AgentRegistry",
            CellType::Proposal => "Proposal",
            CellType::Subscription => "Subscription",
            CellType::Reranker => "Reranker",
            CellType::SpecAnchor => "SpecAnchor",
            CellType::DecisionLedger => "DecisionLedger",
            CellType::Congruence => "Congruence",
            CellType::Gap => "Gap",
            CellType::Quarantine => "Quarantine",
            CellType::WorkBudget => "WorkBudget",
            CellType::Contract => "Contract",
            CellType::Librarian => "Librarian",
            CellType::Warden => "Warden",
            CellType::Adjudicator => "Adjudicator",
            CellType::CrossCheckLedger => "CrossCheckLedger",
        }
    }

    /// The cell type with that name.
    pub fn parse(s: &str) -> (r: Option<CellType>)
        ensures
            r == CellType::named(s@),
    {
        if str_eq(s, "Catalog") {
            Some(CellType::Catalog)
        } else if str_eq(s, "Fact") {
            Some(CellType::Fact)
        } else if str_eq(s, "Timeline") {
            Some(CellType::Timeline)
        } else if str_eq(s, "Playbook") {
            Some(CellType::Playbook)
        } else if str_eq(s, "Scratchpad") {
            Some(CellType::Scratchpad)
        } else if str_eq(s, "Vector") {
            Some(CellType::Vector)
        } else if str_eq(s, "Graph") {
            Some(CellType::Graph)
        } else if str_eq(s, "BM25") {
            Some(CellType::Bm25)
        } else if str_eq(s, "Blob") {
            Some(CellType::Blob)
        } else if str_eq(s, "Cache") {
            Some(CellType::Cache)
        } else if str_eq(s, "AgentRegistry") {
            Some(CellType::AgentRegistry)
        } else if str_eq(s, "Proposal") {
            Some(CellType::Proposal)
        } else if str_eq(s, "Subscription") {
            Some(CellType::Subscription)
        } else if str_eq(s, "Reranker") {
            Some(CellType::Reranker)
        } else if str_eq(s, "SpecAnchor") {
            Some(CellType::SpecAnchor)
        } else if str_eq(s, "DecisionLedger") {
            Some(CellType::DecisionLedger)
        } else if str_eq(s, "Congruence") {
            Some(CellType::Congruence)
        } else if str_eq(s, "Gap") {
            Some(CellType::Gap)
        } else if str_eq(s, "Quarantine") {
            Some(CellType::Quarantine)
        } else if str_eq(s, "WorkBudget") {
            Some(CellType::WorkBudget)
        } else if str_eq(s, "Contract") {
            Some(CellType::Contract)
        } else if str_eq(s, "Librarian") {
            Some(CellType::Librarian)
        } else if str_eq(s, "Warden") {
            Some(CellType::Warden)
        } else if str_eq(s, "Adjudicator") {
            Some(CellType::Adjudicator)
        } else if str_eq(s, "CrossCheckLedger") {
            Some(CellType::CrossCheckLedger)
        } else {
            None
        }
    }

    /// Every cell type is found again by its name, and no two share one.
    pub proof fn lemma_named(a: CellType, b: CellType)
        ensures
            CellType::named(a.name()) == Some(a),
            a.name() == b.name() ==> a == b,
    {
        reveal_strlit("Catalog");
        reveal_strlit("Fact");
        reveal_strlit("Timeline");
        reveal_strlit("Playbook");
        reveal_strlit("Scratchpad");
        reveal_strlit("Vector");
        reveal_strlit("Graph");
        reveal_strlit("BM25");
        reveal_strlit("Blob");
        reveal_strlit("Cache");
        reveal_strlit("AgentRegistry");
        reveal_strlit("Proposal");
        reveal_strlit("Subscription");
        reveal_strlit("Reranker");
        reveal_strlit("SpecAnchor");
        reveal_strlit("DecisionLedger");
        reveal_strlit("Congruence");
        reveal_strlit("Gap");
        reveal_strlit("Quarantine");
        reveal_strlit("WorkBudget");
        reveal_strlit("Contract");
        reveal_strlit("Librarian");
        reveal_strlit("Warden");
        reveal_strlit("Adjudicator");
        reveal_strlit("CrossCheckLedger");
        assert("Catalog"@.len() == 7);
        assert("Fact"@.len() == 4);
        assert("Timeline"@.len() == 8);
        assert("Playbook"@.len() == 8);
        assert("Scratchpad"@.len() == 10);
        assert("Vector"@.len() == 6);
        assert("Graph"@.len() == 5);
        assert("BM25"@.len() == 4);
        assert("Blob"@.len() == 4);
        assert("Cache"@.len() == 5);
        assert("AgentRegistry"@.len() == 13);
        assert("Proposal"@.len() == 8);
        assert("Subscription"@.len() == 12);
        assert("Reranker"@.len() == 8);
        assert("SpecAnchor"@.len() == 10);
        assert("DecisionLedger"@.len() == 14);
        assert("Congruence"@.len() == 10);
        assert("Gap"@.len() == 3);
        assert("Quarantine"@.len() == 10);
        assert("WorkBudget"@.len() == 10);
        assert("Contract"@.len() == 8);
        assert("Librarian"@.len() == 9);
        assert("Warden"@.len() == 6);
        assert("Adjudicator"@.len() == 11);
        assert("CrossCheckLedger"@.len() == 16);
        assert("Fact"@[0] != "BM25"@[0]);
        assert("Fact"@[0] != "Blob"@[0]);
        assert("Timeline"@[0] != "Playbook"@[0]);
        assert("Timeline"@[0] != "Proposal"@[0]);
        assert("Timeline"@[0] != "Reranker"@[0]);
        assert("Timeline"@[0] != "Contract"@[0]);
        assert("Playbook"@[1] != "Proposal"@[1]);
        assert("Playbook"@[0] != "Reranker"@[0]);
        assert("Playbook"@[0] != "Contract"@[0]);
        assert("Scratchpad"@[1] != "SpecAnchor"@[1]);
        assert("Scratchpad"@[0] != "Congruence"@[0]);
        assert("Scratchpad"@[0] != "Quarantine"@[0]);
        assert("Scratchpad"@[0] != "WorkBudget"@[0]);
        assert("Vector"@[0] != "Warden"@[0]);
        assert("Graph"@[0] != "Cache"@[0]);
        assert("BM25"@[1] != "Blob"@[1]);
        assert("Proposal"@[0] != "Reranker"@[0]);
        assert("Proposal"@[0] != "Contract"@[0]);
        assert("Reranker"@[0] != "Contract"@[0]);
        assert("SpecAnchor"@[0] != "Congruence"@[0]);
        assert("SpecAnchor"@[0] != "Quarantine"@[0]);
        assert("SpecAnchor"@[0] != "WorkBudget"@[0]);
        assert("Congruence"@[0] != "Quarantine"@[0]);
        assert("Congruence"@[0] != "WorkBudget"@[0]);
        assert("Quarantine"@[0] != "WorkBudget"@[0]);
    }

    /// Whether the cell belongs to governance.
    pub fn is_trinity(&self) -> (r: bool)
        ensures
            r == match self {
                CellType::SpecAnchor | CellType::DecisionLedger | CellType::Congruence
                | CellType::Gap | CellType::Quarantine | CellType::WorkBudget
                | CellType::Contract => true,
                _ => false,
            },
    {
        matches!(
            self,
            CellType::SpecAnchor
                | CellType::DecisionLedger
                | CellType::Congruence
                | CellType::Gap
                | CellType::Quarantine
                | CellType::WorkBudget
                | CellType::Contract
        )
    }

    /// Whether the cell belongs to the curators.
    pub fn is_curator(&self) -> (r: bool)
        ensures
            r == match self {
                CellType::Librarian | CellType::Warden | CellType::Adjudicator
                | CellType::CrossCheckLedger => true,
                _ => false,
            },
    {
        matches!(
            self,
            CellType::Librarian
                | CellType::Warden
                | CellType::Adjudicator
                | CellType::CrossCheckLedger
        )
    }

    /// Whether writes to the cell need no anchor: ephemeral working memory.
    pub fn anchor_exempt(&self) -> (r: bool)
        ensures
            r == (*self is Scratchpad || *self is Cache),
    {
        matches!(self, CellType::Scratchpad | CellType::Cache)
    }
}

/// What every cell offers.
pub trait CellBehavior {
    /// What holds of the state between calls.
    spec fn wf(&self) -> bool;

    /// No counter of the cell would pass its limit in this update.
    spec fn accepts(&self, logical_at: u64, update: CborV) -> bool;

    /// The snapshot has the shape that the cell writes.
    spec fn restorable(state: CborV) -> bool;

    fn cell_id(&self) -> CellId;

    fn cell_type(&self) -> CellType;

    fn schema_id(&self) -> SchemaId;

    /// Reads; changes nothing.
    fn on_query(&self, logical_at: u64, query: &Cbor) -> (r: UcResult<Cbor>)
        requires
            self.wf(),
    ;

    /// Writes.
    fn on_update(&mut self, logical_at: u64, update: &Cbor) -> (r: UcResult<Cbor>)
        requires
            old(self).wf(),
            old(self).accepts(logical_at, update@),
        ensures
            final(self).wf(),
    ;

    /// The whole state as one value.
    fn snapshot_state(&self) -> (r: Cbor)
        requires
            self.wf(),
    ;

    /// Takes the state from a snapshot.
    fn restore_state(&mut self, state: &Cbor) -> (r: UcResult<()>)
        requires
            Self::restorable(state@),
        ensures
            final(self).wf(),
    ;
}

/// The list under a key, empty where there is none.
pub open spec fn list_or_empty<T>(m: Map<Seq<char>, Seq<T>>, k: Seq<char>) -> Seq<T> {
    if m.contains_key(k) {
        m[k]
    } else {
        Seq::empty()
    }
}

/// A registered cell.
#[derive(Debug)]
pub struct CatalogEntry {
    pub cell_id: u64,
    pub cell_type: String,
    pub namespace: String,
    pub schema_id: String,
    pub registered_at: u64,
}

/// A registered cell as a mathematical object.
#[verifier::ext_equal]
pub struct CatalogEntryV {
    pub cell_id: u64,
    pub cell_type: Seq<char>,
    pub namespace: Seq<char>,
    pub schema_id: Seq<char>,
    pub registered_at: u64,
}

impl DeepView for CatalogEntry {
    type V = CatalogEntryV;

    open spec fn deep_view(&self) -> CatalogEntryV {
        CatalogEntryV {
            cell_id: self.cell_id,
            cell_type: self.cell_type@,
            namespace: self.namespace@,
            schema_id: self.schema_id@,
            registered_at: self.registered_at,
        }
    }
}

impl Clone for CatalogEntry {
    fn clone(&self) -> (r: CatalogEntry)
        ensures
            r.deep_view() == self.deep_view(),
    {
        CatalogEntry {
            cell_id: self.cell_id,
            cell_type: self.cell_type.clone(),
            namespace: self.namespace.clone(),
            schema_id: self.schema_id.clone(),
            registered_at: self.registered_at,
        }
    }
}

impl CatalogEntryV {
    /// The encoded form of a registered cell.
    pub open spec fn value(self) -> CborV {
        map_value(
            seq![
                ("cell_id"@, CborV::U64(self.cell_id)),
                ("cell_type"@, CborV::Text(self.cell_type)),
                ("namespace"@, CborV::Text(self.namespace)),
                ("schema_id"@, CborV::Text(self.schema_id)),
                ("registered_at"@, CborV::U64(self.registered_at)),
            ],
        )
    }

    /// What an encoded form says; the first required field that is missing is the
    /// error.
    pub open spec fn read(v: CborV) -> Result<CatalogEntryV, ErrV> {
        if v.u64_field("cell_id"@) is None {
            Err((ErrCode::Internal, missing_uint("cell_id"@)))
        } else if v.text_field("cell_type"@) is None {
            Err((ErrCode::Internal, missing_text("cell_type"@)))
        } else {
            Ok(
                CatalogEntryV {
                    cell_id: v.u64_field("cell_id"@)->0,
                    cell_type: v.text_field("cell_type"@)->0,
                    namespace: text_or_empty(v, "namespace"@),
                    schema_id: text_or_empty(v, "schema_id"@),
                    registered_at: u64_or_zero(v, "registered_at"@),
                },
            )
        }
    }

    /// Reading gives back what was encoded.
    pub proof fn lemma_read_back(self)
        ensures
            CatalogEntryV::read(self.value()) == Ok::<_, ErrV>(self),
            self.value().field("cell_id"@) == Some(CborV::U64(self.cell_id)),
            self.value().field("cell_type"@) == Some(CborV::Text(self.cell_type)),
            self.value().field("namespace"@) == Some(CborV::Text(self.namespace)),
            self.value().field("schema_id"@) == Some(CborV::Text(self.schema_id)),
            self.value().field("registered_at"@) == Some(CborV::U64(self.registered_at)),
    {
        reveal_strlit("cell_id");
        reveal_strlit("cell_type");
        reveal_strlit("namespace");
        reveal_strlit("schema_id");
        reveal_strlit("registered_at");
        assert("cell_id"@.len() == 7);
        assert("cell_type"@.len() == 9);
        assert("namespace"@.len() == 9);
        assert("schema_id"@.len() == 9);
        assert("registered_at"@.len() == 13);
        assert("cell_type"@[0] != "namespace"@[0]);
        assert("cell_type"@[0] != "schema_id"@[0]);
        assert("namespace"@[0] != "schema_id"@[0]);
        reveal_with_fuel(lookup_from, 6);
        let m = self.value()->Pairs_0;
        assert(m[0].0 == CborV::Text("cell_id"@));
        assert(m[1].0 == CborV::Text("cell_type"@));
        assert(m[2].0 == CborV::Text("namespace"@));
        assert(m[3].0 == CborV::Text("schema_id"@));
        assert(m[4].0 == CborV::Text("registered_at"@));
        assert(self.value().field("cell_id"@) == Some(CborV::U64(self.cell_id)));
        assert(self.value().field("cell_type"@) == Some(CborV::Text(self.cell_type)));
        assert(self.value().field("namespace"@) == Some(CborV::Text(self.namespace)));
        assert(self.value().field("schema_id"@) == Some(CborV::Text(self.schema_id)));
        assert(self.value().field("registered_at"@) == Some(CborV::U64(self.registered_at)));
    }

}

impl CatalogEntry {
    fn to_cbor(&self) -> (r: Cbor)
        ensures
            r@ == self.deep_view().value(),
    {
        let pairs = vec![
            ("cell_id", Cbor::U64(self.cell_id)),
            ("cell_type", Cbor::t(self.cell_type.as_str())),
            ("namespace", Cbor::t(self.namespace.as_str())),
            ("schema_id", Cbor::t(self.schema_id.as_str())),
            ("registered_at", Cbor::U64(self.registered_at)),
        ];
        let ghost want = seq![
            ("cell_id"@, CborV::U64(self.cell_id)),
            ("cell_type"@, CborV::Text(self.cell_type@)),
            ("namespace"@, CborV::Text(self.namespace@)),
            ("schema_id"@, CborV::Text(self.schema_id@)),
            ("registered_at"@, CborV::U64(self.registered_at)),
        ];
        assert(Seq::new(pairs@.len(), |i: int| (pairs@[i].0@, pairs@[i].1@)) =~= want);
        Cbor::map(pairs)
    }

    fn from_cbor(c: &Cbor) -> (r: UcResult<CatalogEntry>)
        ensures
            agrees(r, CatalogEntryV::read(c@)),
    {
        let cell_id = match c.req_u64("cell_id") {
            Ok(x) => x,
            Err(e) => {
                return Err(e);
            },
        };
        let cell_type = match c.req_str("cell_type") {
            Ok(x) => x,
            Err(e) => {
                return Err(e);
            },
        };
        let namespace = c.str_or_empty("namespace");
        let schema_id = c.str_or_empty("schema_id");
        let registered_at: u64 = c.u64_or_zero("registered_at");
        Ok(CatalogEntry { cell_id, cell_type, namespace, schema_id, registered_at })
    }
}

impl CatalogEntryV {
    /// The encoded form of a registered cell without its time.
    pub open spec fn brief(self) -> CborV {
        map_value(
            seq![
                ("cell_id"@, CborV::U64(self.cell_id)),
                ("cell_type"@, CborV::Text(self.cell_type)),
                ("namespace"@, CborV::Text(self.namespace)),
                ("schema_id"@, CborV::Text(self.schema_id)),
            ],
        )
    }

    /// The short form names the cell, its type, its namespace and its schema.
    pub proof fn lemma_brief(self)
        ensures
            self.brief().u64_field("cell_id"@) == Some(self.cell_id),
            self.brief().text_field("cell_type"@) == Some(self.cell_type),
            self.brief().text_field("namespace"@) == Some(self.namespace),
            self.brief().text_field("schema_id"@) == Some(self.schema_id),
    {
        let p = seq![
            ("cell_id"@, CborV::U64(self.cell_id)),
            ("cell_type"@, CborV::Text(self.cell_type)),
            ("namespace"@, CborV::Text(self.namespace)),
            ("schema_id"@, CborV::Text(self.schema_id)),
        ];
        reveal_strlit("cell_id");
        reveal_strlit("cell_type");
        reveal_strlit("namespace");
        reveal_strlit("schema_id");
        assert("cell_id"@.len() == 7 && "cell_type"@.len() == 9);
        assert("namespace"@.len() == 9 && "schema_id"@.len() == 9);
        assert("cell_type"@[0] != "namespace"@[0] && "cell_type"@[0] != "schema_id"@[0]
            && "namespace"@[0] != "schema_id"@[0]);
        lemma_field_at(p, 0);
        lemma_field_at(p, 1);
        lemma_field_at(p, 2);
        lemma_field_at(p, 3);
    }
}

impl CatalogEntry {
    fn to_brief(&self) -> (r: Cbor)
        ensures
            r@ == self.deep_view().brief(),
    {
        let pairs = vec![
            ("cell_id", Cbor::U64(self.cell_id)),
            ("cell_type", Cbor::t(self.cell_type.as_str())),
            ("namespace", Cbor::t(self.namespace.as_str())),
            ("schema_id", Cbor::t(self.schema_id.as_str())),
        ];
        let ghost want = seq![
            ("cell_id"@, CborV::U64(self.cell_id)),
            ("cell_type"@, CborV::Text(self.cell_type@)),
            ("namespace"@, CborV::Text(self.namespace@)),
            ("schema_id"@, CborV::Text(self.schema_id@)),
        ];
        assert(Seq::new(pairs@.len(), |i: int| (pairs@[i].0@, pairs@[i].1@)) =~= want);
        Cbor::map(pairs)
    }
}

/// The state of the catalog.
#[verifier::ext_equal]
pub struct CatalogV {
    pub entries: Map<u64, CatalogEntryV>,
    pub namespaces: Map<Seq<char>, Seq<u64>>,
}

/// The row of an entry in a snapshot.
pub open spec fn catalog_row() -> spec_fn(u64, CatalogEntryV) -> CborV {
    |k: u64, e: CatalogEntryV| e.value()
}

/// The row of an entry in a listing.
pub open spec fn catalog_brief_row() -> spec_fn(u64, CatalogEntryV) -> CborV {
    |k: u64, e: CatalogEntryV| e.brief()
}

/// An entry read from a row of a snapshot.
pub open spec fn catalog_read() -> spec_fn(CborV) -> Result<(u64, CatalogEntryV), ErrV> {
    |v: CborV|
        match CatalogEntryV::read(v) {
            Ok(e) => Ok((e.cell_id, e)),
            Err(x) => Err(x),
        }
}

impl CatalogV {
    pub open spec fn empty() -> CatalogV {
        CatalogV { entries: Map::empty(), namespaces: Map::empty() }
    }

    /// Each entry is under its own id.
    pub open spec fn wf(self) -> bool {
        forall|k: u64| #[trigger] self.entries.contains_key(k) ==> self.entries[k].cell_id == k
    }

    /// One entry more: under its id, and at the end of its namespace's list.
    pub open spec fn register(self, e: CatalogEntryV) -> CatalogV {
        CatalogV {
            entries: self.entries.insert(e.cell_id, e),
            namespaces: self.namespaces.insert(
                e.namespace,
                list_or_empty(self.namespaces, e.namespace).push(e.cell_id),
            ),
        }
    }

    /// The answer to a query.
    pub open spec fn answer(self, q: CborV) -> Result<CborV, ErrV> {
        if q.text_field("op"@) == Some("list"@) {
            Ok(map_value(seq![("cells"@, CborV::Array(id_rows(self.entries, catalog_brief_row())))]))
        } else if q.text_field("op"@) == Some("lookup"@) {
            match q.u64_field("cell_id"@) {
                None => Err((ErrCode::Internal, missing_uint("cell_id"@))),
                Some(id) => if self.entries.contains_key(id) {
                    Ok(self.entries[id].brief())
                } else {
                    Err((ErrCode::NotFound, "cell "@ + dec_text(id as nat) + " not in catalog"@))
                },
            }
        } else {
            Err((ErrCode::ContractViolation, "catalog: unknown op"@))
        }
    }

    /// The entry that an update asks to register.
    pub open spec fn entry_of(at: u64, u: CborV) -> Result<CatalogEntryV, ErrV> {
        if u.u64_field("cell_id"@) is None {
            Err((ErrCode::Internal, missing_uint("cell_id"@)))
        } else if u.text_field("cell_type"@) is None {
            Err((ErrCode::Internal, missing_text("cell_type"@)))
        } else {
            Ok(
                CatalogEntryV {
                    cell_id: u.u64_field("cell_id"@)->0,
                    cell_type: u.text_field("cell_type"@)->0,
                    namespace: match u.text_field("namespace"@) {
                        Some(s) => s,
                        None => "default"@,
                    },
                    schema_id: text_or_empty(u, "schema_id"@),
                    registered_at: at,
                },
            )
        }
    }

    /// A cell that is registered is found under its id, with its type, its namespace and
    /// its schema, and at the end of its namespace's list. Every other entry stays as it
    /// was. Without an id or a type nothing is registered.
    pub proof fn lemma_registered(self, at: u64, u: CborV, q: CborV, other: u64)
        requires
            q.text_field("op"@) == Some("lookup"@),
            q.u64_field("cell_id"@) is Some,
        ensures
            CatalogV::entry_of(at, u) is Ok <==> u.u64_field("cell_id"@) is Some && u.text_field(
                "cell_type"@,
            ) is Some,
            CatalogV::entry_of(at, u) is Ok ==> {
                let e = CatalogV::entry_of(at, u)->Ok_0;
                let st = self.register(e);
                let id = u.u64_field("cell_id"@)->0;
                let a = st.answer(q)->Ok_0;
                &&& e.registered_at == at
                &&& u.text_field("namespace"@) is None ==> e.namespace == "default"@
                &&& q.u64_field("cell_id"@) == Some(id) ==> {
                    &&& st.answer(q) is Ok
                    &&& a.u64_field("cell_id"@) == Some(id)
                    &&& a.text_field("cell_type"@) == u.text_field("cell_type"@)
                    &&& u.text_field("namespace"@) is Some ==> a.text_field("namespace"@)
                        == u.text_field("namespace"@)
                    &&& u.text_field("schema_id"@) is Some ==> a.text_field("schema_id"@)
                        == u.text_field("schema_id"@)
                }
                &&& q.u64_field("cell_id"@) != Some(id) ==> st.answer(q) == self.answer(q)
                &&& st.namespaces.contains_key(e.namespace) && st.namespaces[e.namespace].len() > 0
                    && st.namespaces[e.namespace].last() == id
                &&& other != id ==> (st.entries.contains_key(other) <==> self.entries.contains_key(
                    other,
                )) && (self.entries.contains_key(other) ==> st.entries[other]
                    == self.entries[other])
            },
    {
        reveal_strlit("list");
        reveal_strlit("lookup");
        assert("list"@.len() == 4 && "lookup"@.len() == 6);
        if CatalogV::entry_of(at, u) is Ok {
            CatalogV::entry_of(at, u)->Ok_0.lemma_brief();
        }
    }

    /// The snapshot of the state.
    pub open spec fn image(self) -> CborV {
        map_value(seq![("entries"@, CborV::Array(id_rows(self.entries, catalog_row())))])
    }

    /// The state after these rows, and the error that ended it.
    pub open spec fn restored(items: Seq<CborV>) -> (CatalogV, Option<ErrV>)
        decreases items.len(),
    {
        if items.len() == 0 {
            (CatalogV::empty(), None)
        } else {
            let (st, e) = CatalogV::restored(items.drop_last());
            if e is Some {
                (st, e)
            } else {
                match CatalogEntryV::read(items.last()) {
                    Ok(x) => (st.register(x), None),
                    Err(x) => (st, Some(x)),
                }
            }
        }
    }

    /// What a snapshot restores to.
    pub open spec fn from_image(v: CborV) -> (CatalogV, Option<ErrV>) {
        match v.array_field("entries"@) {
            Some(a) => CatalogV::restored(a),
            None => (CatalogV::empty(), None),
        }
    }

    proof fn lemma_restored(items: Seq<CborV>)
        ensures
            CatalogV::restored(items).0.entries == id_unrows(items, catalog_read()).0,
            CatalogV::restored(items).1 == id_unrows(items, catalog_read()).1,
            CatalogV::restored(items).0.wf(),
        decreases items.len(),
    {
        if items.len() > 0 {
            CatalogV::lemma_restored(items.drop_last());
        }
    }

    proof fn lemma_stops(items: Seq<CborV>, n: int)
        requires
            0 <= n <= items.len(),
            CatalogV::restored(items.take(n)).1 is Some,
        ensures
            CatalogV::restored(items) == CatalogV::restored(items.take(n)),
        decreases items.len(),
    {
        if n < items.len() {
            assert(items.drop_last().take(n) =~= items.take(n));
            CatalogV::lemma_stops(items.drop_last(), n);
        } else {
            assert(items.take(n) =~= items);
        }
    }

    /// A snapshot restores to the same entries, without error, and so to a
    /// state with the same snapshot.
    pub proof fn lemma_restore_snapshot(self)
        requires
            self.wf(),
            self.entries.dom().finite(),
        ensures
            CatalogV::from_image(self.image()).0.entries == self.entries,
            CatalogV::from_image(self.image()).1 is None,
            CatalogV::from_image(self.image()).0.image() == self.image(),
    {
        let items = id_rows(self.entries, catalog_row());
        let pairs = self.image()->Pairs_0;
        assert(pairs[0].0 == CborV::Text("entries"@));
        assert(self.image().field("entries"@) == Some(CborV::Array(items)));
        assert forall|k: u64| self.entries.contains_key(k) implies #[trigger] catalog_read()(
            catalog_row()(k, self.entries[k]),
        ) == Ok::<_, ErrV>((k, self.entries[k])) by {
            self.entries[k].lemma_read_back();
        }
        lemma_id_rows_back(self.entries, catalog_row(), catalog_read());
        CatalogV::lemma_restored(items);
    }
}

/// The registry of cells and namespaces.
#[derive(Debug)]
pub struct CatalogCell {
    pub id: CellId,
    entries: IdMap<CatalogEntry>,
    namespaces: TextMap<Vec<u64>>,
}

impl View for CatalogCell {
    type V = CatalogV;

    closed spec fn view(&self) -> CatalogV {
        CatalogV { entries: self.entries@, namespaces: self.namespaces@ }
    }
}

/// A copy of a list of ids.
fn dup_ids(v: &Vec<u64>) -> (r: Vec<u64>)
    ensures
        r@ == v.deep_view(),
        r.deep_view() == v.deep_view(),
{
    let mut out: Vec<u64> = Vec::new();
    let mut i: usize = 0;
    while i < v.len()
        invariant
            i <= v@.len(),
            out@ == v@.take(i as int),
        decreases v.len() - i,
    {
        out.push(v[i]);
        i += 1;
        assert(out@ =~= v@.take(i as int));
    }
    assert(out@ =~= v@);
    assert(out@ =~= v.deep_view());
    out
}

impl CatalogCell {
    /// The id of the cell.
    pub closed spec fn ident(&self) -> CellId {
        self.id
    }

    pub fn new(id: CellId) -> (r: Self)
        ensures
            r.ident() == id,
            r@ == CatalogV::empty(),
    {
        CatalogCell { id, entries: IdMap::new(), namespaces: TextMap::new() }
    }

    /// Registers a cell.
    pub fn register(&mut self, entry: CatalogEntry)
        ensures
            final(self)@ == old(self)@.register(entry.deep_view()),
            final(self).ident() == old(self).ident(),
            old(self)@.wf() ==> final(self)@.wf(),
    {
        let ghost was = self@;
        let ghost e = entry.deep_view();
        let mut ids: Vec<u64> = match self.namespaces.remove(entry.namespace.as_str()) {
            Some(v) => v,
            None => Vec::new(),
        };
        let ghost ids0 = ids.deep_view();
        assert(ids0 =~= list_or_empty(was.namespaces, e.namespace));
        ids.push(entry.cell_id);
        assert(ids.deep_view() =~= ids0.push(entry.cell_id));
        self.namespaces.insert(entry.namespace.clone(), ids);
        self.entries.insert(entry.cell_id, entry);
        assert(self@.namespaces =~= was.register(e).namespaces);
    }

    pub fn lookup(&self, cell_id: u64) -> (r: Option<&CatalogEntry>)
        ensures
            match r {
                Some(e) => self@.entries.contains_key(cell_id) && e.deep_view()
                    == self@.entries[cell_id],
                None => !self@.entries.contains_key(cell_id),
            },
    {
        self.entries.get(cell_id)
    }

    /// The ids registered in a namespace, in order of registration.
    pub fn cells_in_namespace(&self, ns: &str) -> (r: Vec<u64>)
        ensures
            r@ == list_or_empty(self@.namespaces, ns@),
    {
        match self.namespaces.get(ns) {
            Some(v) => dup_ids(v),
            None => Vec::new(),
        }
    }

    pub fn len(&self) -> (r: usize)
        ensures
            r == self@.entries.dom().len(),
            self@.entries.dom().finite(),
    {
        self.entries.len()
    }

    pub fn is_empty(&self) -> (r: bool)
        ensures
            r == (self@.entries == Map::<u64, CatalogEntryV>::empty()),
    {
        let n: usize = self.entries.len();
        proof {
            let o = id_order(self@.entries.dom());
            if n == 0 {
                assert forall|k: u64| !self@.entries.contains_key(k) by {
                    if self@.entries.dom().contains(k) {
                        assert(o.contains(k));
                    }
                }
                assert(self@.entries =~= Map::<u64, CatalogEntryV>::empty());
            } else {
                assert(o.contains(o[0]));
                assert(self@.entries.dom().contains(o[0]));
            }
        }
        n == 0
    }
}

impl CellBehavior for CatalogCell {
    open spec fn wf(&self) -> bool {
        self@.wf()
    }

    open spec fn accepts(&self, logical_at: u64, update: CborV) -> bool {
        true
    }

    open spec fn restorable(state: CborV) -> bool {
        true
    }

    fn cell_id(&self) -> (r: CellId)
        ensures
            r == self.ident(),
    {
        self.id
    }

    fn cell_type(&self) -> (r: CellType)
        ensures
            r == CellType::Catalog,
    {
        CellType::Catalog
    }

    fn schema_id(&self) -> (r: SchemaId)
        ensures
            r.0@ == "catalog.v1"@,
    {
        SchemaId::new("catalog.v1")
    }

    fn on_query(&self, _at: u64, query: &Cbor) -> (r: UcResult<Cbor>)
        ensures
            agrees(r, self@.answer(query@)),
    {
        let op = query.opt_str("op");
        if let Some(op) = op {
            if str_eq(op.as_str(), "list") {
                let mut items: Vec<Cbor> = Vec::new();
                let mut i: usize = 0;
                let n: usize = self.entries.len();
                let ghost want = id_rows(self.entries@, catalog_brief_row());
                assert(views(items@) =~= want.take(0));
                while i < n
                    invariant
                        i <= n == self.entries.order().len(),
                        self.entries.order() == id_order(self.entries@.dom()),
                        want == id_rows(self.entries@, catalog_brief_row()),
                        views(items@) == want.take(i as int),
                    decreases n - i,
                {
                    let ghost before = views(items@);
                    let row = self.entries.value_at(i).to_brief();
                    items.push(row);
                    assert(views(items@) =~= before.push(row@));
                    i += 1;
                    assert(want.take(i as int) =~= want.take(i - 1).push(want[i - 1]));
                }
                assert(want.take(n as int) =~= want);
                let pairs = vec![("cells", Cbor::arr(items))];
                assert(Seq::new(pairs@.len(), |i: int| (pairs@[i].0@, pairs@[i].1@)) =~= seq![
                    ("cells"@, CborV::Array(want)),
                ]);
                return Ok(Cbor::map(pairs));
            }
            if str_eq(op.as_str(), "lookup") {
                let id: u64 = match query.req_u64("cell_id") {
                    Ok(x) => x,
                    Err(e) => {
                        return Err(e);
                    },
                };
                return match self.lookup(id) {
                    Some(e) => Ok(e.to_brief()),
                    None => {
                        let mut m = "cell ".to_owned();
                        m.append(u64_text(id).as_str());
                        m.append(" not in catalog");
                        Err(UcError::not_found(m.as_str()))
                    },
                };
            }
        }
        Err(UcError::schema("catalog: unknown op"))
    }

    fn on_update(&mut self, at: u64, update: &Cbor) -> (r: UcResult<Cbor>)
        ensures
            final(self).ident() == old(self).ident(),
            match CatalogV::entry_of(at, update@) {
                Ok(e) => final(self)@ == old(self)@.register(e) && agrees(
                    r,
                    Ok(map_value(seq![("registered"@, CborV::U64(e.cell_id))])),
                ),
                Err(x) => final(self)@ == old(self)@ && agrees(r, Err(x)),
            },
    {
        let cell_id: u64 = match update.req_u64("cell_id") {
            Ok(x) => x,
            Err(e) => {
                return Err(e);
            },
        };
        let cell_type = match update.req_str("cell_type") {
            Ok(x) => x,
            Err(e) => {
                return Err(e);
            },
        };
        let namespace = match update.opt_str("namespace") {
            Some(s) => s,
            None => "default".to_owned(),
        };
        let schema_id = update.str_or_empty("schema_id");
        self.register(CatalogEntry { cell_id, cell_type, namespace, schema_id, registered_at: at });
        let pairs = vec![("registered", Cbor::U64(cell_id))];
        assert(Seq::new(pairs@.len(), |i: int| (pairs@[i].0@, pairs@[i].1@)) =~= seq![
            ("registered"@, CborV::U64(cell_id)),
        ]);
        Ok(Cbor::map(pairs))
    }

    fn snapshot_state(&self) -> (r: Cbor)
        ensures
            r@ == self@.image(),
            self@.entries.dom().finite(),
    {
        let mut items: Vec<Cbor> = Vec::new();
        let mut i: usize = 0;
        let n: usize = self.entries.len();
        let ghost want = id_rows(self.entries@, catalog_row());
        assert(views(items@) =~= want.take(0));
        while i < n
            invariant
                i <= n == self.entries.order().len(),
                self.entries.order() == id_order(self.entries@.dom()),
                want == id_rows(self.entries@, catalog_row()),
                views(items@) == want.take(i as int),
            decreases n - i,
        {
            let ghost before = views(items@);
            let row = self.entries.value_at(i).to_cbor();
            items.push(row);
            assert(views(items@) =~= before.push(row@));
            i += 1;
            assert(want.take(i as int) =~= want.take(i - 1).push(want[i - 1]));
        }
        assert(want.take(n as int) =~= want);
        let pairs = vec![("entries", Cbor::arr(items))];
        assert(Seq::new(pairs@.len(), |i: int| (pairs@[i].0@, pairs@[i].1@)) =~= seq![
            ("entries"@, CborV::Array(want)),
        ]);
        Cbor::map(pairs)
    }

    fn restore_state(&mut self, state: &Cbor) -> (r: UcResult<()>)
        ensures
            final(self).ident() == old(self).ident(),
            final(self)@ == CatalogV::from_image(state@).0,
            agrees(
                r,
                match CatalogV::from_image(state@).1 {
                    Some(x) => Err(x),
                    None => Ok(()),
                },
            ),
    {
        self.entries = IdMap::new();
        self.namespaces = TextMap::new();
        assert(self@ =~= CatalogV::empty());
        if let Some(arr) = state.opt_array("entries") {
            let ghost items = views(arr@);
            let mut i: usize = 0;
            assert(CatalogV::restored(items.take(0)).0 == self@);
            while i < arr.len()
                invariant
                    i <= arr@.len(),
                    items == views(arr@),
                    self.ident() == old(self).ident(),
                    self@.wf(),
                    CatalogV::restored(items.take(i as int)) == (self@, None::<ErrV>),
                    CatalogV::from_image(state@) == CatalogV::restored(items),
                decreases arr.len() - i,
            {
                assert(items.take(i + 1).drop_last() =~= items.take(i as int));
                assert(items.take(i + 1).last() == arr@[i as int]@);
                match CatalogEntry::from_cbor(&arr[i]) {
                    Ok(e) => {
                        self.register(e);
                    },
                    Err(e) => {
                        proof {
                            CatalogV::lemma_stops(items, i + 1);
                        }
                        return Err(e);
                    },
                }
                i += 1;
            }
            assert(items.take(items.len() as int) =~= items);
        }
        Ok(())
    }
}

impl Default for CatalogCell {
    fn default() -> (r: CatalogCell)
        ensures
            r.ident().0 == 0,
            r@ == CatalogV::empty(),
    {
        CatalogCell::new(CellId(0))
    }
}

} // verus!
