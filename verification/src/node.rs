//! The node: its cells' numbers, which shard a handle belongs to, when a
//! snapshot is due, and what curators see of it.

use vstd::prelude::*;
use crate::cbor::{text_or_empty, views, Cbor, CborV};
use crate::cells::blob::BlobCell;
use crate::cells::fact::{FactCell, FactV};
use crate::codec::enc;
use crate::curator::{is_private_facet, private_handle, SubstrateView};
use crate::digest::{sha256, sha_of};
use crate::idmap::IdMap;
use crate::persist::kms::{EncryptionTier, Kms, RingV};
use crate::persist::wal::{
    nonce_input, payload_nonce, payload_purpose, purpose_of, FrameV, WalFrame,
};
use crate::text::{starts, str_starts};
use crate::textmap::TextMap;
use crate::vocab::{fnv1a64, fnv_of};
use vstd::string::StringSliceAdditionalSpecFns;
use vstd::utf8::encode_utf8;

verus! {

/// The number of the catalog cell.
pub const CATALOG_ID: u64 = 1;

/// The number of the fact cell.
pub const FACT_ID: u64 = 2;

/// The number of the timeline cell.
pub const TIMELINE_ID: u64 = 3;

/// The number of the scratchpad cell.
pub const SCRATCHPAD_ID: u64 = 4;

/// The number of the playbook cell.
pub const PLAYBOOK_ID: u64 = 5;

/// The number of the vector cell.
pub const VECTOR_ID: u64 = 6;

/// The number of the bm25 cell.
pub const BM25_ID: u64 = 7;

/// The number of the graph cell.
pub const GRAPH_ID: u64 = 8;

/// The number of the reranker cell.
pub const RERANKER_ID: u64 = 9;

/// The number of the blob cell.
pub const BLOB_ID: u64 = 10;

/// The number of the agent registry cell.
pub const AGENT_REGISTRY_ID: u64 = 11;

/// The number of the proposal cell.
pub const PROPOSAL_ID: u64 = 12;

/// The number of the subscription cell.
pub const SUBSCRIPTION_ID: u64 = 13;

/// The number of the cache cell.
pub const CACHE_ID: u64 = 14;

/// The number of the contract cell.
pub const CONTRACT_ID: u64 = 20;

/// The number of the spec anchor cell.
pub const SPEC_ANCHOR_ID: u64 = 21;

/// The number of the decision ledger cell.
pub const DECISION_LEDGER_ID: u64 = 22;

/// The number of the work budget cell.
pub const WORK_BUDGET_ID: u64 = 23;

/// The number of the congruence cell.
pub const CONGRUENCE_ID: u64 = 24;

/// The number of the gap cell.
pub const GAP_ID: u64 = 25;

/// The number of the quarantine cell.
pub const QUARANTINE_ID: u64 = 26;

/// The number of the librarian cell.
pub const LIBRARIAN_ID: u64 = 30;

/// The number of the warden cell.
pub const WARDEN_ID: u64 = 31;

/// The number of the adjudicator cell.
pub const ADJUDICATOR_ID: u64 = 32;

/// The number of the cross check cell.
pub const CROSS_CHECK_ID: u64 = 33;

/// The numbers of all cells.
pub open spec fn cell_ids() -> Seq<u64> {
    seq![
        CATALOG_ID,
        FACT_ID,
        TIMELINE_ID,
        SCRATCHPAD_ID,
        PLAYBOOK_ID,
        VECTOR_ID,
        BM25_ID,
        GRAPH_ID,
        RERANKER_ID,
        BLOB_ID,
        AGENT_REGISTRY_ID,
        PROPOSAL_ID,
        SUBSCRIPTION_ID,
        CACHE_ID,
        CONTRACT_ID,
        SPEC_ANCHOR_ID,
        DECISION_LEDGER_ID,
        WORK_BUDGET_ID,
        CONGRUENCE_ID,
        GAP_ID,
        QUARANTINE_ID,
        LIBRARIAN_ID,
        WARDEN_ID,
        ADJUDICATOR_ID,
        CROSS_CHECK_ID,
    ]
}

/// No two cells share a number: a frame of the log names one cell.
pub proof fn lemma_ids_distinct(i: int, j: int)
    requires
        0 <= i < j < cell_ids().len(),
    ensures
        cell_ids()[i] != cell_ids()[j],
{
}

/// How long a snapshot may hold the node up, in microseconds.
pub const SNAPSHOT_PAUSE_TARGET_US: u64 = 50_000;

/// After how much logical time a snapshot is due.
pub const AUTO_SNAPSHOT_LOGICAL_INTERVAL: u64 = 300_000;

/// After how many bytes of log a snapshot is due.
pub const AUTO_SNAPSHOT_WAL_BYTES: u64 = 1_073_741_824;

/// The shard that a handle belongs to.
pub open spec fn shard_of(handle: Seq<char>, shards: u64) -> u64 {
    fnv_of(encode_utf8(handle)) % shards
}

/// The shard that a handle belongs to; it is always the same.
pub fn shard_for(handle: &str, shards: u64) -> (r: u64)
    requires
        shards > 0,
    ensures
        r == shard_of(handle@, shards),
        r < shards,
{
    fnv1a64(handle.as_bytes()) % shards
}

/// The frame as it is stored: its payload sealed.
pub open spec fn durable_frame(kms: (EncryptionTier, RingV), f: FrameV) -> FrameV {
    FrameV {
        payload: kms.1.sealed(
            purpose_of(f.cell_id, f.flags),
            fnv_of(nonce_input(f.logical_at, f.cell_id, f.op, f.payload)),
            f.payload,
        ),
        ..f
    }
}

/// The frame as it is stored.
pub fn seal_frame(kms: &Kms, frame: &WalFrame) -> (r: WalFrame)
    ensures
        r@ == durable_frame(kms@, frame@),
{
    let purpose = payload_purpose(frame.cell_id, frame.flags);
    let nonce: u64 = payload_nonce(
        frame.logical_at,
        frame.cell_id,
        frame.op,
        frame.payload.as_slice(),
    );
    WalFrame {
        logical_at: frame.logical_at,
        cell_id: frame.cell_id,
        op: frame.op,
        schema_ver: frame.schema_ver,
        flags: frame.flags,
        payload: kms.seal(purpose.as_str(), nonce, frame.payload.as_slice()),
    }
}

/// What is stored is opened again with the purpose that the frame itself names.
pub proof fn lemma_frame_opens(
    kms: (EncryptionTier, RingV),
    f: FrameV,
)
    ensures
        ({
            let d = durable_frame(kms, f);
            kms.1.opened(purpose_of(d.cell_id, d.flags), d.payload) == Ok::<
                _,
                crate::vocab::ErrV,
            >(f.payload)
        }),
{
    kms.1.lemma_seal_round_trip(
        purpose_of(f.cell_id, f.flags),
        fnv_of(nonce_input(f.logical_at, f.cell_id, f.op, f.payload)),
        f.payload,
    );
}

/// When the last snapshot was, and how much was logged since.
#[derive(Clone, Copy, Debug, PartialEq, Eq, Structural)]
pub struct SnapshotPolicy {
    pub last_at: u64,
    pub wal_bytes: u64,
}

impl SnapshotPolicy {
    pub fn new() -> (r: Self)
        ensures
            r == (SnapshotPolicy { last_at: 0, wal_bytes: 0 }),
    {
        SnapshotPolicy { last_at: 0, wal_bytes: 0 }
    }

    /// A snapshot was taken, or taken up.
    pub fn set_snapshot_watermark(&mut self, logical_at: u64)
        ensures
            *final(self) == (SnapshotPolicy { last_at: logical_at, wal_bytes: 0 }),
    {
        self.last_at = logical_at;
        self.wal_bytes = 0;
    }

    /// Bytes were logged.
    pub fn logged(&mut self, bytes: u64)
        ensures
            final(self).last_at == old(self).last_at,
            final(self).wal_bytes == if old(self).wal_bytes + bytes > u64::MAX {
                u64::MAX as int
            } else {
                old(self).wal_bytes + bytes
            },
    {
        self.wal_bytes = self.wal_bytes.saturating_add(bytes);
    }

    /// A snapshot is due: enough was logged, or enough time has gone by.
    pub open spec fn is_due(self, at: u64) -> bool {
        self.wal_bytes >= AUTO_SNAPSHOT_WAL_BYTES || at - self.last_at
            >= AUTO_SNAPSHOT_LOGICAL_INTERVAL
    }

    /// Right after a snapshot none is due, and later one is due by the time or the
    /// bytes since.
    pub proof fn lemma_due_afresh(taken_at: u64, bytes: u64, at: u64)
        requires
            taken_at <= at,
        ensures
            !(SnapshotPolicy { last_at: taken_at, wal_bytes: 0 }).is_due(taken_at),
            (SnapshotPolicy { last_at: taken_at, wal_bytes: bytes }).is_due(at) <==> bytes
                >= AUTO_SNAPSHOT_WAL_BYTES || at - taken_at >= AUTO_SNAPSHOT_LOGICAL_INTERVAL,
    {
    }

    /// Whether a snapshot is due.
    pub fn due(&self, at: u64) -> (r: bool)
        ensures
            r == self.is_due(at),
    {
        self.wal_bytes >= AUTO_SNAPSHOT_WAL_BYTES || (at >= self.last_at && at - self.last_at
            >= AUTO_SNAPSHOT_LOGICAL_INTERVAL)
    }
}

/// The digest of each cell's state.
pub open spec fn hashes_of(states: Map<u64, CborV>) -> Map<u64, Seq<u8>> {
    states.map_values(|s: CborV| sha_of(enc(s)))
}

/// The digest of each cell's state.
pub fn state_hashes(states: &IdMap<Cbor>) -> (r: IdMap<[u8; 32]>)
    ensures
        r@ == hashes_of(states@),
{
    let mut out: IdMap<[u8; 32]> = IdMap::new();
    let n: usize = states.len();
    let ghost o = states.order();
    let mut i: usize = 0;
    while i < n
        invariant
            i <= n == o.len(),
            o == states.order(),
            crate::idmap::lists(o, states@.dom()),
            forall|k: u64| #[trigger] out@.contains_key(k) <==> o.take(i as int).contains(k),
            forall|k: u64| #[trigger] out@.contains_key(k) ==> out@[k] == sha_of(enc(states@[k])),
        decreases n - i,
    {
        let k: u64 = states.key_at(i);
        let h = sha256(states.value_at(i).encode().as_slice());
        assert(h.deep_view() =~= h@);
        out.insert(k, h);
        proof {
            assert(o.take(i + 1) =~= o.take(i as int).push(k));
            assert forall|x: u64| #[trigger] out@.contains_key(x) <==> o.take(i + 1).contains(x) by {
                lemma_push_contains(o.take(i as int), k, x);
            }
        }
        i += 1;
    }
    proof {
        assert(o.take(n as int) =~= o);
        assert forall|k: u64| #[trigger] out@.contains_key(k) <==> states@.contains_key(k) by {
            assert(states@.dom().contains(k) <==> o.contains(k));
        }
        assert(out@ =~= hashes_of(states@));
    }
    out
}

proof fn lemma_push_contains(a: Seq<u64>, k: u64, x: u64)
    ensures
        a.push(k).contains(x) == (a.contains(x) || x == k),
{
    if a.contains(x) {
        let j = choose|j: int| 0 <= j < a.len() && a[j] == x;
        assert(a.push(k)[j] == x);
    }
    assert(a.push(k)[a.len() as int] == k);
}

/// The public texts in a list of outputs: those with a handle.
pub open spec fn outputs_index(
    a: Seq<CborV>,
    n: nat,
    over: Map<Seq<char>, Seq<char>>,
) -> Map<Seq<char>, Seq<char>>
    decreases n,
{
    if n == 0 {
        over
    } else {
        let before = outputs_index(a, (n - 1) as nat, over);
        match a[n - 1].text_field("output_handle"@) {
            Some(h) => before.insert(h, crate::cbor::text_or_empty(a[n - 1], "body"@)),
            None => before,
        }
    }
}

/// The judgments in a list of audits: known, and without a text.
pub open spec fn audits_index(
    a: Seq<CborV>,
    n: nat,
    over: Map<Seq<char>, Seq<char>>,
) -> Map<Seq<char>, Seq<char>>
    decreases n,
{
    if n == 0 {
        over
    } else {
        let before = audits_index(a, (n - 1) as nat, over);
        match a[n - 1].text_field("judgment_handle"@) {
            Some(h) => before.insert(h, Seq::empty()),
            None => before,
        }
    }
}

/// The list under a field of a state; empty where there is none.
pub open spec fn list_of(states: Map<u64, CborV>, id: u64, field: Seq<char>) -> Seq<CborV> {
    if states.contains_key(id) {
        match states[id].array_field(field) {
            Some(a) => a,
            None => Seq::empty(),
        }
    } else {
        Seq::empty()
    }
}

/// The public index that the curators' states give.
pub open spec fn public_index_of(states: Map<u64, CborV>) -> Map<Seq<char>, Seq<char>> {
    let outputs = list_of(states, LIBRARIAN_ID, "outputs"@);
    let audits = list_of(states, WARDEN_ID, "audits"@);
    audits_index(audits, audits.len(), outputs_index(outputs, outputs.len(), Map::empty()))
}

proof fn lemma_outputs_index(
    a: Seq<CborV>,
    n: nat,
    over: Map<Seq<char>, Seq<char>>,
    h: Seq<char>,
    i: int,
)
    requires
        n <= a.len(),
    ensures
        outputs_index(a, n, over).contains_key(h) <==> over.contains_key(h) || exists|k: int|
            0 <= k < n && (#[trigger] a[k]).text_field("output_handle"@) == Some(h),
        0 <= i < n && a[i].text_field("output_handle"@) == Some(h) && (forall|k: int|
            i < k < n ==> (#[trigger] a[k]).text_field("output_handle"@) != Some(h))
            ==> outputs_index(a, n, over)[h] == text_or_empty(a[i], "body"@),
    decreases n,
{
    if n > 0 {
        lemma_outputs_index(a, (n - 1) as nat, over, h, i);
        assert(a[n - 1] == a[n - 1]);
        if exists|k: int| 0 <= k < n - 1 && (#[trigger] a[k]).text_field("output_handle"@) == Some(h) {
            let k = choose|k: int|
                0 <= k < n - 1 && (#[trigger] a[k]).text_field("output_handle"@) == Some(h);
            assert(a[k].text_field("output_handle"@) == Some(h));
        }
    }
}

proof fn lemma_audits_index(a: Seq<CborV>, n: nat, over: Map<Seq<char>, Seq<char>>, h: Seq<char>)
    requires
        n <= a.len(),
    ensures
        ({
            let judged = exists|k: int|
                0 <= k < n && (#[trigger] a[k]).text_field("judgment_handle"@) == Some(h);
            let now = audits_index(a, n, over);
            &&& now.contains_key(h) <==> over.contains_key(h) || judged
            &&& !judged && over.contains_key(h) ==> now[h] == over[h]
        }),
    decreases n,
{
    if n > 0 {
        lemma_audits_index(a, (n - 1) as nat, over, h);
        assert(a[n - 1] == a[n - 1]);
        if exists|k: int|
            0 <= k < n - 1 && (#[trigger] a[k]).text_field("judgment_handle"@) == Some(h) {
            let k = choose|k: int|
                0 <= k < n - 1 && (#[trigger] a[k]).text_field("judgment_handle"@) == Some(h);
            assert(a[k].text_field("judgment_handle"@) == Some(h));
        }
    }
}

/// The public index knows exactly the outputs that the librarian kept and the judgments that
/// the warden kept, and gives of an output the body that was kept last under its handle.
pub proof fn lemma_public_index(states: Map<u64, CborV>, h: Seq<char>, i: int)
    ensures
        ({
            let outputs = list_of(states, LIBRARIAN_ID, "outputs"@);
            let audits = list_of(states, WARDEN_ID, "audits"@);
            let judged = exists|k: int|
                0 <= k < audits.len() && (#[trigger] audits[k]).text_field("judgment_handle"@)
                    == Some(h);
            let put_out = exists|k: int|
                0 <= k < outputs.len() && (#[trigger] outputs[k]).text_field("output_handle"@)
                    == Some(h);
            let index = public_index_of(states);
            &&& index.contains_key(h) <==> judged || put_out
            &&& !judged && 0 <= i < outputs.len() && outputs[i].text_field("output_handle"@) == Some(
                h,
            ) && (forall|k: int|
                i < k < outputs.len() ==> (#[trigger] outputs[k]).text_field("output_handle"@)
                    != Some(h)) && outputs[i].text_field("body"@) is Some ==> Some(index[h])
                == outputs[i].text_field("body"@)
        }),
{
    let outputs = list_of(states, LIBRARIAN_ID, "outputs"@);
    let audits = list_of(states, WARDEN_ID, "audits"@);
    lemma_outputs_index(outputs, outputs.len(), Map::empty(), h, i);
    lemma_audits_index(
        audits,
        audits.len(),
        outputs_index(outputs, outputs.len(), Map::empty()),
        h,
    );
}

/// The public index that the curators' states give: the text of each output, and
/// every judgment.
pub fn public_index(states: &IdMap<Cbor>) -> (r: TextMap<String>)
    ensures
        r@ == public_index_of(states@),
{
    let mut out: TextMap<String> = TextMap::new();
    let ghost outputs = list_of(states@, LIBRARIAN_ID, "outputs"@);
    if let Some(s) = states.get(LIBRARIAN_ID) {
        if let Some(a) = s.opt_array("outputs") {
            let ghost all = views(a@);
            let mut i: usize = 0;
            while i < a.len()
                invariant
                    i <= a@.len(),
                    all == views(a@),
                    out@ == outputs_index(all, i as nat, Map::empty()),
                decreases a.len() - i,
            {
                assert(all[i as int] == a@[i as int]@);
                if let Some(h) = a[i].opt_str("output_handle") {
                    out.insert(h, a[i].str_or_empty("body"));
                }
                i += 1;
            }
            assert(all == outputs);
        }
    }
    let ghost first = out@;
    assert(first == outputs_index(outputs, outputs.len(), Map::empty()));
    if let Some(s) = states.get(WARDEN_ID) {
        if let Some(a) = s.opt_array("audits") {
            let ghost all = views(a@);
            let mut i: usize = 0;
            while i < a.len()
                invariant
                    i <= a@.len(),
                    all == views(a@),
                    out@ == audits_index(all, i as nat, first),
                decreases a.len() - i,
            {
                assert(all[i as int] == a@[i as int]@);
                if let Some(h) = a[i].opt_str("judgment_handle") {
                    let none = String::new();
                    assert(none@ =~= Seq::empty());
                    out.insert(h, none);
                }
                i += 1;
            }
        }
    }
    out
}

/// What curators see of a node: its facts and blobs, the decisions, and the
/// public texts of what curators put out. Nothing private can be reached.
#[derive(Debug)]
pub struct NodeView<'a> {
    pub facts: &'a FactCell,
    pub blobs: &'a BlobCell,
    /// The texts of the blobs that could be read.
    pub blob_texts: &'a TextMap<String>,
    /// The statement of each decision.
    pub decisions: &'a TextMap<String>,
    /// The public text of each curator's output.
    pub public: &'a TextMap<String>,
}

/// The handle of a curator's output that is not private.
pub open spec fn is_output(h: Seq<char>) -> bool {
    (starts(h, "librarian/output/"@) || starts(h, "warden/judgment/"@)) && !private_handle(h)
}

fn names_output(h: &str) -> (r: bool)
    ensures
        r == is_output(h@),
{
    (str_starts(h, "librarian/output/") || str_starts(h, "warden/judgment/")) && !is_private_facet(h)
}

/// The text under a key.
pub open spec fn text_under(m: Map<Seq<char>, Seq<char>>, k: Seq<char>) -> Option<Seq<char>> {
    if m.contains_key(k) {
        Some(m[k])
    } else {
        None
    }
}

fn text_of(m: &TextMap<String>, k: &str) -> (r: Option<String>)
    ensures
        r.deep_view() == text_under(m@, k@),
{
    match m.get(k) {
        Some(t) => Some(t.as_str().to_string()),
        None => None,
    }
}

/// Facts as handle and object.
pub open spec fn slots(fs: Seq<FactV>) -> Seq<(Seq<char>, Seq<char>)> {
    Seq::new(fs.len(), |i: int| (fs[i].handle, fs[i].object))
}

impl<'a> SubstrateView for NodeView<'a> {
    open spec fn known(&self, handle: Seq<char>) -> bool {
        if starts(handle, "fact/"@) {
            self.facts@.facts.contains_key(handle)
        } else if starts(handle, "blob/"@) {
            self.blobs@.contains_key(handle)
        } else if starts(handle, "decision/"@) {
            self.decisions@.contains_key(handle)
        } else {
            is_output(handle) && self.public@.contains_key(handle)
        }
    }

    open spec fn facts(&self, subject: Seq<char>, predicate: Seq<char>) -> Seq<
        (Seq<char>, Seq<char>),
    > {
        slots(self.facts@.active_sp(subject, predicate))
    }

    open spec fn text(&self, handle: Seq<char>) -> Option<Seq<char>> {
        if starts(handle, "fact/"@) {
            if self.facts@.facts.contains_key(handle) {
                Some(self.facts@.facts[handle].object)
            } else {
                None
            }
        } else if starts(handle, "blob/"@) {
            if self.blobs@.contains_key(handle) {
                text_under(self.blob_texts@, handle)
            } else {
                None
            }
        } else if is_output(handle) {
            text_under(self.public@, handle)
        } else if starts(handle, "decision/"@) {
            text_under(self.decisions@, handle)
        } else {
            None
        }
    }

    fn handle_exists(&self, handle: &str) -> (r: bool) {
        if str_starts(handle, "fact/") {
            self.facts.has(handle)
        } else if str_starts(handle, "blob/") {
            self.blobs.has(handle)
        } else if str_starts(handle, "decision/") {
            self.decisions.contains_key(handle)
        } else {
            names_output(handle) && self.public.contains_key(handle)
        }
    }

    fn active_sp(&self, subject: &str, predicate: &str) -> (r: Vec<(String, String)>) {
        let fs = self.facts.active_for_sp(subject, predicate);
        let ghost all = self.facts@.active_sp(subject@, predicate@);
        let ghost want = slots(all);
        let mut out: Vec<(String, String)> = Vec::new();
        let mut i: usize = 0;
        assert(out.deep_view() =~= want.take(0));
        while i < fs.len()
            invariant
                i <= fs@.len(),
                fs.deep_view() == all,
                want == slots(all),
                out.deep_view() == want.take(i as int),
            decreases fs.len() - i,
        {
            let ghost before = out.deep_view();
            assert(all[i as int] == fs@[i as int].deep_view());
            let f = (fs[i].handle.as_str().to_string(), fs[i].object.as_str().to_string());
            out.push(f);
            assert(out.deep_view() =~= before.push((f.0@, f.1@)));
            i += 1;
            assert(want.take(i as int) =~= want.take(i - 1).push(want[i - 1]));
        }
        assert(all.len() == fs@.len());
        assert(want.take(want.len() as int) =~= want);
        out
    }

    fn public_text(&self, handle: &str) -> (r: Option<String>) {
        if str_starts(handle, "fact/") {
            match self.facts.get(handle) {
                Some(f) => Some(f.object.as_str().to_string()),
                None => None,
            }
        } else if str_starts(handle, "blob/") {
            if self.blobs.has(handle) {
                text_of(self.blob_texts, handle)
            } else {
                None
            }
        } else if names_output(handle) {
            text_of(self.public, handle)
        } else if str_starts(handle, "decision/") {
            text_of(self.decisions, handle)
        } else {
            None
        }
    }
}

/// What has a text for curators is known to them; and of a slot they see exactly the facts
/// that say something of it and that nothing superseded, each by its handle and object.
pub proof fn lemma_view<'a>(
    view: NodeView<'a>,
    h: Seq<char>,
    s: Seq<char>,
    p: Seq<char>,
    o: Seq<char>,
)
    requires
        view.facts@.wf(),
    ensures
        view.text(h) is Some ==> view.known(h),
        starts(h, "fact/"@) ==> (view.known(h) <==> view.facts@.facts.contains_key(h)) && (
        view.facts@.facts.contains_key(h) ==> view.text(h) == Some(view.facts@.facts[h].object)),
        SubstrateView::facts(&view, s, p).contains((h, o)) <==> view.facts@.facts.contains_key(h)
            && view.facts@.facts[h].subject == s && view.facts@.facts[h].predicate == p
            && view.facts@.facts[h].object == o && view.facts@.facts[h].superseded_by is None,
{
    reveal_strlit("decision/");
    reveal_strlit("librarian/output/");
    reveal_strlit("warden/judgment/");
    assert("decision/"@[0] == 'd' && "librarian/output/"@[0] == 'l' && "warden/judgment/"@[0]
        == 'w');
    lemma_first(h, "decision/"@);
    lemma_first(h, "librarian/output/"@);
    lemma_first(h, "warden/judgment/"@);
    let fs = view.facts@.active_sp(s, p);
    let all = slots(fs);
    view.facts@.lemma_active_sp(s, p);
    if all.contains((h, o)) {
        let i = all.index_of((h, o));
        assert(fs.contains(fs[i]));
        assert(view.facts@.stands(fs[i], s, p));
    }
    if view.facts@.facts.contains_key(h) {
        let f = view.facts@.facts[h];
        if f.subject == s && f.predicate == p && f.object == o && f.superseded_by is None {
            assert(f.handle == h);
            assert(view.facts@.stands(f, s, p));
            assert(fs.contains(f));
            let i = fs.index_of(f);
            assert(all[i] == (h, o));
        }
    }
}

/// No private facet of a curator's output is known to curators, and none has a
/// text for them.
pub proof fn lemma_private_unreachable<'a>(view: NodeView<'a>, h: Seq<char>)
    requires
        private_handle(h),
        starts(h, "librarian/output/"@) || starts(h, "warden/judgment/"@),
    ensures
        !view.known(h),
        view.text(h) is None,
{
    reveal_strlit("fact/");
    reveal_strlit("blob/");
    reveal_strlit("decision/");
    reveal_strlit("librarian/output/");
    reveal_strlit("warden/judgment/");
    assert("fact/"@[0] == 'f' && "blob/"@[0] == 'b' && "decision/"@[0] == 'd');
    assert("librarian/output/"@[0] == 'l' && "warden/judgment/"@[0] == 'w');
    lemma_first(h, "fact/"@);
    lemma_first(h, "blob/"@);
    lemma_first(h, "decision/"@);
    lemma_first(h, "librarian/output/"@);
    lemma_first(h, "warden/judgment/"@);
}

proof fn lemma_first(h: Seq<char>, p: Seq<char>)
    requires
        p.len() > 0,
    ensures
        starts(h, p) ==> h.len() > 0 && h[0] == p[0],
{
    if starts(h, p) {
        assert(h.subrange(0, p.len() as int)[0] == p[0]);
    }
}

} // verus!
