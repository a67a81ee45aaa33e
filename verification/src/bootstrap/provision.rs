//! Provisioning: what a fresh node is given, and in which order. Governance comes
//! before anything that it governs.

use vstd::prelude::*;
use crate::cbor::text_views;
use crate::cells::registry::{AgentRegistryCell, RegistryV};
use crate::config::{names, names_in};
use crate::text::{chars_between, chars_of, string_of};

verus! {

/// The schemas of a fresh node, each with the fields that it demands.
pub const CONTRACTS: [(&'static str, &'static str); 6] = [
    ("fact.v1", "subject,predicate,object"),
    ("curator.librarian.output.v1", "output_handle,operation,grounded_in,confidence_band"),
    ("curator.warden.judgment.v1", "output_handle,operation,target_handle"),
    ("blob.v1", "body"),
    ("timeline.v1", "stream,event"),
    ("scratchpad.v1", "key,value"),
];

/// The documents that a fresh node knows, each with its sections.
pub const BOOT_ANCHORS: [(&'static str, &'static str); 10] = [
    ("Architecture.md", "1,2,3,4,5,9"),
    ("NATIVE_TRINITY.md", "3,4,5,8,9"),
    ("RouterScheduler.md", "A,B,C,D,E,5"),
    ("PersistenceLayer.md", "2,3,5,6,7"),
    ("McpProtocol.md", "2,3,4,5,A"),
    ("CURATOR_PAIR_PROTOCOL.md", "2,3,4,5,6,7"),
    ("LibrarianCell.md", "2,3,4,5,6"),
    ("WardenCell.md", "3,4,5,6,7"),
    ("AdjudicatorCell.md", "3,4,5,6,7,10"),
    ("CrossCheckLedgerCell.md", "2,5,6,7"),
];

/// The founding decisions: topic, statement and anchor.
pub const DECISIONS: [(&'static str, &'static str, &'static str); 2] = [
    (
        "governance",
        "Trinity-first provisioning order is mandatory and fatal on violation",
        "NATIVE_TRINITY.md\u{00a7}3",
    ),
    (
        "curator",
        "Curator private facets are excluded from peer-curator capability tokens",
        "CURATOR_PAIR_PROTOCOL.md\u{00a7}4",
    ),
];

/// The entities that a fresh node knows.
pub const ENTITIES: [&'static str; 28] = [
    "CatalogCell",
    "FactCell",
    "TimelineCell",
    "PlaybookCell",
    "ScratchpadCell",
    "VectorCell",
    "GraphCell",
    "Bm25Cell",
    "BlobCell",
    "CacheCell",
    "AgentRegistryCell",
    "ProposalCell",
    "SubscriptionCell",
    "RerankerCell",
    "SpecAnchorCell",
    "DecisionLedgerCell",
    "CongruenceCell",
    "GapCell",
    "QuarantineCell",
    "WorkBudgetCell",
    "ContractCell",
    "LibrarianCell",
    "WardenCell",
    "AdjudicatorCell",
    "CrossCheckLedgerCell",
    "GAP-0001",
    "P19",
    "P20",
];

/// The first agents, each with its role.
pub const AGENTS: [(&'static str, &'static str); 4] = [
    ("operator", "operator"),
    ("curator.librarian", "curator"),
    ("curator.warden", "curator"),
    ("curator.adjudicator", "curator"),
];

/// A step of provisioning.
#[derive(Debug)]
pub enum Provision {
    Contract { schema: String, required: Vec<String> },
    Anchor { doc: String, section: String },
    Decision { topic: String, statement: String, author: String, anchor: String },
    Gap { id: String, description: String },
    Entity { name: String },
    Agent { id: String, role: String },
}

/// A step of provisioning as a mathematical object.
#[verifier::ext_equal]
pub enum ProvisionV {
    Contract { schema: Seq<char>, required: Seq<Seq<char>> },
    Anchor { doc: Seq<char>, section: Seq<char> },
    Decision { topic: Seq<char>, statement: Seq<char>, author: Seq<char>, anchor: Seq<char> },
    Gap { id: Seq<char>, description: Seq<char> },
    Entity { name: Seq<char> },
    Agent { id: Seq<char>, role: Seq<char> },
}

impl DeepView for Provision {
    type V = ProvisionV;

    open spec fn deep_view(&self) -> ProvisionV {
        match self {
            Provision::Contract { schema, required } => ProvisionV::Contract {
                schema: schema@,
                required: text_views(required@),
            },
            Provision::Anchor { doc, section } => ProvisionV::Anchor {
                doc: doc@,
                section: section@,
            },
            Provision::Decision { topic, statement, author, anchor } => ProvisionV::Decision {
                topic: topic@,
                statement: statement@,
                author: author@,
                anchor: anchor@,
            },
            Provision::Gap { id, description } => ProvisionV::Gap {
                id: id@,
                description: description@,
            },
            Provision::Entity { name } => ProvisionV::Entity { name: name@ },
            Provision::Agent { id, role } => ProvisionV::Agent { id: id@, role: role@ },
        }
    }
}

/// The schemas.
pub open spec fn contracts() -> Seq<ProvisionV> {
    Seq::new(6, |i: int| ProvisionV::Contract { schema: CONTRACTS@[i].0@, required: names_in(CONTRACTS@[i].1@) })
}

fn push_contracts(out: &mut Vec<Provision>)
    ensures
        final(out).deep_view() == old(out).deep_view() + contracts(),
{
    let ghost first = out.deep_view();
    let mut i: usize = 0;
    assert(out.deep_view() =~= first + contracts().take(0));
    while i < 6
        invariant
            i <= 6,
            out.deep_view() == first + contracts().take(i as int),
        decreases 6 - i,
    {
        let ghost before = out.deep_view();
        let p = Provision::Contract {
            schema: CONTRACTS[i].0.to_string(),
            required: names(CONTRACTS[i].1),
        };
        let ghost v = p.deep_view();
        assert(v =~= contracts()[i as int]);
        out.push(p);
        assert(out.deep_view() =~= before.push(v));
        i += 1;
        assert(contracts().take(i as int) =~= contracts().take(i - 1).push(contracts()[i - 1]));
        assert(out.deep_view() =~= first + contracts().take(i as int));
    }
    assert(contracts().take(6) =~= contracts());
}

/// The founding decisions.
pub open spec fn decisions() -> Seq<ProvisionV> {
    Seq::new(2, |i: int| ProvisionV::Decision {
        topic: DECISIONS@[i].0@,
        statement: DECISIONS@[i].1@,
        author: "bootstrap-operator"@,
        anchor: DECISIONS@[i].2@,
    })
}

fn push_decisions(out: &mut Vec<Provision>)
    ensures
        final(out).deep_view() == old(out).deep_view() + decisions(),
{
    let ghost first = out.deep_view();
    let mut i: usize = 0;
    assert(out.deep_view() =~= first + decisions().take(0));
    while i < 2
        invariant
            i <= 2,
            out.deep_view() == first + decisions().take(i as int),
        decreases 2 - i,
    {
        let ghost before = out.deep_view();
        let p = Provision::Decision {
            topic: DECISIONS[i].0.to_string(),
            statement: DECISIONS[i].1.to_string(),
            author: "bootstrap-operator".to_string(),
            anchor: DECISIONS[i].2.to_string(),
        };
        let ghost v = p.deep_view();
        assert(v =~= decisions()[i as int]);
        out.push(p);
        assert(out.deep_view() =~= before.push(v));
        i += 1;
        assert(decisions().take(i as int) =~= decisions().take(i - 1).push(decisions()[i - 1]));
        assert(out.deep_view() =~= first + decisions().take(i as int));
    }
    assert(decisions().take(2) =~= decisions());
}

/// The known entities.
pub open spec fn entities() -> Seq<ProvisionV> {
    Seq::new(28, |i: int| ProvisionV::Entity { name: ENTITIES@[i]@ })
}

fn push_entities(out: &mut Vec<Provision>)
    ensures
        final(out).deep_view() == old(out).deep_view() + entities(),
{
    let ghost first = out.deep_view();
    let mut i: usize = 0;
    assert(out.deep_view() =~= first + entities().take(0));
    while i < 28
        invariant
            i <= 28,
            out.deep_view() == first + entities().take(i as int),
        decreases 28 - i,
    {
        let ghost before = out.deep_view();
        let p = Provision::Entity { name: ENTITIES[i].to_string() };
        let ghost v = p.deep_view();
        assert(v =~= entities()[i as int]);
        out.push(p);
        assert(out.deep_view() =~= before.push(v));
        i += 1;
        assert(entities().take(i as int) =~= entities().take(i - 1).push(entities()[i - 1]));
        assert(out.deep_view() =~= first + entities().take(i as int));
    }
    assert(entities().take(28) =~= entities());
}

/// The first agents.
pub open spec fn agents() -> Seq<ProvisionV> {
    Seq::new(4, |i: int| ProvisionV::Agent { id: AGENTS@[i].0@, role: AGENTS@[i].1@ })
}

fn push_agents(out: &mut Vec<Provision>)
    ensures
        final(out).deep_view() == old(out).deep_view() + agents(),
{
    let ghost first = out.deep_view();
    let mut i: usize = 0;
    assert(out.deep_view() =~= first + agents().take(0));
    while i < 4
        invariant
            i <= 4,
            out.deep_view() == first + agents().take(i as int),
        decreases 4 - i,
    {
        let ghost before = out.deep_view();
        let p = Provision::Agent {
            id: AGENTS[i].0.to_string(),
            role: AGENTS[i].1.to_string(),
        };
        let ghost v = p.deep_view();
        assert(v =~= agents()[i as int]);
        out.push(p);
        assert(out.deep_view() =~= before.push(v));
        i += 1;
        assert(agents().take(i as int) =~= agents().take(i - 1).push(agents()[i - 1]));
        assert(out.deep_view() =~= first + agents().take(i as int));
    }
    assert(agents().take(4) =~= agents());
}

/// The sections of a document.
pub open spec fn sections(doc: Seq<char>, list: Seq<char>) -> Seq<ProvisionV> {
    let ns = names_in(list);
    Seq::new(ns.len(), |i: int| ProvisionV::Anchor { doc, section: ns[i] })
}

/// The sections of the first `n` documents.
pub open spec fn anchors(n: nat) -> Seq<ProvisionV>
    decreases n,
{
    if n == 0 {
        Seq::empty()
    } else {
        anchors((n - 1) as nat) + sections(BOOT_ANCHORS@[n - 1].0@, BOOT_ANCHORS@[n - 1].1@)
    }
}

fn push_sections(out: &mut Vec<Provision>, doc: &str, list: &str)
    ensures
        final(out).deep_view() == old(out).deep_view() + sections(doc@, list@),
{
    let ghost first = out.deep_view();
    let ns = names(list);
    let ghost want = sections(doc@, list@);
    let mut i: usize = 0;
    assert(out.deep_view() =~= first + want.take(0));
    while i < ns.len()
        invariant
            i <= ns@.len(),
            text_views(ns@) == names_in(list@),
            want == sections(doc@, list@),
            out.deep_view() == first + want.take(i as int),
        decreases ns.len() - i,
    {
        let ghost before = out.deep_view();
        let p = Provision::Anchor { doc: doc.to_string(), section: ns[i].as_str().to_string() };
        let ghost v = p.deep_view();
        assert(text_views(ns@)[i as int] == ns@[i as int]@);
        assert(v =~= want[i as int]);
        out.push(p);
        assert(out.deep_view() =~= before.push(v));
        i += 1;
        assert(want.take(i as int) =~= want.take(i - 1).push(want[i - 1]));
        assert(out.deep_view() =~= first + want.take(i as int));
    }
    assert(text_views(ns@).len() == ns@.len());
    assert(want.take(want.len() as int) =~= want);
}

/// A character of a section's number.
pub open spec fn numbers(c: char) -> bool {
    ('0' <= c && c <= '9') || ('a' <= c && c <= 'z') || ('A' <= c && c <= 'Z') || c == '.'
}

/// The end of the run of such characters from `i` on.
pub open spec fn run_end(s: Seq<char>, i: int) -> int
    decreases s.len() - i,
{
    if i < 0 || i >= s.len() || !numbers(s[i]) {
        i
    } else {
        run_end(s, i + 1)
    }
}

/// The text without dots in front.
pub open spec fn dots_front(s: Seq<char>) -> Seq<char>
    decreases s.len(),
{
    if s.len() > 0 && s[0] == '.' {
        dots_front(s.skip(1))
    } else {
        s
    }
}

/// The text without dots behind.
pub open spec fn dots_back(s: Seq<char>) -> Seq<char>
    decreases s.len(),
{
    if s.len() > 0 && s.last() == '.' {
        dots_back(s.drop_last())
    } else {
        s
    }
}

/// The first section that a citation names.
pub open spec fn first_section(s: Seq<char>) -> Seq<char> {
    dots_back(dots_front(s.take(run_end(s, 0))))
}

/// The first section that a citation names.
pub fn cited_section(text: &str) -> (r: String)
    ensures
        r@ == first_section(text@),
{
    let s = chars_of(text);
    let mut end: usize = 0;
    while end < s.len() && (('0' <= s[end] && s[end] <= '9') || ('a' <= s[end] && s[end] <= 'z') || (
    'A' <= s[end] && s[end] <= 'Z') || s[end] == '.')
        invariant
            end <= s@.len(),
            run_end(s@, 0) == run_end(s@, end as int),
        decreases s.len() - end,
    {
        end += 1;
    }
    let run = chars_between(s.as_slice(), 0, end);
    assert(run@ =~= s@.take(end as int));
    let mut from: usize = 0;
    assert(run@.skip(0) =~= run@);
    while from < run.len() && run[from] == '.'
        invariant
            from <= run@.len(),
            dots_front(run@) == dots_front(run@.skip(from as int)),
        decreases run.len() - from,
    {
        assert(run@.skip(from as int)[0] == run@[from as int]);
        assert(run@.skip(from as int).skip(1) =~= run@.skip(from + 1));
        from += 1;
    }
    if from < run.len() {
        assert(run@.skip(from as int)[0] == run@[from as int]);
    }
    assert(dots_front(run@) == run@.skip(from as int));
    let mut to: usize = run.len();
    assert(run@.subrange(from as int, to as int) =~= run@.skip(from as int));
    while to > from && run[to - 1] == '.'
        invariant
            from <= to <= run@.len(),
            dots_back(dots_front(run@)) == dots_back(run@.subrange(from as int, to as int)),
        decreases to,
    {
        let ghost cur = run@.subrange(from as int, to as int);
        assert(cur.last() == run@[to - 1]);
        assert(cur.drop_last() =~= run@.subrange(from as int, to - 1));
        to -= 1;
    }
    if to > from {
        assert(run@.subrange(from as int, to as int).last() == run@[to - 1]);
    }
    string_of(chars_between(run.as_slice(), from, to).as_slice())
}

/// The anchors that the first `n` citations of an inventory name.
pub open spec fn cited(inventory: Seq<(Seq<char>, Seq<char>)>, n: nat) -> Seq<ProvisionV>
    decreases n,
{
    if n == 0 {
        Seq::empty()
    } else {
        let before = cited(inventory, (n - 1) as nat);
        let section = first_section(inventory[n - 1].1);
        if section.len() > 0 {
            before.push(ProvisionV::Anchor { doc: inventory[n - 1].0, section })
        } else {
            before
        }
    }
}

/// The standing gap.
pub open spec fn standing_gap() -> ProvisionV {
    ProvisionV::Gap {
        id: "GAP-0001"@,
        description: "conformance coverage of the v1.0 spec is incomplete until all tests pass"@,
    }
}

/// The steps of governance: schemas, anchors, decisions, gaps and entities.
pub open spec fn governance(inventory: Seq<(Seq<char>, Seq<char>)>) -> Seq<ProvisionV> {
    contracts() + anchors(10) + cited(inventory, inventory.len()) + decisions() + seq![
        standing_gap(),
    ] + entities()
}

/// All steps.
pub open spec fn plan(inventory: Seq<(Seq<char>, Seq<char>)>) -> Seq<ProvisionV> {
    governance(inventory) + agents()
}

/// The steps of provisioning a fresh node, in order. The inventory lists what
/// the code cites, as document and section.
pub fn provision_plan(inventory: &Vec<(String, String)>) -> (r: Vec<Provision>)
    ensures
        r.deep_view() == plan(inventory.deep_view()),
{
    let mut out: Vec<Provision> = Vec::new();
    assert(out.deep_view() =~= Seq::empty());
    push_contracts(&mut out);
    let ghost a = out.deep_view();
    let mut i: usize = 0;
    assert(out.deep_view() =~= a + anchors(0));
    while i < 10
        invariant
            i <= 10,
            out.deep_view() == a + anchors(i as nat),
        decreases 10 - i,
    {
        push_sections(&mut out, BOOT_ANCHORS[i].0, BOOT_ANCHORS[i].1);
        i += 1;
        assert(out.deep_view() =~= a + anchors(i as nat));
    }
    let ghost b = out.deep_view();
    let ghost inv = inventory.deep_view();
    let mut k: usize = 0;
    assert(out.deep_view() =~= b + cited(inv, 0));
    while k < inventory.len()
        invariant
            k <= inventory@.len(),
            inv == inventory.deep_view(),
            out.deep_view() == b + cited(inv, k as nat),
        decreases inventory.len() - k,
    {
        let ghost before = out.deep_view();
        assert(inv[k as int] == (inventory@[k as int].0@, inventory@[k as int].1@));
        let section = cited_section(inventory[k].1.as_str());
        if chars_of(section.as_str()).len() > 0 {
            let p = Provision::Anchor { doc: inventory[k].0.as_str().to_string(), section };
            let ghost v = p.deep_view();
            out.push(p);
            assert(out.deep_view() =~= before.push(v));
        }
        k += 1;
        assert(out.deep_view() =~= b + cited(inv, k as nat));
    }
    push_decisions(&mut out);
    let ghost c = out.deep_view();
    let gap = Provision::Gap {
        id: "GAP-0001".to_string(),
        description: "conformance coverage of the v1.0 spec is incomplete until all tests pass".to_string(),
    };
    let ghost g = gap.deep_view();
    out.push(gap);
    assert(out.deep_view() =~= c + seq![g]);
    push_entities(&mut out);
    push_agents(&mut out);
    assert(out.deep_view() =~= plan(inv));
    out
}

/// Governance comes first: behind the first agent there are only agents.
pub proof fn lemma_governance_first(inventory: Seq<(Seq<char>, Seq<char>)>, i: int, j: int)
    requires
        0 <= i <= j < plan(inventory).len(),
        plan(inventory)[i] is Agent,
    ensures
        plan(inventory)[j] is Agent,
{
    let g = governance(inventory);
    if j < g.len() {
        assert(plan(inventory)[i] == g[i]);
        lemma_anchors(10);
        lemma_cited(inventory, inventory.len());
        let (a, b) = (contracts(), anchors(10));
        let (c, d) = (cited(inventory, inventory.len()), decisions());
        if i < a.len() {
            assert(g[i] == a[i]);
        } else if i < a.len() + b.len() {
            assert(g[i] == b[i - a.len()]);
        } else if i < a.len() + b.len() + c.len() {
            assert(g[i] == c[i - a.len() - b.len()]);
        } else if i < a.len() + b.len() + c.len() + d.len() {
            assert(g[i] == d[i - a.len() - b.len() - c.len()]);
        } else if i > a.len() + b.len() + c.len() + d.len() {
            assert(g[i] == entities()[i - a.len() - b.len() - c.len() - d.len() - 1]);
        }
    } else {
        assert(plan(inventory)[j] == agents()[j - g.len()]);
    }
}

proof fn lemma_anchors(n: nat)
    ensures
        forall|i: int| 0 <= i < anchors(n).len() ==> (#[trigger] anchors(n)[i]) is Anchor,
    decreases n,
{
    if n > 0 {
        lemma_anchors((n - 1) as nat);
        let a = anchors((n - 1) as nat);
        let b = sections(BOOT_ANCHORS@[n - 1].0@, BOOT_ANCHORS@[n - 1].1@);
        assert forall|i: int| 0 <= i < anchors(n).len() implies (#[trigger] anchors(n)[i]) is Anchor by {
            if i < a.len() {
                assert(anchors(n)[i] == a[i]);
            } else {
                assert(anchors(n)[i] == b[i - a.len()]);
            }
        }
    }
}

proof fn lemma_cited(inventory: Seq<(Seq<char>, Seq<char>)>, n: nat)
    ensures
        forall|i: int|
            0 <= i < cited(inventory, n).len() ==> (#[trigger] cited(inventory, n)[i]) is Anchor,
    decreases n,
{
    if n > 0 {
        lemma_cited(inventory, (n - 1) as nat);
        let a = cited(inventory, (n - 1) as nat);
        assert forall|i: int| 0 <= i < cited(inventory, n).len() implies (
        #[trigger] cited(inventory, n)[i]) is Anchor by {
            if i < a.len() {
                assert(cited(inventory, n)[i] == a[i]);
            }
        }
    }
}

/// The registry with the first `n` agents.
pub open spec fn registered(reg: RegistryV, at: u64, n: nat) -> RegistryV
    decreases n,
{
    if n == 0 {
        reg
    } else {
        registered(reg, at, (n - 1) as nat).register(at, AGENTS@[n - 1].0@, AGENTS@[n - 1].1@)
    }
}

/// Registers the first agents.
pub fn register_agents(reg: &mut AgentRegistryCell, at: u64)
    ensures
        final(reg)@ == registered(old(reg)@, at, 4),
        final(reg).ident() == old(reg).ident(),
        old(reg)@.wf() ==> final(reg)@.wf(),
{
    let ghost first = reg@;
    let ghost id = reg.ident();
    let mut i: usize = 0;
    while i < 4
        invariant
            i <= 4,
            reg@ == registered(first, at, i as nat),
            reg.ident() == id,
            first.wf() ==> reg@.wf(),
        decreases 4 - i,
    {
        reg.register(at, AGENTS[i].0, AGENTS[i].1);
        i += 1;
    }
}

} // verus!
