//! Facts: (subject, predicate, object) triples with supersession chains and
//! indexes by subject and by subject and predicate.

use vstd::prelude::*;
use crate::cbor::{
    dup_text, lookup_from, map_value, missing_text, opt_text_value, text_or_empty, u64_or_zero,
    views, Cbor, CborV,
};
use crate::cells::{list_or_empty, CellBehavior, CellType};
use crate::lists::{drop_text, lemma_without, without};
use crate::rows::{done, keyed, lemma_records_back, record_rows, records_of, to_rows, Record};
use crate::text::{cat2, cat3, str_eq};
use crate::textmap::{lists, text_order, TextMap};
use crate::ulid::{base32, draw, next_state, seeded, ulid_int, DetRng, Ulid};
use crate::vocab::{agrees, CellId, ErrCode, ErrV, SchemaId, UcError, UcResult};

verus! {

/// A fact.
#[derive(Debug)]
pub struct Fact {
    pub handle: String,
    pub subject: String,
    pub predicate: String,
    pub object: String,
    /// The confidence band, where a curator graded the fact.
    pub confidence: Option<String>,
    pub written_at: u64,
    pub superseded_by: Option<String>,
    pub supersedes: Option<String>,
    pub anchor: String,
}

/// A fact as a mathematical object.
#[verifier::ext_equal]
pub struct FactV {
    pub handle: Seq<char>,
    pub subject: Seq<char>,
    pub predicate: Seq<char>,
    pub object: Seq<char>,
    pub confidence: Option<Seq<char>>,
    pub written_at: u64,
    pub superseded_by: Option<Seq<char>>,
    pub supersedes: Option<Seq<char>>,
    pub anchor: Seq<char>,
}

impl DeepView for Fact {
    type V = FactV;

    open spec fn deep_view(&self) -> FactV {
        FactV {
            handle: self.handle@,
            subject: self.subject@,
            predicate: self.predicate@,
            object: self.object@,
            confidence: self.confidence.deep_view(),
            written_at: self.written_at,
            superseded_by: self.superseded_by.deep_view(),
            supersedes: self.supersedes.deep_view(),
            anchor: self.anchor@,
        }
    }
}

impl Clone for Fact {
    fn clone(&self) -> (r: Fact)
        ensures
            r.deep_view() == self.deep_view(),
    {
        Fact {
            handle: self.handle.clone(),
            subject: self.subject.clone(),
            predicate: self.predicate.clone(),
            object: self.object.clone(),
            confidence: dup_text(&self.confidence),
            written_at: self.written_at,
            superseded_by: dup_text(&self.superseded_by),
            supersedes: dup_text(&self.supersedes),
            anchor: self.anchor.clone(),
        }
    }
}

impl FactV {
    /// Two facts say the same, whatever superseded them and whatever they
    /// superseded.
    pub open spec fn same_content(self, f: FactV) -> bool {
        &&& self.handle == f.handle
        &&& self.subject == f.subject
        &&& self.predicate == f.predicate
        &&& self.object == f.object
        &&& self.confidence == f.confidence
        &&& self.written_at == f.written_at
        &&& self.anchor == f.anchor
    }

    /// The encoded form of a fact.
    pub open spec fn value(self) -> CborV {
        map_value(
            seq![
                ("handle"@, CborV::Text(self.handle)),
                ("subject"@, CborV::Text(self.subject)),
                ("predicate"@, CborV::Text(self.predicate)),
                ("object"@, CborV::Text(self.object)),
                ("confidence"@, opt_text_value(self.confidence)),
                ("written_at"@, CborV::U64(self.written_at)),
                ("superseded_by"@, opt_text_value(self.superseded_by)),
                ("supersedes"@, opt_text_value(self.supersedes)),
                ("anchor"@, CborV::Text(self.anchor)),
            ],
        )
    }

    /// What an encoded form says; the first required field that is missing is the
    /// error.
    pub open spec fn read(v: CborV) -> Result<FactV, ErrV> {
        if v.text_field("handle"@) is None {
            Err((ErrCode::Internal, missing_text("handle"@)))
        } else if v.text_field("subject"@) is None {
            Err((ErrCode::Internal, missing_text("subject"@)))
        } else if v.text_field("predicate"@) is None {
            Err((ErrCode::Internal, missing_text("predicate"@)))
        } else if v.text_field("object"@) is None {
            Err((ErrCode::Internal, missing_text("object"@)))
        } else {
            Ok(
                FactV {
                    handle: v.text_field("handle"@)->0,
                    subject: v.text_field("subject"@)->0,
                    predicate: v.text_field("predicate"@)->0,
                    object: v.text_field("object"@)->0,
                    confidence: v.text_field("confidence"@),
                    written_at: u64_or_zero(v, "written_at"@),
                    superseded_by: v.text_field("superseded_by"@),
                    supersedes: v.text_field("supersedes"@),
                    anchor: text_or_empty(v, "anchor"@),
                },
            )
        }
    }

    /// Reading gives back what was encoded.
    pub proof fn lemma_read_back(self)
        ensures
            FactV::read(self.value()) == Ok::<_, ErrV>(self),
            self.value().field("handle"@) == Some(CborV::Text(self.handle)),
            self.value().field("subject"@) == Some(CborV::Text(self.subject)),
            self.value().field("predicate"@) == Some(CborV::Text(self.predicate)),
            self.value().field("object"@) == Some(CborV::Text(self.object)),
            self.value().field("confidence"@) == Some(opt_text_value(self.confidence)),
            self.value().field("written_at"@) == Some(CborV::U64(self.written_at)),
            self.value().field("superseded_by"@) == Some(opt_text_value(self.superseded_by)),
            self.value().field("supersedes"@) == Some(opt_text_value(self.supersedes)),
            self.value().field("anchor"@) == Some(CborV::Text(self.anchor)),
    {
        reveal_strlit("handle");
        reveal_strlit("subject");
        reveal_strlit("predicate");
        reveal_strlit("object");
        reveal_strlit("confidence");
        reveal_strlit("written_at");
        reveal_strlit("superseded_by");
        reveal_strlit("supersedes");
        reveal_strlit("anchor");
        assert("handle"@.len() == 6);
        assert("subject"@.len() == 7);
        assert("predicate"@.len() == 9);
        assert("object"@.len() == 6);
        assert("confidence"@.len() == 10);
        assert("written_at"@.len() == 10);
        assert("superseded_by"@.len() == 13);
        assert("supersedes"@.len() == 10);
        assert("anchor"@.len() == 6);
        assert("handle"@[0] != "object"@[0]);
        assert("handle"@[0] != "anchor"@[0]);
        assert("object"@[0] != "anchor"@[0]);
        assert("confidence"@[0] != "written_at"@[0]);
        assert("confidence"@[0] != "supersedes"@[0]);
        assert("written_at"@[0] != "supersedes"@[0]);
        reveal_with_fuel(lookup_from, 10);
        let m = self.value()->Pairs_0;
        assert(m[0].0 == CborV::Text("handle"@));
        assert(m[1].0 == CborV::Text("subject"@));
        assert(m[2].0 == CborV::Text("predicate"@));
        assert(m[3].0 == CborV::Text("object"@));
        assert(m[4].0 == CborV::Text("confidence"@));
        assert(m[5].0 == CborV::Text("written_at"@));
        assert(m[6].0 == CborV::Text("superseded_by"@));
        assert(m[7].0 == CborV::Text("supersedes"@));
        assert(m[8].0 == CborV::Text("anchor"@));
        assert(self.value().field("handle"@) == Some(CborV::Text(self.handle)));
        assert(self.value().field("subject"@) == Some(CborV::Text(self.subject)));
        assert(self.value().field("predicate"@) == Some(CborV::Text(self.predicate)));
        assert(self.value().field("object"@) == Some(CborV::Text(self.object)));
        assert(self.value().field("confidence"@) == Some(opt_text_value(self.confidence)));
        assert(self.value().field("written_at"@) == Some(CborV::U64(self.written_at)));
        assert(self.value().field("superseded_by"@) == Some(opt_text_value(self.superseded_by)));
        assert(self.value().field("supersedes"@) == Some(opt_text_value(self.supersedes)));
        assert(self.value().field("anchor"@) == Some(CborV::Text(self.anchor)));
    }

}

impl Fact {
    pub(crate) fn to_cbor(&self) -> (r: Cbor)
        ensures
            r@ == self.deep_view().value(),
    {
        let pairs = vec![
            ("handle", Cbor::t(self.handle.as_str())),
            ("subject", Cbor::t(self.subject.as_str())),
            ("predicate", Cbor::t(self.predicate.as_str())),
            ("object", Cbor::t(self.object.as_str())),
            ("confidence", Cbor::opt_text(&self.confidence)),
            ("written_at", Cbor::U64(self.written_at)),
            ("superseded_by", Cbor::opt_text(&self.superseded_by)),
            ("supersedes", Cbor::opt_text(&self.supersedes)),
            ("anchor", Cbor::t(self.anchor.as_str())),
        ];
        let ghost want = seq![
            ("handle"@, CborV::Text(self.handle@)),
            ("subject"@, CborV::Text(self.subject@)),
            ("predicate"@, CborV::Text(self.predicate@)),
            ("object"@, CborV::Text(self.object@)),
            ("confidence"@, opt_text_value(self.confidence.deep_view())),
            ("written_at"@, CborV::U64(self.written_at)),
            ("superseded_by"@, opt_text_value(self.superseded_by.deep_view())),
            ("supersedes"@, opt_text_value(self.supersedes.deep_view())),
            ("anchor"@, CborV::Text(self.anchor@)),
        ];
        assert(Seq::new(pairs@.len(), |i: int| (pairs@[i].0@, pairs@[i].1@)) =~= want);
        Cbor::map(pairs)
    }

    pub(crate) fn from_cbor(c: &Cbor) -> (r: UcResult<Fact>)
        ensures
            agrees(r, FactV::read(c@)),
    {
        let handle = match c.req_str("handle") {
            Ok(x) => x,
            Err(e) => {
                return Err(e);
            },
        };
        let subject = match c.req_str("subject") {
            Ok(x) => x,
            Err(e) => {
                return Err(e);
            },
        };
        let predicate = match c.req_str("predicate") {
            Ok(x) => x,
            Err(e) => {
                return Err(e);
            },
        };
        let object = match c.req_str("object") {
            Ok(x) => x,
            Err(e) => {
                return Err(e);
            },
        };
        let confidence = c.opt_str("confidence");
        let written_at: u64 = c.u64_or_zero("written_at");
        let superseded_by = c.opt_str("superseded_by");
        let supersedes = c.opt_str("supersedes");
        let anchor = c.str_or_empty("anchor");
        Ok(Fact { handle, subject, predicate, object, confidence, written_at, superseded_by, supersedes, anchor })
    }
}

impl Record for Fact {
    open spec fn key_of(v: FactV) -> Seq<char> {
        v.handle
    }

    open spec fn value_of(v: FactV) -> CborV {
        v.value()
    }

    open spec fn read_of(c: CborV) -> Result<FactV, ErrV> {
        FactV::read(c)
    }

    open spec fn valid(v: FactV) -> bool {
        true
    }

    proof fn lemma_back(v: FactV) {
        v.lemma_read_back();
    }

    fn key(&self) -> (r: String) {
        self.handle.clone()
    }

    fn to_row(&self) -> (r: Cbor) {
        self.to_cbor()
    }

    fn from_row(c: &Cbor) -> (r: UcResult<Fact>) {
        Fact::from_cbor(c)
    }
}

/// The state of the fact store. The indexes list handles in the order in which
/// they were written.
#[verifier::ext_equal]
pub struct FactsV {
    pub facts: Map<Seq<char>, FactV>,
    pub by_subject: Map<Seq<char>, Seq<Seq<char>>>,
    pub by_sp: Map<Seq<char>, Map<Seq<char>, Seq<Seq<char>>>>,
}

/// The index under a subject, empty where there is none.
pub open spec fn index_or_empty(
    m: Map<Seq<char>, Map<Seq<char>, Seq<Seq<char>>>>,
    k: Seq<char>,
) -> Map<Seq<char>, Seq<Seq<char>>> {
    if m.contains_key(k) {
        m[k]
    } else {
        Map::empty()
    }
}

/// The active facts behind a list of handles: those that exist and are not
/// superseded.
pub open spec fn active_of(facts: Map<Seq<char>, FactV>, handles: Seq<Seq<char>>) -> Seq<FactV>
    decreases handles.len(),
{
    if handles.len() == 0 {
        Seq::empty()
    } else {
        let before = active_of(facts, handles.drop_last());
        let h = handles.last();
        if facts.contains_key(h) && facts[h].superseded_by is None {
            before.push(facts[h])
        } else {
            before
        }
    }
}

/// The rows of a list of facts.
pub open spec fn fact_values(fs: Seq<FactV>) -> Seq<CborV> {
    Seq::new(fs.len(), |i: int| fs[i].value())
}

/// The handle of a fact written at a time with a seed.
pub open spec fn fact_handle(at: u64, seed: u64) -> Seq<char> {
    let s = next_state(seeded(seed ^ at));
    "fact/"@ + base32(ulid_int(at, draw(s), draw(next_state(s))) as u128)
}

/// No handle comes twice.
pub open spec fn once(fs: Seq<FactV>) -> bool {
    forall|i: int, j: int|
        0 <= i < j < fs.len() ==> (#[trigger] fs[i]).handle != (#[trigger] fs[j]).handle
}

proof fn lemma_pushed(s: Seq<Seq<char>>, x: Seq<char>, y: Seq<char>)
    ensures
        s.push(x).contains(y) <==> s.contains(y) || y == x,
        s.no_duplicates() && !s.contains(x) ==> s.push(x).no_duplicates(),
{
    let t = s.push(x);
    assert(t[s.len() as int] == x);
    if s.contains(y) {
        let i = choose|i: int| 0 <= i < s.len() && s[i] == y;
        assert(t[i] == y);
    }
    if s.no_duplicates() && !s.contains(x) {
        assert forall|i: int, j: int| 0 <= i < t.len() && 0 <= j < t.len() && i != j implies t[i]
            != t[j] by {
            if i < s.len() {
                assert(s.contains(s[i]));
            }
            if j < s.len() {
                assert(s.contains(s[j]));
            }
        }
    }
}

proof fn lemma_active_of(facts: Map<Seq<char>, FactV>, handles: Seq<Seq<char>>)
    requires
        keyed::<Fact>(facts),
        handles.no_duplicates(),
    ensures
        once(active_of(facts, handles)),
        forall|f: FactV| #[trigger]
            active_of(facts, handles).contains(f) <==> handles.contains(f.handle)
                && facts.contains_key(f.handle) && facts[f.handle] == f && f.superseded_by is None,
    decreases handles.len(),
{
    let r = active_of(facts, handles);
    if handles.len() > 0 {
        let d = handles.drop_last();
        let h = handles.last();
        let before = active_of(facts, d);
        assert(d.no_duplicates());
        lemma_active_of(facts, d);
        assert(handles =~= d.push(h));
        assert(!d.contains(h)) by {
            if d.contains(h) {
                let i = choose|i: int| 0 <= i < d.len() && d[i] == h;
                assert(handles[i] == handles[handles.len() - 1]);
            }
        }
        assert forall|f: FactV| #[trigger]
            r.contains(f) <==> handles.contains(f.handle) && facts.contains_key(f.handle)
                && facts[f.handle] == f && f.superseded_by is None by {
            lemma_pushed(d, h, f.handle);
            if facts.contains_key(h) && facts[h].superseded_by is None {
                assert(r == before.push(facts[h]));
                assert(r[before.len() as int] == facts[h]);
                if before.contains(f) {
                    let i = choose|i: int| 0 <= i < before.len() && before[i] == f;
                    assert(r[i] == f);
                }
            }
        }
        assert forall|i: int, j: int| 0 <= i < j < r.len() implies (#[trigger] r[i]).handle != (
        #[trigger] r[j]).handle by {
            if j == before.len() {
                assert(before.contains(before[i]));
            }
        }
    }
}

impl FactsV {
    pub open spec fn empty() -> FactsV {
        FactsV { facts: Map::empty(), by_subject: Map::empty(), by_sp: Map::empty() }
    }

    /// The handles that are listed under a subject.
    pub open spec fn of_subject(self, s: Seq<char>) -> Seq<Seq<char>> {
        list_or_empty(self.by_subject, s)
    }

    /// The handles that are listed under a subject and predicate.
    pub open spec fn of_sp(self, s: Seq<char>, p: Seq<char>) -> Seq<Seq<char>> {
        list_or_empty(index_or_empty(self.by_sp, s), p)
    }

    /// The fact under a handle has that subject.
    pub open spec fn about(self, h: Seq<char>, s: Seq<char>) -> bool {
        self.facts.contains_key(h) && self.facts[h].subject == s
    }

    /// The fact under a handle has that subject and predicate.
    pub open spec fn says(self, h: Seq<char>, s: Seq<char>, p: Seq<char>) -> bool {
        self.about(h, s) && self.facts[h].predicate == p
    }

    /// Every fact is listed once under its subject, and once under its subject and
    /// predicate, and nothing else is.
    pub open spec fn indexed(self) -> bool {
        &&& forall|s: Seq<char>| (#[trigger] self.of_subject(s)).no_duplicates()
        &&& forall|s: Seq<char>, h: Seq<char>| #[trigger]
            self.of_subject(s).contains(h) <==> self.about(h, s)
        &&& forall|s: Seq<char>, p: Seq<char>| (#[trigger] self.of_sp(s, p)).no_duplicates()
        &&& forall|s: Seq<char>, p: Seq<char>, h: Seq<char>| #[trigger]
            self.of_sp(s, p).contains(h) <==> self.says(h, s, p)
    }

    /// Each fact is under its own handle, and the indexes list the facts.
    pub open spec fn wf(self) -> bool {
        keyed::<Fact>(self.facts) && self.indexed()
    }

    /// The state with other lists under a subject and predicate.
    pub open spec fn relisted(
        self,
        s: Seq<char>,
        p: Seq<char>,
        subject: Seq<Seq<char>>,
        sp: Seq<Seq<char>>,
    ) -> FactsV {
        FactsV {
            by_subject: self.by_subject.insert(s, subject),
            by_sp: self.by_sp.insert(s, index_or_empty(self.by_sp, s).insert(p, sp)),
            ..self
        }
    }

    /// The state with a handle taken out of the lists of its fact.
    pub open spec fn unlisted(self, h: Seq<char>) -> FactsV {
        if self.facts.contains_key(h) {
            let f = self.facts[h];
            self.relisted(
                f.subject,
                f.predicate,
                without(self.of_subject(f.subject), h),
                without(self.of_sp(f.subject, f.predicate), h),
            )
        } else {
            self
        }
    }

    /// One fact more, in place of one with its handle; it is listed as the last of
    /// its subject and predicate, and nowhere else.
    pub open spec fn insert(self, f: FactV) -> FactsV {
        let st = self.unlisted(f.handle);
        FactsV {
            facts: self.facts.insert(f.handle, f),
            ..st.relisted(
                f.subject,
                f.predicate,
                st.of_subject(f.subject).push(f.handle),
                st.of_sp(f.subject, f.predicate).push(f.handle),
            )
        }
    }

    proof fn lemma_relisted(
        self,
        s: Seq<char>,
        p: Seq<char>,
        subject: Seq<Seq<char>>,
        sp: Seq<Seq<char>>,
    )
        ensures
            forall|t: Seq<char>| #[trigger]
                self.relisted(s, p, subject, sp).of_subject(t) == if t == s {
                    subject
                } else {
                    self.of_subject(t)
                },
            forall|t: Seq<char>, q: Seq<char>| #[trigger]
                self.relisted(s, p, subject, sp).of_sp(t, q) == if t == s && q == p {
                    sp
                } else {
                    self.of_sp(t, q)
                },
    {
    }

    proof fn lemma_unlisted(self, h: Seq<char>)
        requires
            self.indexed(),
        ensures
            ({
                let st = self.unlisted(h);
                &&& st.facts == self.facts
                &&& forall|s: Seq<char>| (#[trigger] st.of_subject(s)).no_duplicates()
                &&& forall|s: Seq<char>, x: Seq<char>| #[trigger]
                    st.of_subject(s).contains(x) <==> x != h && self.about(x, s)
                &&& forall|s: Seq<char>, p: Seq<char>| (#[trigger] st.of_sp(s, p)).no_duplicates()
                &&& forall|s: Seq<char>, p: Seq<char>, x: Seq<char>| #[trigger]
                    st.of_sp(s, p).contains(x) <==> x != h && self.says(x, s, p)
            }),
    {
        let st = self.unlisted(h);
        if self.facts.contains_key(h) {
            let f = self.facts[h];
            let a = self.of_subject(f.subject);
            let b = self.of_sp(f.subject, f.predicate);
            self.lemma_relisted(f.subject, f.predicate, without(a, h), without(b, h));
            lemma_without(a, h, h);
            lemma_without(b, h, h);
            assert forall|s: Seq<char>, x: Seq<char>| #[trigger]
                st.of_subject(s).contains(x) <==> x != h && self.about(x, s) by {
                lemma_without(a, h, x);
                assert(self.of_subject(s).contains(x) <==> self.about(x, s));
            }
            assert forall|s: Seq<char>, p: Seq<char>, x: Seq<char>| #[trigger]
                st.of_sp(s, p).contains(x) <==> x != h && self.says(x, s, p) by {
                lemma_without(b, h, x);
                assert(self.of_sp(s, p).contains(x) <==> self.says(x, s, p));
            }
        } else {
            assert forall|s: Seq<char>, x: Seq<char>| #[trigger]
                st.of_subject(s).contains(x) <==> x != h && self.about(x, s) by {
                assert(self.of_subject(s).contains(x) <==> self.about(x, s));
            }
            assert forall|s: Seq<char>, p: Seq<char>, x: Seq<char>| #[trigger]
                st.of_sp(s, p).contains(x) <==> x != h && self.says(x, s, p) by {
                assert(self.of_sp(s, p).contains(x) <==> self.says(x, s, p));
            }
        }
    }

    /// Writing a fact keeps every fact listed under its own subject and predicate
    /// alone.
    pub proof fn lemma_insert(self, f: FactV)
        requires
            self.wf(),
        ensures
            self.insert(f).wf(),
    {
        let st = self.unlisted(f.handle);
        let a = st.of_subject(f.subject);
        let b = st.of_sp(f.subject, f.predicate);
        let r = self.insert(f);
        let listed = st.relisted(f.subject, f.predicate, a.push(f.handle), b.push(f.handle));
        self.lemma_unlisted(f.handle);
        st.lemma_relisted(f.subject, f.predicate, a.push(f.handle), b.push(f.handle));
        assert(!a.contains(f.handle));
        assert(!b.contains(f.handle));
        assert forall|s: Seq<char>| (#[trigger] r.of_subject(s)).no_duplicates() by {
            assert(r.of_subject(s) == listed.of_subject(s));
            lemma_pushed(a, f.handle, f.handle);
        }
        assert forall|s: Seq<char>, p: Seq<char>| (#[trigger] r.of_sp(s, p)).no_duplicates() by {
            assert(r.of_sp(s, p) == listed.of_sp(s, p));
            lemma_pushed(b, f.handle, f.handle);
        }
        assert forall|s: Seq<char>, h: Seq<char>| #[trigger]
            r.of_subject(s).contains(h) <==> r.about(h, s) by {
            assert(r.of_subject(s) == listed.of_subject(s));
            lemma_pushed(a, f.handle, h);
            assert(st.of_subject(s).contains(h) <==> h != f.handle && self.about(h, s));
        }
        assert forall|s: Seq<char>, p: Seq<char>, h: Seq<char>| #[trigger]
            r.of_sp(s, p).contains(h) <==> r.says(h, s, p) by {
            assert(r.of_sp(s, p) == listed.of_sp(s, p));
            lemma_pushed(b, f.handle, h);
            assert(st.of_sp(s, p).contains(h) <==> h != f.handle && self.says(h, s, p));
        }
    }

    /// A supersession leaves the lists as they are.
    pub proof fn lemma_link(self, old: Seq<char>, new: Seq<char>)
        requires
            self.wf(),
            self.facts.contains_key(old),
            self.facts.contains_key(new),
        ensures
            self.link(old, new).wf(),
    {
        let r = self.link(old, new);
        assert forall|s: Seq<char>, h: Seq<char>| #[trigger]
            r.of_subject(s).contains(h) <==> r.about(h, s) by {
            assert(self.of_subject(s).contains(h) <==> self.about(h, s));
        }
        assert forall|s: Seq<char>, p: Seq<char>, h: Seq<char>| #[trigger]
            r.of_sp(s, p).contains(h) <==> r.says(h, s, p) by {
            assert(self.of_sp(s, p).contains(h) <==> self.says(h, s, p));
        }
        assert forall|s: Seq<char>| (#[trigger] r.of_subject(s)).no_duplicates() by {
            assert(r.of_subject(s) == self.of_subject(s));
        }
        assert forall|s: Seq<char>, p: Seq<char>| (#[trigger] r.of_sp(s, p)).no_duplicates() by {
            assert(r.of_sp(s, p) == self.of_sp(s, p));
        }
    }

    /// Both sides of the supersession of `old` by `new`.
    pub open spec fn link(self, old: Seq<char>, new: Seq<char>) -> FactsV {
        let a = self.facts.insert(
            old,
            FactV { superseded_by: Some(new), ..self.facts[old] },
        );
        FactsV { facts: a.insert(new, FactV { supersedes: Some(old), ..a[new] }), ..self }
    }

    /// Why `old` cannot be superseded, if it cannot.
    pub open spec fn old_error(self, old: Seq<char>) -> Option<ErrV> {
        if !self.facts.contains_key(old) {
            Some((ErrCode::NotFound, "old fact "@ + old + " not found"@))
        } else if self.facts[old].superseded_by is Some {
            Some((ErrCode::ContractViolation, old + " already superseded"@))
        } else {
            None
        }
    }

    /// Superseding `old` by `new`.
    pub open spec fn supersede(self, old: Seq<char>, new: Seq<char>) -> Result<FactsV, ErrV> {
        if !self.facts.contains_key(new) {
            Err((ErrCode::NotFound, "new fact "@ + new + " not found"@))
        } else {
            match self.old_error(old) {
                Some(e) => Err(e),
                None => Ok(self.link(old, new)),
            }
        }
    }

    /// Writing a new fact, and with it the supersession of `old` where asked.
    pub open spec fn insert_with(self, f: FactV, old: Option<Seq<char>>) -> Result<FactsV, ErrV> {
        if self.facts.contains_key(f.handle) {
            Err((ErrCode::ContractViolation, "fact "@ + f.handle + " already exists"@))
        } else {
            match old {
                None => Ok(self.insert(f)),
                Some(o) => match self.old_error(o) {
                    Some(e) => Err(e),
                    None => Ok(self.insert(f).link(o, f.handle)),
                },
            }
        }
    }

    /// The active facts of a subject and predicate, in the order written.
    pub open spec fn active_sp(self, s: Seq<char>, p: Seq<char>) -> Seq<FactV> {
        active_of(self.facts, self.of_sp(s, p))
    }

    /// The active facts of a subject, in the order written.
    pub open spec fn active_subject(self, s: Seq<char>) -> Seq<FactV> {
        active_of(self.facts, self.of_subject(s))
    }

    /// A fact is active for a subject and predicate.
    pub open spec fn stands(self, f: FactV, s: Seq<char>, p: Seq<char>) -> bool {
        self.facts.contains_key(f.handle) && self.facts[f.handle] == f && f.subject == s
            && f.predicate == p && f.superseded_by is None
    }

    /// A fact is active for a subject.
    pub open spec fn stands_for(self, f: FactV, s: Seq<char>) -> bool {
        self.facts.contains_key(f.handle) && self.facts[f.handle] == f && f.subject == s
            && f.superseded_by is None
    }

    /// The active facts of a subject and predicate are exactly the stored facts
    /// with that subject and predicate that are not superseded, each once.
    pub proof fn lemma_active_sp(self, s: Seq<char>, p: Seq<char>)
        requires
            self.wf(),
        ensures
            once(self.active_sp(s, p)),
            forall|f: FactV| #[trigger]
                self.active_sp(s, p).contains(f) <==> self.stands(f, s, p),
    {
        lemma_active_of(self.facts, self.of_sp(s, p));
        assert forall|f: FactV| #[trigger]
            self.active_sp(s, p).contains(f) <==> self.stands(f, s, p) by {
            assert(self.of_sp(s, p).contains(f.handle) <==> self.says(f.handle, s, p));
        }
    }

    /// The active facts of a subject are exactly the stored facts with that subject
    /// that are not superseded, each once.
    pub proof fn lemma_active_subject(self, s: Seq<char>)
        requires
            self.wf(),
        ensures
            once(self.active_subject(s)),
            forall|f: FactV| #[trigger]
                self.active_subject(s).contains(f) <==> self.stands_for(f, s),
    {
        lemma_active_of(self.facts, self.of_subject(s));
        assert forall|f: FactV| #[trigger]
            self.active_subject(s).contains(f) <==> self.stands_for(f, s) by {
            assert(self.of_subject(s).contains(f.handle) <==> self.about(f.handle, s));
        }
    }

    /// The answer to a query.
    pub open spec fn answer(self, q: CborV) -> Result<CborV, ErrV> {
        let op = q.text_field("op"@);
        if op == Some("get"@) {
            match q.text_field("handle"@) {
                None => Err((ErrCode::Internal, missing_text("handle"@))),
                Some(h) => if self.facts.contains_key(h) {
                    Ok(self.facts[h].value())
                } else {
                    Err((ErrCode::NotFound, "fact "@ + h))
                },
            }
        } else if op == Some("by_subject"@) {
            match q.text_field("subject"@) {
                None => Err((ErrCode::Internal, missing_text("subject"@))),
                Some(s) => Ok(
                    map_value(
                        seq![("facts"@, CborV::Array(fact_values(self.active_subject(s))))],
                    ),
                ),
            }
        } else if op == Some("by_sp"@) {
            if q.text_field("subject"@) is None {
                Err((ErrCode::Internal, missing_text("subject"@)))
            } else {
                match q.text_field("predicate"@) {
                    None => Err((ErrCode::Internal, missing_text("predicate"@))),
                    Some(p) => Ok(
                        map_value(
                            seq![
                                (
                                    "facts"@,
                                    CborV::Array(
                                        fact_values(self.active_sp(q.text_field("subject"@)->0, p)),
                                    ),
                                ),
                            ],
                        ),
                    ),
                }
            }
        } else {
            Err((ErrCode::ContractViolation, "fact: unknown op"@))
        }
    }

    /// The fact that an update asks to write.
    pub open spec fn fact_of(at: u64, u: CborV) -> Result<FactV, ErrV> {
        if u.text_field("subject"@) is None {
            Err((ErrCode::Internal, missing_text("subject"@)))
        } else if u.text_field("predicate"@) is None {
            Err((ErrCode::Internal, missing_text("predicate"@)))
        } else if u.text_field("object"@) is None {
            Err((ErrCode::Internal, missing_text("object"@)))
        } else {
            Ok(
                FactV {
                    handle: match u.text_field("handle"@) {
                        Some(h) => h,
                        None => fact_handle(at, u64_or_zero(u, "seed"@)),
                    },
                    subject: u.text_field("subject"@)->0,
                    predicate: u.text_field("predicate"@)->0,
                    object: u.text_field("object"@)->0,
                    confidence: u.text_field("confidence"@),
                    written_at: at,
                    superseded_by: None,
                    supersedes: None,
                    anchor: text_or_empty(u, "anchor"@),
                },
            )
        }
    }

    /// The state after an update, and the reply.
    pub open spec fn update(self, at: u64, u: CborV) -> (FactsV, Result<CborV, ErrV>) {
        let op = u.text_field("op"@);
        if op is None || op == Some("put"@) {
            match FactsV::fact_of(at, u) {
                Err(e) => (self, Err(e)),
                Ok(f) => (self.insert(f), Ok(map_value(seq![("handle"@, CborV::Text(f.handle))]))),
            }
        } else if op == Some("supersede"@) {
            if u.text_field("old"@) is None {
                (self, Err((ErrCode::Internal, missing_text("old"@))))
            } else if u.text_field("new"@) is None {
                (self, Err((ErrCode::Internal, missing_text("new"@))))
            } else {
                let old = u.text_field("old"@)->0;
                let new = u.text_field("new"@)->0;
                match self.supersede(old, new) {
                    Err(e) => (self, Err(e)),
                    Ok(st) => (
                        st,
                        Ok(
                            map_value(
                                seq![
                                    ("superseded"@, CborV::Text(old)),
                                    ("by"@, CborV::Text(new)),
                                ],
                            ),
                        ),
                    ),
                }
            }
        } else {
            (self, Err((ErrCode::ContractViolation, "fact: unknown update op"@)))
        }
    }

    /// The snapshot of the state.
    pub open spec fn image(self) -> CborV {
        map_value(seq![("facts"@, CborV::Array(record_rows::<Fact>(self.facts)))])
    }

    /// The state after these rows, and the error that ended it.
    pub open spec fn restored(items: Seq<CborV>) -> (FactsV, Option<ErrV>)
        decreases items.len(),
    {
        if items.len() == 0 {
            (FactsV::empty(), None)
        } else {
            let (st, e) = FactsV::restored(items.drop_last());
            if e is Some {
                (st, e)
            } else {
                match FactV::read(items.last()) {
                    Ok(f) => (st.insert(f), None),
                    Err(x) => (st, Some(x)),
                }
            }
        }
    }

    /// What a snapshot restores to.
    pub open spec fn from_image(v: CborV) -> (FactsV, Option<ErrV>) {
        match v.array_field("facts"@) {
            Some(a) => FactsV::restored(a),
            None => (FactsV::empty(), None),
        }
    }

    proof fn lemma_restored(items: Seq<CborV>)
        ensures
            FactsV::restored(items).0.facts == records_of::<Fact>(items).0,
            FactsV::restored(items).1 == records_of::<Fact>(items).1,
            FactsV::restored(items).0.wf(),
        decreases items.len(),
    {
        if items.len() > 0 {
            FactsV::lemma_restored(items.drop_last());
            if let Ok(f) = FactV::read(items.last()) {
                FactsV::restored(items.drop_last()).0.lemma_insert(f);
            }
        }
    }

    proof fn lemma_stops(items: Seq<CborV>, n: int)
        requires
            0 <= n <= items.len(),
            FactsV::restored(items.take(n)).1 is Some,
        ensures
            FactsV::restored(items) == FactsV::restored(items.take(n)),
        decreases items.len(),
    {
        if n < items.len() {
            assert(items.drop_last().take(n) =~= items.take(n));
            FactsV::lemma_stops(items.drop_last(), n);
        } else {
            assert(items.take(n) =~= items);
        }
    }

    /// A snapshot restores to the same facts, supersession chains among them, and
    /// so to a state with the same snapshot and the same active facts.
    pub proof fn lemma_restore_snapshot(self)
        requires
            self.wf(),
            self.facts.dom().finite(),
        ensures
            FactsV::from_image(self.image()).0.facts == self.facts,
            FactsV::from_image(self.image()).1 is None,
            FactsV::from_image(self.image()).0.image() == self.image(),
            forall|s: Seq<char>, p: Seq<char>, f: FactV|
                #![trigger self.active_sp(s, p).contains(f)]
                FactsV::from_image(self.image()).0.active_sp(s, p).contains(f)
                    <==> self.active_sp(s, p).contains(f),
    {
        let items = record_rows::<Fact>(self.facts);
        assert(self.image()->Pairs_0[0].0 == CborV::Text("facts"@));
        assert(self.image().field("facts"@) == Some(CborV::Array(items)));
        lemma_records_back::<Fact>(self.facts);
        FactsV::lemma_restored(items);
        let r = FactsV::from_image(self.image()).0;
        assert forall|s: Seq<char>, p: Seq<char>, f: FactV|
            #![trigger self.active_sp(s, p).contains(f)]
            r.active_sp(s, p).contains(f) <==> self.active_sp(s, p).contains(f) by {
            r.lemma_active_sp(s, p);
            self.lemma_active_sp(s, p);
        }
    }

    /// A supersession holds on both sides, touches no other fact, and cannot
    /// be repeated: what is superseded stays superseded by the first.
    pub proof fn lemma_supersede(self, old: Seq<char>, new: Seq<char>, other: Seq<char>, h: Seq<char>)
        requires
            self.supersede(old, new) is Ok,
            other != old,
            other != new,
        ensures
            ({
                let st = self.supersede(old, new)->Ok_0;
                &&& st.facts[old].superseded_by == Some(new)
                &&& st.facts[new].supersedes == Some(old)
                &&& st.facts.dom() == self.facts.dom()
                &&& st.facts.contains_key(other) ==> st.facts[other] == self.facts[other]
                &&& st.facts.contains_key(h) ==> st.supersede(old, h) == Err::<FactsV, ErrV>(
                    (ErrCode::ContractViolation, old + " already superseded"@),
                )
            }),
    {
        let st = self.supersede(old, new)->Ok_0;
        assert(st.facts.dom() =~= self.facts.dom());
    }

    /// An update that asks for the supersession of `o` by `n` is done exactly where
    /// both facts are there and `o` was not superseded. Afterwards `o` names `n` as
    /// what replaced it and `n` names `o` as what it replaced; neither says anything
    /// else than before, no other fact is touched, and `o` is active no more, while
    /// every other fact is active as it was. The reply names both.
    pub proof fn lemma_update_supersedes(self, at: u64, u: CborV, o: Seq<char>, n: Seq<char>)
        requires
            u.text_field("op"@) == Some("supersede"@),
            u.text_field("old"@) == Some(o),
            u.text_field("new"@) == Some(n),
        ensures
            ({
                let (st, r) = self.update(at, u);
                &&& r is Ok <==> self.facts.contains_key(o) && self.facts.contains_key(n)
                    && self.facts[o].superseded_by is None
                &&& r is Err ==> st == self
                &&& r is Ok ==> {
                    &&& r->Ok_0.text_field("superseded"@) == Some(o)
                    &&& r->Ok_0.text_field("by"@) == Some(n)
                    &&& st.facts.dom() == self.facts.dom()
                    &&& st.facts[o].superseded_by == Some(n)
                    &&& st.facts[n].supersedes == Some(o)
                    &&& o != n ==> st.facts[n].superseded_by == self.facts[n].superseded_by
                    &&& o != n ==> st.facts[o].supersedes == self.facts[o].supersedes
                    &&& forall|h: Seq<char>| #[trigger]
                        self.facts.contains_key(h) ==> st.facts[h].same_content(self.facts[h])
                    &&& forall|h: Seq<char>| #[trigger]
                        self.facts.contains_key(h) && h != o && h != n ==> st.facts[h]
                            == self.facts[h]
                }
                &&& r is Ok && self.wf() ==> {
                    &&& st.wf()
                    &&& forall|s: Seq<char>, p: Seq<char>| #[trigger]
                        st.active_handle(s, p, o) == false
                    &&& forall|s: Seq<char>, p: Seq<char>, h: Seq<char>|
                        h != o ==> #[trigger] st.active_handle(s, p, h) == self.active_handle(
                            s,
                            p,
                            h,
                        )
                }
            }),
    {
        reveal_strlit("put");
        reveal_strlit("supersede");
        reveal_strlit("superseded");
        reveal_strlit("by");
        assert("put"@.len() == 3 && "supersede"@.len() == 9);
        assert("superseded"@.len() == 10 && "by"@.len() == 2);
        reveal_with_fuel(lookup_from, 3);
        let (st, r) = self.update(at, u);
        if r is Ok {
            let m = r->Ok_0->Pairs_0;
            assert(m[0].0 == CborV::Text("superseded"@));
            assert(m[1].0 == CborV::Text("by"@));
            assert(r->Ok_0.field("superseded"@) == Some(CborV::Text(o)));
            assert(r->Ok_0.field("by"@) == Some(CborV::Text(n)));
            assert(st.facts.dom() =~= self.facts.dom());
            if self.wf() {
                self.lemma_link(o, n);
                assert forall|s: Seq<char>, p: Seq<char>| #[trigger]
                    st.active_handle(s, p, o) == false by {
                    st.lemma_active_handle(s, p, o);
                }
                assert forall|s: Seq<char>, p: Seq<char>, h: Seq<char>| h != o implies #[trigger]
                    st.active_handle(s, p, h) == self.active_handle(s, p, h) by {
                    st.lemma_active_handle(s, p, h);
                    self.lemma_active_handle(s, p, h);
                }
            }
        }
    }

    /// Writing a fact together with what it supersedes is done exactly where its
    /// handle is new and what it supersedes is there and was not superseded. The
    /// fact is stored as given, the supersession holds on both sides, and no other
    /// fact is touched.
    pub proof fn lemma_insert_with(self, f: FactV, old: Option<Seq<char>>)
        ensures
            self.insert_with(f, old) is Ok <==> !self.facts.contains_key(f.handle) && (old is Some
                ==> self.facts.contains_key(old->0) && self.facts[old->0].superseded_by is None),
            self.insert_with(f, old) is Ok ==> {
                let st = self.insert_with(f, old)->Ok_0;
                &&& st.facts.contains_key(f.handle)
                &&& st.facts[f.handle].same_content(f)
                &&& st.facts[f.handle].superseded_by == f.superseded_by
                &&& old is None ==> st.facts[f.handle] == f
                &&& old is Some ==> st.facts[f.handle].supersedes == old
                &&& old is Some ==> st.facts[old->0].superseded_by == Some(f.handle)
                &&& old is Some ==> st.facts[old->0].same_content(self.facts[old->0])
                &&& forall|h: Seq<char>| #[trigger]
                    st.facts.contains_key(h) <==> self.facts.contains_key(h) || h == f.handle
                &&& forall|h: Seq<char>| #[trigger]
                    self.facts.contains_key(h) && old != Some(h) ==> st.facts[h] == self.facts[h]
            },
    {
    }

    /// A handle is that of an active fact of a subject and predicate.
    pub open spec fn active_handle(self, s: Seq<char>, p: Seq<char>, h: Seq<char>) -> bool {
        exists|f: FactV| #[trigger] self.active_sp(s, p).contains(f) && f.handle == h
    }

    /// The active handles of a subject and predicate are those of the stored facts
    /// that say something of them and that nothing superseded.
    pub proof fn lemma_active_handle(self, s: Seq<char>, p: Seq<char>, h: Seq<char>)
        requires
            self.wf(),
        ensures
            self.active_handle(s, p, h) <==> self.facts.contains_key(h) && self.facts[h].subject == s
                && self.facts[h].predicate == p && self.facts[h].superseded_by is None,
    {
        self.lemma_active_sp(s, p);
        if self.facts.contains_key(h) && self.facts[h].subject == s && self.facts[h].predicate == p
            && self.facts[h].superseded_by is None {
            let f = self.facts[h];
            assert(f.handle == h);
            assert(self.stands(f, s, p));
            assert(self.active_sp(s, p).contains(f));
        }
        if self.active_handle(s, p, h) {
            let f = choose|f: FactV| #[trigger] self.active_sp(s, p).contains(f) && f.handle == h;
            assert(self.stands(f, s, p));
        }
    }

    /// An update that writes a fact stores what it says under the handle that the
    /// reply names: the given one, where one was given. The fact is active, and no
    /// other fact is touched. Without a subject, a predicate or an object nothing
    /// is written.
    pub proof fn lemma_update_puts(self, at: u64, u: CborV, other: Seq<char>)
        requires
            u.text_field("op"@) is None || u.text_field("op"@) == Some("put"@),
        ensures
            ({
                let (st, r) = self.update(at, u);
                &&& r is Ok <==> u.text_field("subject"@) is Some && u.text_field("predicate"@) is Some
                    && u.text_field("object"@) is Some
                &&& r is Err ==> st == self
                &&& r is Ok ==> {
                    let h = r->Ok_0.text_field("handle"@)->0;
                    let f = st.facts[h];
                    &&& r->Ok_0.text_field("handle"@) is Some
                    &&& u.text_field("handle"@) is Some ==> h == u.text_field("handle"@)->0
                    &&& st.facts.contains_key(h)
                    &&& f.handle == h
                    &&& u.text_field("subject"@) == Some(f.subject)
                    &&& u.text_field("predicate"@) == Some(f.predicate)
                    &&& u.text_field("object"@) == Some(f.object)
                    &&& u.text_field("confidence"@) == f.confidence
                    &&& u.text_field("anchor"@) is Some ==> u.text_field("anchor"@) == Some(f.anchor)
                    &&& u.text_field("anchor"@) is None ==> f.anchor.len() == 0
                    &&& f.written_at == at
                    &&& f.superseded_by is None
                    &&& f.supersedes is None
                    &&& other != h ==> (st.facts.contains_key(other) <==> self.facts.contains_key(
                        other,
                    )) && (self.facts.contains_key(other) ==> st.facts[other] == self.facts[other])
                    &&& self.wf() ==> st.wf() && st.active_handle(f.subject, f.predicate, h)
                }
            }),
    {
        reveal_strlit("put");
        reveal_strlit("supersede");
        reveal_strlit("handle");
        assert("put"@.len() == 3 && "supersede"@.len() == 9);
        reveal_with_fuel(lookup_from, 2);
        let (st, r) = self.update(at, u);
        if r is Ok {
            let f = FactsV::fact_of(at, u)->Ok_0;
            let m = r->Ok_0->Pairs_0;
            assert(m[0].0 == CborV::Text("handle"@));
            assert(r->Ok_0.field("handle"@) == Some(CborV::Text(f.handle)));
            if self.wf() {
                self.lemma_insert(f);
                st.lemma_active_handle(f.subject, f.predicate, f.handle);
            }
        }
    }

    /// What was written is what a query for its handle gives back, field by field;
    /// and a query for a handle that nothing was written under is refused.
    pub proof fn lemma_get(self, q: CborV, h: Seq<char>)
        requires
            q.text_field("op"@) == Some("get"@),
            q.text_field("handle"@) == Some(h),
        ensures
            self.facts.contains_key(h) ==> self.answer(q) is Ok && FactV::read(self.answer(q)->Ok_0)
                == Ok::<_, ErrV>(self.facts[h]),
            self.facts.contains_key(h) ==> {
                let a = self.answer(q)->Ok_0;
                let f = self.facts[h];
                &&& a.text_field("handle"@) == Some(f.handle)
                &&& a.text_field("subject"@) == Some(f.subject)
                &&& a.text_field("predicate"@) == Some(f.predicate)
                &&& a.text_field("object"@) == Some(f.object)
                &&& a.text_field("superseded_by"@) == f.superseded_by
                &&& a.text_field("supersedes"@) == f.supersedes
            },
            !self.facts.contains_key(h) ==> self.answer(q) is Err && self.answer(q)->Err_0.0
                is NotFound,
    {
        if self.facts.contains_key(h) {
            self.facts[h].lemma_read_back();
        }
    }

    /// A query for a subject and predicate gives the stored facts that say something
    /// of them and that nothing superseded, each as it was written, and no others.
    pub proof fn lemma_by_sp(self, q: CborV, s: Seq<char>, p: Seq<char>, f: FactV)
        requires
            self.wf(),
            q.text_field("op"@) == Some("by_sp"@),
            q.text_field("subject"@) == Some(s),
            q.text_field("predicate"@) == Some(p),
        ensures
            self.answer(q) is Ok,
            self.answer(q)->Ok_0.array_field("facts"@) is Some,
            ({
                let rows = self.answer(q)->Ok_0.array_field("facts"@)->0;
                (exists|i: int|
                    0 <= i < rows.len() && FactV::read(#[trigger] rows[i]) == Ok::<_, ErrV>(f))
                    <==> self.facts.contains_key(f.handle) && self.facts[f.handle] == f && f.subject
                    == s && f.predicate == p && f.superseded_by is None
            }),
    {
        reveal_strlit("get");
        reveal_strlit("by_subject");
        reveal_strlit("by_sp");
        reveal_strlit("facts");
        assert("get"@.len() == 3 && "by_subject"@.len() == 10 && "by_sp"@.len() == 5);
        reveal_with_fuel(lookup_from, 2);
        let fs = self.active_sp(s, p);
        let a = self.answer(q)->Ok_0;
        assert(a->Pairs_0[0].0 == CborV::Text("facts"@));
        assert(a.field("facts"@) == Some(CborV::Array(fact_values(fs))));
        let rows = fact_values(fs);
        self.lemma_active_sp(s, p);
        assert forall|i: int| 0 <= i < rows.len() implies FactV::read(#[trigger] rows[i]) == Ok::<
            _,
            ErrV,
        >(fs[i]) by {
            fs[i].lemma_read_back();
        }
        if fs.contains(f) {
            let i = fs.index_of(f);
            assert(fs[i] == f);
            assert(FactV::read(rows[i]) == Ok::<_, ErrV>(f));
        }
        if exists|i: int|
            0 <= i < rows.len() && FactV::read(#[trigger] rows[i]) == Ok::<_, ErrV>(f) {
            let i = choose|i: int|
                0 <= i < rows.len() && FactV::read(#[trigger] rows[i]) == Ok::<_, ErrV>(f);
            assert(fs[i] == f);
            assert(fs.contains(f));
        }
        assert(fs.contains(f) <==> self.stands(f, s, p));
    }

    /// A superseded fact is among no active facts, and every active fact is a
    /// stored one that is not superseded.
    pub proof fn lemma_active(facts: Map<Seq<char>, FactV>, handles: Seq<Seq<char>>, i: int)
        requires
            0 <= i < active_of(facts, handles).len(),
        ensures
            active_of(facts, handles)[i].superseded_by is None,
            exists|h: Seq<char>|
                handles.contains(h) && facts.contains_key(h) && #[trigger] facts[h] == active_of(
                    facts,
                    handles,
                )[i],
        decreases handles.len(),
    {
        let d = handles.drop_last();
        let h = handles.last();
        let before = active_of(facts, d);
        if i < before.len() {
            FactsV::lemma_active(facts, d, i);
            let x = choose|x: Seq<char>|
                d.contains(x) && facts.contains_key(x) && #[trigger] facts[x] == before[i];
            let j = choose|j: int| 0 <= j < d.len() && d[j] == x;
            assert(handles[j] == x);
        } else {
            assert(handles[handles.len() - 1] == h);
            assert(facts[h] == active_of(facts, handles)[i]);
        }
    }
}

/// The store of facts.
#[derive(Debug)]
pub struct FactCell {
    pub id: CellId,
    facts: TextMap<Fact>,
    by_subject: TextMap<Vec<String>>,
    by_sp: TextMap<TextMap<Vec<String>>>,
}

impl View for FactCell {
    type V = FactsV;

    closed spec fn view(&self) -> FactsV {
        FactsV {
            facts: self.facts@,
            by_subject: self.by_subject@,
            by_sp: self.by_sp@,
        }
    }
}

/// Takes the list under a key out of a map and puts it back with one text more.
fn push_under(m: &mut TextMap<Vec<String>>, k: &str, s: String)
    ensures
        final(m)@ == old(m)@.insert(k@, list_or_empty(old(m)@, k@).push(s@)),
{
    let ghost was = m@;
    let mut v: Vec<String> = match m.remove(k) {
        Some(v) => v,
        None => Vec::new(),
    };
    let ghost v0 = v.deep_view();
    assert(v0 =~= list_or_empty(was, k@));
    v.push(s);
    assert(v.deep_view() =~= v0.push(s@));
    m.insert(k.to_owned(), v);
    assert(m@ =~= was.insert(k@, v0.push(s@)));
}

/// Takes the list under a key out of a map and puts it back without a text.
fn drop_under(m: &mut TextMap<Vec<String>>, k: &str, s: &str)
    ensures
        final(m)@ == old(m)@.insert(k@, without(list_or_empty(old(m)@, k@), s@)),
{
    let ghost was = m@;
    let v: Vec<String> = match m.remove(k) {
        Some(v) => v,
        None => Vec::new(),
    };
    assert(v.deep_view() =~= list_or_empty(was, k@));
    let rest = drop_text(&v, s);
    let ghost w = rest.deep_view();
    m.insert(k.to_owned(), rest);
    assert(m@ =~= was.insert(k@, w));
}

impl FactCell {
    /// The id of the cell.
    pub closed spec fn ident(&self) -> CellId {
        self.id
    }

    pub fn new(id: CellId) -> (r: Self)
        ensures
            r.ident() == id,
            r@ == FactsV::empty(),
            r@.wf(),
    {
        FactCell {
            id,
            facts: TextMap::new(),
            by_subject: TextMap::new(),
            by_sp: TextMap::new(),
        }
    }

    /// Writes a fact.
    pub fn insert(&mut self, fact: Fact)
        ensures
            final(self).ident() == old(self).ident(),
            final(self)@ == old(self)@.insert(fact.deep_view()),
            old(self)@.wf() ==> final(self)@.wf(),
    {
        let ghost was = self@;
        let ghost f = fact.deep_view();
        proof {
            if was.wf() {
                was.lemma_insert(f);
            }
        }
        self.unlist(fact.handle.as_str());
        let ghost mid = self@;
        push_under(&mut self.by_subject, fact.subject.as_str(), fact.handle.clone());
        let mut sp: TextMap<Vec<String>> = match self.by_sp.remove(fact.subject.as_str()) {
            Some(m) => m,
            None => TextMap::new(),
        };
        assert(sp@ =~= index_or_empty(mid.by_sp, f.subject));
        push_under(&mut sp, fact.predicate.as_str(), fact.handle.clone());
        self.by_sp.insert(fact.subject.clone(), sp);
        self.facts.insert(fact.handle.clone(), fact);
        assert(self@.by_sp =~= was.insert(f).by_sp);
        assert(self@ =~= was.insert(f));
    }

    /// Takes a handle out of the lists of its fact.
    fn unlist(&mut self, handle: &str)
        ensures
            final(self).ident() == old(self).ident(),
            final(self)@ == old(self)@.unlisted(handle@),
    {
        let ghost was = self@;
        let (s, p) = match self.facts.get(handle) {
            None => {
                return;
            },
            Some(f) => (f.subject.clone(), f.predicate.clone()),
        };
        drop_under(&mut self.by_subject, s.as_str(), handle);
        let mut sp: TextMap<Vec<String>> = match self.by_sp.remove(s.as_str()) {
            Some(m) => m,
            None => TextMap::new(),
        };
        assert(sp@ =~= index_or_empty(was.by_sp, s@));
        drop_under(&mut sp, p.as_str(), handle);
        self.by_sp.insert(s, sp);
        assert(self@.by_sp =~= was.unlisted(handle@).by_sp);
        assert(self@ =~= was.unlisted(handle@));
    }

    /// Sets both sides of a supersession.
    fn link(&mut self, prior: &str, new: &str)
        requires
            old(self)@.facts.contains_key(prior@),
            old(self)@.facts.contains_key(new@),
        ensures
            final(self).ident() == old(self).ident(),
            final(self)@ == old(self)@.link(prior@, new@),
            old(self)@.wf() ==> final(self)@.wf(),
    {
        let ghost was = self@;
        proof {
            if was.wf() {
                was.lemma_link(prior@, new@);
            }
        }
        if let Some(f) = self.facts.remove(prior) {
            let mut f = f;
            f.superseded_by = Some(new.to_owned());
            self.facts.insert(prior.to_owned(), f);
        }
        let ghost mid = was.facts.insert(
            prior@,
            FactV { superseded_by: Some(new@), ..was.facts[prior@] },
        );
        assert(self@.facts =~= mid);
        if let Some(f) = self.facts.remove(new) {
            let mut f = f;
            f.supersedes = Some(prior.to_owned());
            self.facts.insert(new.to_owned(), f);
        }
        assert(self@ =~= was.link(prior@, new@));
    }

    /// Why `prior` cannot be superseded, if it cannot.
    fn check_old(&self, prior: &str) -> (r: UcResult<()>)
        ensures
            agrees(r, done(self@.old_error(prior@))),
    {
        match self.facts.get(prior) {
            None => Err(UcError::not_found(cat3("old fact ", prior, " not found").as_str())),
            Some(f) => if f.superseded_by.is_some() {
                Err(UcError::schema(cat2(prior, " already superseded").as_str()))
            } else {
                Ok(())
            },
        }
    }

    /// Writes a new fact and, where asked, both sides of its supersession of
    /// `prior`: all of it or nothing.
    pub fn insert_with_supersede(&mut self, fact: Fact, prior: Option<&str>) -> (r: UcResult<()>)
        ensures
            final(self).ident() == old(self).ident(),
            old(self)@.wf() ==> final(self)@.wf(),
            match old(self)@.insert_with(fact.deep_view(), prior.deep_view()) {
                Ok(st) => r is Ok && final(self)@ == st,
                Err(e) => agrees(r, Err(e)) && final(self)@ == old(self)@,
            },
    {
        if self.facts.contains_key(fact.handle.as_str()) {
            return Err(
                UcError::schema(cat3("fact ", fact.handle.as_str(), " already exists").as_str()),
            );
        }
        match prior {
            None => {
                self.insert(fact);
            },
            Some(o) => {
                match self.check_old(o) {
                    Ok(()) => {},
                    Err(e) => {
                        return Err(e);
                    },
                }
                let new = fact.handle.clone();
                self.insert(fact);
                self.link(o, new.as_str());
            },
        }
        Ok(())
    }

    pub fn get(&self, handle: &str) -> (r: Option<&Fact>)
        ensures
            match r {
                Some(f) => self@.facts.contains_key(handle@) && f.deep_view()
                    == self@.facts[handle@],
                None => !self@.facts.contains_key(handle@),
            },
    {
        self.facts.get(handle)
    }

    pub fn has(&self, handle: &str) -> (r: bool)
        ensures
            r == self@.facts.contains_key(handle@),
    {
        self.facts.contains_key(handle)
    }

    /// The active facts behind a list of handles.
    fn active<'a>(&'a self, handles: &Vec<String>) -> (r: Vec<&'a Fact>)
        ensures
            r.deep_view() == active_of(self@.facts, handles.deep_view()),
    {
        let ghost all = handles.deep_view();
        let mut out: Vec<&Fact> = Vec::new();
        let mut i: usize = 0;
        assert(out.deep_view() =~= Seq::<FactV>::empty());
        while i < handles.len()
            invariant
                i <= handles@.len(),
                all == handles.deep_view(),
                out.deep_view() == active_of(self@.facts, all.take(i as int)),
            decreases handles.len() - i,
        {
            let ghost before = out.deep_view();
            assert(all.take(i + 1).drop_last() =~= all.take(i as int));
            assert(all.take(i + 1).last() == handles@[i as int]@);
            if let Some(f) = self.facts.get(handles[i].as_str()) {
                if f.superseded_by.is_none() {
                    out.push(f);
                    assert(out.deep_view() =~= before.push(f.deep_view()));
                }
            }
            i += 1;
        }
        assert(all.take(all.len() as int) =~= all);
        out
    }

    /// The active facts of a subject and predicate.
    pub fn active_for_sp(&self, subject: &str, predicate: &str) -> (r: Vec<&Fact>)
        ensures
            r.deep_view() == self@.active_sp(subject@, predicate@),
            self@.wf() ==> once(r.deep_view()) && forall|f: FactV| #[trigger]
                r.deep_view().contains(f) <==> self@.stands(f, subject@, predicate@),
    {
        proof {
            if self@.wf() {
                self@.lemma_active_sp(subject@, predicate@);
            }
        }
        if let Some(m) = self.by_sp.get(subject) {
            if let Some(v) = m.get(predicate) {
                return self.active(v);
            }
        }
        let r: Vec<&Fact> = Vec::new();
        assert(r.deep_view() =~= Seq::<FactV>::empty());
        r
    }

    /// The active facts of a subject.
    pub fn active_for_subject(&self, subject: &str) -> (r: Vec<&Fact>)
        ensures
            r.deep_view() == self@.active_subject(subject@),
            self@.wf() ==> once(r.deep_view()) && forall|f: FactV| #[trigger]
                r.deep_view().contains(f) <==> self@.stands_for(f, subject@),
    {
        proof {
            if self@.wf() {
                self@.lemma_active_subject(subject@);
            }
        }
        if let Some(v) = self.by_subject.get(subject) {
            return self.active(v);
        }
        let r: Vec<&Fact> = Vec::new();
        assert(r.deep_view() =~= Seq::<FactV>::empty());
        r
    }

    /// Marks `prior` superseded by `new`; both must exist.
    pub fn supersede(&mut self, prior: &str, new: &str) -> (r: UcResult<()>)
        ensures
            final(self).ident() == old(self).ident(),
            old(self)@.wf() ==> final(self)@.wf(),
            match old(self)@.supersede(prior@, new@) {
                Ok(st) => r is Ok && final(self)@ == st,
                Err(e) => agrees(r, Err(e)) && final(self)@ == old(self)@,
            },
    {
        if !self.facts.contains_key(new) {
            return Err(UcError::not_found(cat3("new fact ", new, " not found").as_str()));
        }
        match self.check_old(prior) {
            Ok(()) => {},
            Err(e) => {
                return Err(e);
            },
        }
        self.link(prior, new);
        Ok(())
    }

    pub fn len(&self) -> (r: usize)
        ensures
            self@.facts.dom().finite(),
            r == self@.facts.dom().len(),
    {
        self.facts.len()
    }

    pub fn is_empty(&self) -> (r: bool)
        ensures
            r == (self@.facts.dom().len() == 0),
    {
        self.facts.len() == 0
    }

    /// Every fact, in handle order.
    pub fn iter(&self) -> (r: Vec<&Fact>)
        ensures
            lists(text_order(self@.facts.dom()), self@.facts.dom()),
            r.deep_view() == text_order(self@.facts.dom()).map_values(
                |h: Seq<char>| self@.facts[h],
            ),
    {
        let n: usize = self.facts.len();
        let ghost o = text_order(self@.facts.dom());
        let ghost want = o.map_values(|h: Seq<char>| self@.facts[h]);
        let mut out: Vec<&Fact> = Vec::new();
        let mut i: usize = 0;
        while i < n
            invariant
                i <= n == self.facts.order().len(),
                o == self.facts.order(),
                want == o.map_values(|h: Seq<char>| self@.facts[h]),
                out.deep_view() =~= want.take(i as int),
            decreases n - i,
        {
            let ghost before = out.deep_view();
            let f = self.facts.value_at(i);
            out.push(f);
            assert(out.deep_view() =~= before.push(f.deep_view()));
            i += 1;
        }
        assert(want.take(n as int) =~= want);
        out
    }
}

fn fact_rows(fs: &Vec<&Fact>) -> (r: Vec<Cbor>)
    ensures
        views(r@) == fact_values(fs.deep_view()),
{
    let mut out: Vec<Cbor> = Vec::new();
    let ghost want = fact_values(fs.deep_view());
    let mut i: usize = 0;
    while i < fs.len()
        invariant
            i <= fs@.len(),
            want == fact_values(fs.deep_view()),
            views(out@) =~= want.take(i as int),
        decreases fs.len() - i,
    {
        let ghost before = views(out@);
        let row = fs[i].to_cbor();
        out.push(row);
        assert(views(out@) =~= before.push(row@));
        i += 1;
    }
    assert(want.take(want.len() as int) =~= want);
    out
}

impl CellBehavior for FactCell {
    open spec fn wf(&self) -> bool {
        self@.wf()
    }

    open spec fn accepts(&self, logical_at: u64, update: CborV) -> bool {
        true
    }

    open spec fn restorable(state: CborV) -> bool {
        true
    }

    fn cell_id(&self) -> (r: CellId)
        ensures
            r == self.ident(),
    {
        self.id
    }

    fn cell_type(&self) -> (r: CellType)
        ensures
            r == CellType::Fact,
    {
        CellType::Fact
    }

    fn schema_id(&self) -> (r: SchemaId)
        ensures
            r.0@ == "fact.v1"@,
    {
        SchemaId::new("fact.v1")
    }

    fn on_query(&self, _at: u64, query: &Cbor) -> (r: UcResult<Cbor>)
        ensures
            agrees(r, self@.answer(query@)),
    {
        if let Some(op) = query.opt_str("op") {
            if str_eq(op.as_str(), "get") {
                let h = match query.req_str("handle") {
                    Ok(x) => x,
                    Err(e) => {
                        return Err(e);
                    },
                };
                return match self.facts.get(h.as_str()) {
                    Some(f) => Ok(f.to_cbor()),
                    None => Err(UcError::not_found(cat2("fact ", h.as_str()).as_str())),
                };
            }
            if str_eq(op.as_str(), "by_subject") {
                let s = match query.req_str("subject") {
                    Ok(x) => x,
                    Err(e) => {
                        return Err(e);
                    },
                };
                let items = fact_rows(&self.active_for_subject(s.as_str()));
                return Ok(Cbor::map1("facts", Cbor::arr(items)));
            }
            if str_eq(op.as_str(), "by_sp") {
                let s = match query.req_str("subject") {
                    Ok(x) => x,
                    Err(e) => {
                        return Err(e);
                    },
                };
                let p = match query.req_str("predicate") {
                    Ok(x) => x,
                    Err(e) => {
                        return Err(e);
                    },
                };
                let items = fact_rows(&self.active_for_sp(s.as_str(), p.as_str()));
                return Ok(Cbor::map1("facts", Cbor::arr(items)));
            }
        }
        Err(UcError::schema("fact: unknown op"))
    }

    fn on_update(&mut self, at: u64, update: &Cbor) -> (r: UcResult<Cbor>)
        ensures
            final(self).ident() == old(self).ident(),
            final(self)@ == old(self)@.update(at, update@).0,
            agrees(r, old(self)@.update(at, update@).1),
    {
        let op = update.opt_str("op");
        let put: bool = match &op {
            None => true,
            Some(s) => str_eq(s.as_str(), "put"),
        };
        if put {
            let seed: u64 = update.u64_or_zero("seed");
            let handle = match update.opt_str("handle") {
                Some(h) => h,
                None => {
                    let mut rng = DetRng::new(seed ^ at);
                    let u = Ulid::from_parts(at, &mut rng);
                    proof {
                        let s = next_state(seeded(seed ^ at));
                        assert(u.0 == ulid_int(at, draw(s), draw(next_state(s))));
                    }
                    cat2("fact/", u.to_base32().as_str())
                },
            };
            let subject = match update.req_str("subject") {
                Ok(x) => x,
                Err(e) => {
                    return Err(e);
                },
            };
            let predicate = match update.req_str("predicate") {
                Ok(x) => x,
                Err(e) => {
                    return Err(e);
                },
            };
            let object = match update.req_str("object") {
                Ok(x) => x,
                Err(e) => {
                    return Err(e);
                },
            };
            let fact = Fact {
                handle: handle.clone(),
                subject,
                predicate,
                object,
                confidence: update.opt_str("confidence"),
                written_at: at,
                superseded_by: None,
                supersedes: None,
                anchor: update.str_or_empty("anchor"),
            };
            self.insert(fact);
            return Ok(Cbor::map1("handle", Cbor::t(handle.as_str())));
        }
        if let Some(op) = op {
            if str_eq(op.as_str(), "supersede") {
                let old = match update.req_str("old") {
                    Ok(x) => x,
                    Err(e) => {
                        return Err(e);
                    },
                };
                let new = match update.req_str("new") {
                    Ok(x) => x,
                    Err(e) => {
                        return Err(e);
                    },
                };
                match self.supersede(old.as_str(), new.as_str()) {
                    Ok(()) => {},
                    Err(e) => {
                        return Err(e);
                    },
                }
                return Ok(
                    Cbor::map2("superseded", Cbor::t(old.as_str()), "by", Cbor::t(new.as_str())),
                );
            }
        }
        Err(UcError::schema("fact: unknown update op"))
    }

    fn snapshot_state(&self) -> (r: Cbor)
        ensures
            r@ == self@.image(),
            self@.facts.dom().finite(),
    {
        Cbor::map1("facts", Cbor::arr(to_rows(&self.facts)))
    }

    fn restore_state(&mut self, state: &Cbor) -> (r: UcResult<()>)
        ensures
            final(self).ident() == old(self).ident(),
            final(self)@ == FactsV::from_image(state@).0,
            agrees(r, done(FactsV::from_image(state@).1)),
    {
        self.facts = TextMap::new();
        self.by_subject = TextMap::new();
        self.by_sp = TextMap::new();
        assert(self@ =~= FactsV::empty());
        if let Some(arr) = state.opt_array("facts") {
            let ghost items = views(arr@);
            let mut i: usize = 0;
            assert(FactsV::restored(items.take(0)).0 == self@);
            while i < arr.len()
                invariant
                    i <= arr@.len(),
                    items == views(arr@),
                    self.ident() == old(self).ident(),
                    self@.wf(),
                    FactsV::restored(items.take(i as int)) == (self@, None::<ErrV>),
                    FactsV::from_image(state@) == FactsV::restored(items),
                decreases arr.len() - i,
            {
                assert(items.take(i + 1).drop_last() =~= items.take(i as int));
                assert(items.take(i + 1).last() == arr@[i as int]@);
                match Fact::from_cbor(&arr[i]) {
                    Ok(f) => {
                        self.insert(f);
                    },
                    Err(e) => {
                        proof {
                            FactsV::lemma_stops(items, i + 1);
                        }
                        return Err(e);
                    },
                }
                i += 1;
            }
            assert(items.take(items.len() as int) =~= items);
        }
        Ok(())
    }
}

} // verus!
