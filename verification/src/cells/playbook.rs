//! Playbooks: named procedures, each with a version.

use vstd::prelude::*;
use crate::cbor::{
    lemma_field_at, lookup_from, map_value, missing_text, value_or_null, Cbor, CborV,
};
use crate::cells::{CellBehavior, CellType};
use crate::rows::{
    done, keyed, lemma_records_back, lemma_records_keyed, record_rows, records_in, rows_in, to_rows,
    Record,
};
use crate::text::{cat2};
use crate::textmap::TextMap;
use crate::vocab::{agrees, CellId, ErrCode, ErrV, SchemaId, UcError, UcResult};

verus! {

/// A named procedure.
#[derive(Debug)]
pub struct Playbook {
    pub name: String,
    pub version: u64,
    pub body: Cbor,
}

/// A named procedure as a mathematical object.
#[verifier::ext_equal]
pub struct PlaybookV {
    pub name: Seq<char>,
    pub version: u64,
    pub body: CborV,
}

impl DeepView for Playbook {
    type V = PlaybookV;

    open spec fn deep_view(&self) -> PlaybookV {
        PlaybookV {
            name: self.name@,
            version: self.version,
            body: self.body@,
        }
    }
}

impl Clone for Playbook {
    fn clone(&self) -> (r: Playbook)
        ensures
            r.deep_view() == self.deep_view(),
    {
        Playbook {
            name: self.name.clone(),
            version: self.version,
            body: self.body.dup(),
        }
    }
}

impl PlaybookV {
    /// The encoded form of a named procedure.
    pub open spec fn value(self) -> CborV {
        map_value(
            seq![
                ("name"@, CborV::Text(self.name)),
                ("version"@, CborV::U64(self.version)),
                ("body"@, self.body),
            ],
        )
    }

    /// What an encoded form says; the first required field that is missing is the
    /// error.
    pub open spec fn read(v: CborV) -> Result<PlaybookV, ErrV> {
        if v.text_field("name"@) is None {
            Err((ErrCode::Internal, missing_text("name"@)))
        } else {
            Ok(
                PlaybookV {
                    name: v.text_field("name"@)->0,
                    version: match v.u64_field("version"@) {
                        Some(n) => n,
                        None => 1,
                    },
                    body: value_or_null(v, "body"@),
                },
            )
        }
    }

    /// Reading gives back what was encoded.
    pub proof fn lemma_read_back(self)
        ensures
            PlaybookV::read(self.value()) == Ok::<_, ErrV>(self),
            self.value().field("name"@) == Some(CborV::Text(self.name)),
            self.value().field("version"@) == Some(CborV::U64(self.version)),
            self.value().field("body"@) == Some(self.body),
    {
        reveal_strlit("name");
        reveal_strlit("version");
        reveal_strlit("body");
        assert("name"@.len() == 4);
        assert("version"@.len() == 7);
        assert("body"@.len() == 4);
        assert("name"@[0] != "body"@[0]);
        reveal_with_fuel(lookup_from, 4);
        let m = self.value()->Pairs_0;
        assert(m[0].0 == CborV::Text("name"@));
        assert(m[1].0 == CborV::Text("version"@));
        assert(m[2].0 == CborV::Text("body"@));
        assert(self.value().field("name"@) == Some(CborV::Text(self.name)));
        assert(self.value().field("version"@) == Some(CborV::U64(self.version)));
        assert(self.value().field("body"@) == Some(self.body));
    }

}

impl Playbook {
    fn to_cbor(&self) -> (r: Cbor)
        ensures
            r@ == self.deep_view().value(),
    {
        let pairs = vec![
            ("name", Cbor::t(self.name.as_str())),
            ("version", Cbor::U64(self.version)),
            ("body", self.body.dup()),
        ];
        let ghost want = seq![
            ("name"@, CborV::Text(self.name@)),
            ("version"@, CborV::U64(self.version)),
            ("body"@, self.body@),
        ];
        assert(Seq::new(pairs@.len(), |i: int| (pairs@[i].0@, pairs@[i].1@)) =~= want);
        Cbor::map(pairs)
    }

    fn from_cbor(c: &Cbor) -> (r: UcResult<Playbook>)
        ensures
            agrees(r, PlaybookV::read(c@)),
    {
        let name = match c.req_str("name") {
            Ok(x) => x,
            Err(e) => {
                return Err(e);
            },
        };
        let version: u64 = match c.opt_u64("version") {
            Some(x) => x,
            None => 1,
        };
        let body = c.value_or_null("body");
        Ok(Playbook { name, version, body })
    }
}

impl Record for Playbook {
    open spec fn key_of(v: PlaybookV) -> Seq<char> {
        v.name
    }

    open spec fn value_of(v: PlaybookV) -> CborV {
        v.value()
    }

    open spec fn read_of(c: CborV) -> Result<PlaybookV, ErrV> {
        PlaybookV::read(c)
    }

    open spec fn valid(v: PlaybookV) -> bool {
        true
    }

    proof fn lemma_back(v: PlaybookV) {
        v.lemma_read_back();
    }

    fn key(&self) -> (r: String) {
        self.name.clone()
    }

    fn to_row(&self) -> (r: Cbor) {
        self.to_cbor()
    }

    fn from_row(c: &Cbor) -> (r: UcResult<Playbook>) {
        Playbook::from_cbor(c)
    }
}

/// The state of the playbooks.
pub type PlaybooksV = Map<Seq<char>, PlaybookV>;

/// The version that the next body under a name gets.
pub open spec fn next_version(m: PlaybooksV, name: Seq<char>) -> int {
    if m.contains_key(name) {
        m[name].version + 1
    } else {
        1
    }
}

/// The answer to a query.
pub open spec fn playbook_answer(m: PlaybooksV, q: CborV) -> Result<CborV, ErrV> {
    match q.text_field("name"@) {
        None => Err((ErrCode::Internal, missing_text("name"@))),
        Some(n) => if m.contains_key(n) {
            Ok(m[n].value())
        } else {
            Err((ErrCode::NotFound, "playbook "@ + n))
        },
    }
}

/// The state after an update, and the reply.
pub open spec fn playbook_update(m: PlaybooksV, u: CborV) -> (PlaybooksV, Result<CborV, ErrV>) {
    match u.text_field("name"@) {
        None => (m, Err((ErrCode::Internal, missing_text("name"@)))),
        Some(n) => match u.field("body"@) {
            None => (m, Err((ErrCode::ContractViolation, "playbook: missing body"@))),
            Some(b) => (
                m.insert(n, PlaybookV { name: n, version: next_version(m, n) as u64, body: b }),
                Ok(
                    map_value(
                        seq![
                            ("name"@, CborV::Text(n)),
                            ("version"@, CborV::U64(next_version(m, n) as u64)),
                        ],
                    ),
                ),
            ),
        },
    }
}

/// The snapshot of the state.
pub open spec fn playbook_image(m: PlaybooksV) -> CborV {
    map_value(seq![("playbooks"@, CborV::Array(record_rows::<Playbook>(m)))])
}

/// A snapshot restores to the same state.
pub proof fn lemma_playbook_restore(m: PlaybooksV)
    requires
        keyed::<Playbook>(m),
        m.dom().finite(),
    ensures
        records_in::<Playbook>(playbook_image(m), "playbooks"@) == (m, None::<ErrV>),
{
    let v = playbook_image(m);
    assert(v->Pairs_0[0].0 == CborV::Text("playbooks"@));
    assert(v.field("playbooks"@) == Some(CborV::Array(record_rows::<Playbook>(m))));
    lemma_records_back::<Playbook>(m);
}

/// The body that was written last is what a query for its name gives back, with the
/// version that the reply to the write named: one for a new name, and else one more than
/// before. Every other playbook stays as it was.
pub proof fn lemma_read_your_playbook(m: PlaybooksV, u: CborV, q: CborV, name: Seq<char>, b: CborV)
    requires
        u.text_field("name"@) == Some(name),
        u.field("body"@) == Some(b),
        m.contains_key(name) ==> m[name].version < u64::MAX,
        q.text_field("name"@) is Some,
    ensures
        ({
            let (now, r) = playbook_update(m, u);
            let v = if m.contains_key(name) {
                (m[name].version + 1) as u64
            } else {
                1
            };
            &&& r is Ok
            &&& r->Ok_0.text_field("name"@) == Some(name)
            &&& r->Ok_0.u64_field("version"@) == Some(v)
            &&& q.text_field("name"@) == Some(name) ==> {
                let a = playbook_answer(now, q);
                &&& a is Ok
                &&& a->Ok_0.text_field("name"@) == Some(name)
                &&& a->Ok_0.u64_field("version"@) == Some(v)
                &&& a->Ok_0.field("body"@) == Some(b)
            }
            &&& q.text_field("name"@) != Some(name) ==> playbook_answer(now, q) == playbook_answer(
                m,
                q,
            )
        }),
{
    let now = playbook_update(m, u).0;
    let p = seq![
        ("name"@, CborV::Text(name)),
        ("version"@, CborV::U64(next_version(m, name) as u64)),
    ];
    reveal_strlit("name");
    reveal_strlit("version");
    assert("name"@.len() == 4 && "version"@.len() == 7);
    lemma_field_at(p, 0);
    lemma_field_at(p, 1);
    now[name].lemma_read_back();
}

/// A playbook is not written without a name or a body, and not found where none was
/// written.
pub proof fn lemma_no_playbook(m: PlaybooksV, u: CborV, q: CborV)
    ensures
        u.text_field("name"@) is None || u.field("body"@) is None ==> playbook_update(m, u).1 is Err
            && playbook_update(m, u).0 == m,
        playbook_answer(m, q) is Ok <==> q.text_field("name"@) is Some && m.contains_key(
            q.text_field("name"@)->0,
        ),
{
}

/// A playbook written twice has a version one higher, and the second body.
pub proof fn lemma_version_grows(m: PlaybooksV, name: Seq<char>, u: CborV)
    requires
        u.text_field("name"@) == Some(name),
        u.field("body"@) is Some,
        next_version(m, name) < u64::MAX,
    ensures
        ({
            let once = playbook_update(m, u).0;
            let twice = playbook_update(once, u).0;
            &&& once[name].version == next_version(m, name)
            &&& twice[name].version == once[name].version + 1
            &&& twice[name].body == u.field("body"@)->0
        }),
{
}

/// The playbooks.
#[derive(Debug)]
pub struct PlaybookCell {
    pub id: CellId,
    playbooks: TextMap<Playbook>,
}

impl View for PlaybookCell {
    type V = PlaybooksV;

    closed spec fn view(&self) -> PlaybooksV {
        self.playbooks@
    }
}

impl PlaybookCell {
    /// The id of the cell.
    pub closed spec fn ident(&self) -> CellId {
        self.id
    }

    pub fn new(id: CellId) -> (r: Self)
        ensures
            r.ident() == id,
            r@ == PlaybooksV::empty(),
    {
        PlaybookCell { id, playbooks: TextMap::new() }
    }
}

impl CellBehavior for PlaybookCell {
    open spec fn wf(&self) -> bool {
        keyed::<Playbook>(self@)
    }

    open spec fn accepts(&self, logical_at: u64, update: CborV) -> bool {
        update.text_field("name"@) is Some ==> next_version(
            self@,
            update.text_field("name"@)->0,
        ) <= u64::MAX
    }

    open spec fn restorable(state: CborV) -> bool {
        true
    }

    fn cell_id(&self) -> (r: CellId)
        ensures
            r == self.ident(),
    {
        self.id
    }

    fn cell_type(&self) -> (r: CellType)
        ensures
            r == CellType::Playbook,
    {
        CellType::Playbook
    }

    fn schema_id(&self) -> (r: SchemaId)
        ensures
            r.0@ == "playbook.v1"@,
    {
        SchemaId::new("playbook.v1")
    }

    fn on_query(&self, _at: u64, query: &Cbor) -> (r: UcResult<Cbor>)
        ensures
            agrees(r, playbook_answer(self@, query@)),
    {
        let name = match query.req_str("name") {
            Ok(x) => x,
            Err(e) => {
                return Err(e);
            },
        };
        match self.playbooks.get(name.as_str()) {
            Some(p) => Ok(p.to_cbor()),
            None => Err(UcError::not_found(cat2("playbook ", name.as_str()).as_str())),
        }
    }

    fn on_update(&mut self, _at: u64, update: &Cbor) -> (r: UcResult<Cbor>)
        ensures
            final(self).ident() == old(self).ident(),
            final(self)@ == playbook_update(old(self)@, update@).0,
            agrees(r, playbook_update(old(self)@, update@).1),
    {
        let name = match update.req_str("name") {
            Ok(x) => x,
            Err(e) => {
                return Err(e);
            },
        };
        let body = match update.get("body") {
            Some(v) => v.dup(),
            None => {
                return Err(UcError::schema("playbook: missing body"));
            },
        };
        let version: u64 = match self.playbooks.get(name.as_str()) {
            Some(p) => p.version + 1,
            None => 1,
        };
        self.playbooks.insert(name.clone(), Playbook { name: name.clone(), version, body });
        Ok(Cbor::map2("name", Cbor::t(name.as_str()), "version", Cbor::U64(version)))
    }

    fn snapshot_state(&self) -> (r: Cbor)
        ensures
            r@ == playbook_image(self@),
            self@.dom().finite(),
    {
        Cbor::map1("playbooks", Cbor::arr(to_rows(&self.playbooks)))
    }

    fn restore_state(&mut self, state: &Cbor) -> (r: UcResult<()>)
        ensures
            final(self).ident() == old(self).ident(),
            final(self)@ == records_in::<Playbook>(state@, "playbooks"@).0,
            agrees(r, done(records_in::<Playbook>(state@, "playbooks"@).1)),
    {
        let (playbooks, outcome) = rows_in::<Playbook>(state, "playbooks");
        proof {
            lemma_records_keyed::<Playbook>(state@, "playbooks"@);
        }
        self.playbooks = playbooks;
        outcome
    }
}

} // verus!
