//! Timelines: an append-only bounded ring of events per stream.

use vstd::prelude::*;
use crate::cbor::{
    lemma_field_at, lemma_one_field, lookup_from, map_value, missing_text, u64_or_zero,
    value_or_null, views, Cbor, CborV,
};
use crate::cells::{CellBehavior, CellType};
use crate::rows::{
    done, keyed, lemma_records_back, record_rows, records_in, rows_in, to_rows, Record,
};
use crate::textmap::TextMap;
use crate::vocab::{agrees, CellId, ErrCode, ErrV, SchemaId, UcError, UcResult};
use crate::text::{cat4, padded, padded_text, starts};

verus! {

/// The most entries that a stream keeps.
pub const TIMELINE_RING_CAP: usize = 4096;

/// The events of a stream, oldest first: time, handle, event.
#[derive(Debug)]
pub struct TimelineStream {
    pub stream: String,
    pub entries: Vec<(u64, String, Cbor)>,
}

/// An event as a mathematical object.
pub type EntryV = (u64, Seq<char>, CborV);

/// The events of a stream as a mathematical object.
#[verifier::ext_equal]
pub struct TimelineStreamV {
    pub stream: Seq<char>,
    pub entries: Seq<EntryV>,
}

impl DeepView for TimelineStream {
    type V = TimelineStreamV;

    open spec fn deep_view(&self) -> TimelineStreamV {
        TimelineStreamV { stream: self.stream@, entries: self.entries.deep_view() }
    }
}

/// The encoded form of an event.
pub open spec fn entry_value(e: EntryV) -> CborV {
    map_value(seq![("at"@, CborV::U64(e.0)), ("handle"@, CborV::Text(e.1)), ("event"@, e.2)])
}

/// The encoded forms of events.
pub open spec fn entry_values(es: Seq<EntryV>) -> Seq<CborV> {
    Seq::new(es.len(), |i: int| entry_value(es[i]))
}

/// The events that encoded forms say; the first without a handle is an error.
pub open spec fn entries_of(items: Seq<CborV>) -> Result<Seq<EntryV>, ErrV>
    decreases items.len(),
{
    if items.len() == 0 {
        Ok(Seq::empty())
    } else {
        match entries_of(items.drop_last()) {
            Err(e) => Err(e),
            Ok(es) => match items.last().text_field("handle"@) {
                None => Err((ErrCode::Internal, missing_text("handle"@))),
                Some(h) => Ok(
                    es.push(
                        (u64_or_zero(items.last(), "at"@), h, value_or_null(items.last(), "event"@)),
                    ),
                ),
            },
        }
    }
}

proof fn lemma_entries_stop(items: Seq<CborV>, n: int)
    requires
        0 <= n <= items.len(),
    ensures
        entries_of(items.take(n)) is Err ==> entries_of(items) == entries_of(items.take(n)),
    decreases items.len(),
{
    if n < items.len() {
        assert(items.drop_last().take(n) =~= items.take(n));
        lemma_entries_stop(items.drop_last(), n);
    } else {
        assert(items.take(n) =~= items);
    }
}

proof fn lemma_entries_back(es: Seq<EntryV>)
    ensures
        entries_of(entry_values(es)) == Ok::<_, ErrV>(es),
    decreases es.len(),
{
    let vs = entry_values(es);
    if es.len() > 0 {
        lemma_entries_back(es.drop_last());
        assert(vs.drop_last() =~= entry_values(es.drop_last()));
        let v = vs.last();
        let m = v->Pairs_0;
        reveal_strlit("at");
        reveal_strlit("handle");
        reveal_strlit("event");
        assert("at"@.len() == 2);
        assert("handle"@.len() == 6);
        assert("event"@.len() == 5);
        reveal_with_fuel(lookup_from, 4);
        assert(m[0].0 == CborV::Text("at"@));
        assert(m[1].0 == CborV::Text("handle"@));
        assert(m[2].0 == CborV::Text("event"@));
        assert(v.field("at"@) == Some(CborV::U64(es.last().0)));
        assert(v.field("handle"@) == Some(CborV::Text(es.last().1)));
        assert(v.field("event"@) == Some(es.last().2));
        assert(es.drop_last().push(es.last()) =~= es);
    } else {
        assert(es =~= Seq::<EntryV>::empty());
    }
}

impl TimelineStreamV {
    /// The encoded form of a stream.
    pub open spec fn value(self) -> CborV {
        map_value(
            seq![
                ("stream"@, CborV::Text(self.stream)),
                ("entries"@, CborV::Array(entry_values(self.entries))),
            ],
        )
    }

    /// What an encoded form says.
    pub open spec fn read(v: CborV) -> Result<TimelineStreamV, ErrV> {
        if v.text_field("stream"@) is None {
            Err((ErrCode::Internal, missing_text("stream"@)))
        } else {
            let items = match v.array_field("entries"@) {
                Some(a) => a,
                None => Seq::empty(),
            };
            match entries_of(items) {
                Ok(es) => Ok(TimelineStreamV { stream: v.text_field("stream"@)->0, entries: es }),
                Err(e) => Err(e),
            }
        }
    }

    /// Reading gives back what was encoded.
    pub proof fn lemma_read_back(self)
        ensures
            TimelineStreamV::read(self.value()) == Ok::<_, ErrV>(self),
            self.value().field("stream"@) == Some(CborV::Text(self.stream)),
            self.value().field("entries"@) == Some(CborV::Array(entry_values(self.entries))),
    {
        let m = self.value()->Pairs_0;
        reveal_strlit("stream");
        reveal_strlit("entries");
        assert("stream"@.len() == 6);
        assert("entries"@.len() == 7);
        reveal_with_fuel(lookup_from, 3);
        assert(m[0].0 == CborV::Text("stream"@));
        assert(m[1].0 == CborV::Text("entries"@));
        assert(self.value().field("stream"@) == Some(CborV::Text(self.stream)));
        assert(self.value().field("entries"@) == Some(CborV::Array(entry_values(self.entries))));
        lemma_entries_back(self.entries);
    }
}

fn entry_row(e: &(u64, String, Cbor)) -> (r: Cbor)
    ensures
        r@ == entry_value(e.deep_view()),
{
    Cbor::map3("at", Cbor::U64(e.0), "handle", Cbor::t(e.1.as_str()), "event", e.2.dup())
}

/// The encoded forms of the events from `from` on.
fn entry_rows(es: &Vec<(u64, String, Cbor)>, from: usize) -> (r: Vec<Cbor>)
    requires
        from <= es@.len(),
    ensures
        views(r@) == entry_values(es.deep_view().skip(from as int)),
{
    let ghost want = entry_values(es.deep_view().skip(from as int));
    let mut out: Vec<Cbor> = Vec::new();
    let mut i: usize = from;
    while i < es.len()
        invariant
            from <= i <= es@.len(),
            want == entry_values(es.deep_view().skip(from as int)),
            views(out@) =~= want.take(i - from),
        decreases es.len() - i,
    {
        let ghost before = views(out@);
        let row = entry_row(&es[i]);
        out.push(row);
        assert(views(out@) =~= before.push(row@));
        i += 1;
    }
    assert(want.take(want.len() as int) =~= want);
    out
}

impl TimelineStream {
    fn to_cbor(&self) -> (r: Cbor)
        ensures
            r@ == self.deep_view().value(),
    {
        assert(self.entries.deep_view().skip(0) =~= self.entries.deep_view());
        Cbor::map2(
            "stream",
            Cbor::t(self.stream.as_str()),
            "entries",
            Cbor::arr(entry_rows(&self.entries, 0)),
        )
    }

    fn from_cbor(c: &Cbor) -> (r: UcResult<TimelineStream>)
        ensures
            agrees(r, TimelineStreamV::read(c@)),
    {
        let stream = match c.req_str("stream") {
            Ok(x) => x,
            Err(e) => {
                return Err(e);
            },
        };
        let mut entries: Vec<(u64, String, Cbor)> = Vec::new();
        if let Some(items) = c.opt_array("entries") {
            let ghost all = views(items@);
            let mut i: usize = 0;
            assert(entries.deep_view() =~= Seq::<EntryV>::empty());
            while i < items.len()
                invariant
                    i <= items@.len(),
                    all == views(items@),
                    c@.text_field("stream"@) == Some(stream@),
                    c@.array_field("entries"@) == Some(all),
                    entries_of(all.take(i as int)) == Ok::<_, ErrV>(entries.deep_view()),
                decreases items.len() - i,
            {
                proof {
                    assert(all.take(i + 1).drop_last() =~= all.take(i as int));
                    assert(all.take(i + 1).last() == items@[i as int]@);
                    lemma_entries_stop(all, i + 1);
                }
                let ghost before = entries.deep_view();
                let at: u64 = items[i].u64_or_zero("at");
                let handle = match items[i].req_str("handle") {
                    Ok(x) => x,
                    Err(e) => {
                        return Err(e);
                    },
                };
                let event = items[i].value_or_null("event");
                entries.push((at, handle, event));
                assert(entries.deep_view() =~= before.push((at, handle@, event@)));
                i += 1;
            }
            assert(all.take(all.len() as int) =~= all);
        } else {
            assert(entries.deep_view() =~= Seq::<EntryV>::empty());
        }
        Ok(TimelineStream { stream, entries })
    }
}

impl Record for TimelineStream {
    open spec fn key_of(v: TimelineStreamV) -> Seq<char> {
        v.stream
    }

    open spec fn value_of(v: TimelineStreamV) -> CborV {
        v.value()
    }

    open spec fn read_of(c: CborV) -> Result<TimelineStreamV, ErrV> {
        TimelineStreamV::read(c)
    }

    open spec fn valid(v: TimelineStreamV) -> bool {
        true
    }

    proof fn lemma_back(v: TimelineStreamV) {
        v.lemma_read_back();
    }

    fn key(&self) -> (r: String) {
        self.stream.clone()
    }

    fn to_row(&self) -> (r: Cbor) {
        self.to_cbor()
    }

    fn from_row(c: &Cbor) -> (r: UcResult<TimelineStream>) {
        TimelineStream::from_cbor(c)
    }
}

/// The last `n` of a list, all where it has no more.
pub open spec fn last_n<T>(s: Seq<T>, n: int) -> Seq<T> {
    if s.len() > n {
        s.skip(s.len() - n)
    } else {
        s
    }
}

/// The state of the timelines.
#[verifier::ext_equal]
pub struct TimelineV {
    pub streams: Map<Seq<char>, TimelineStreamV>,
    pub seq: u64,
}

impl TimelineV {
    pub open spec fn empty() -> TimelineV {
        TimelineV { streams: Map::empty(), seq: 0 }
    }

    /// Each stream is under its own name.
    pub open spec fn wf(self) -> bool {
        keyed::<TimelineStream>(self.streams)
    }

    /// No stream holds more than the ring does.
    pub open spec fn bounded(self) -> bool {
        forall|k: Seq<char>|
            #[trigger] self.streams.contains_key(k) ==> self.streams[k].entries.len()
                <= TIMELINE_RING_CAP
    }

    /// The events of a stream.
    pub open spec fn events(self, stream: Seq<char>) -> Seq<EntryV> {
        if self.streams.contains_key(stream) {
            self.streams[stream].entries
        } else {
            Seq::empty()
        }
    }

    /// The handle of the next event.
    pub open spec fn next_handle(self, stream: Seq<char>) -> Seq<char> {
        "timeline/"@ + stream + "/"@ + padded((self.seq + 1) as nat, 16)
    }

    /// One event more at the end of a stream, the oldest dropped where the
    /// ring is full.
    pub open spec fn append(self, at: u64, stream: Seq<char>, event: CborV) -> TimelineV {
        TimelineV {
            streams: self.streams.insert(
                stream,
                TimelineStreamV {
                    stream,
                    entries: last_n(
                        self.events(stream).push((at, self.next_handle(stream), event)),
                        TIMELINE_RING_CAP as int,
                    ),
                },
            ),
            seq: (self.seq + 1) as u64,
        }
    }

    /// The answer to a query: the last `n` events, oldest first.
    pub open spec fn answer(self, q: CborV) -> Result<CborV, ErrV> {
        match q.text_field("stream"@) {
            None => Err((ErrCode::Internal, missing_text("stream"@))),
            Some(s) => {
                let n = match q.u64_field("n"@) {
                    Some(n) => n as int,
                    None => 32,
                };
                Ok(
                    map_value(
                        seq![("entries"@, CborV::Array(entry_values(last_n(self.events(s), n))))],
                    ),
                )
            },
        }
    }

    /// The state after an update, and the reply.
    pub open spec fn update(self, at: u64, u: CborV) -> (TimelineV, Result<CborV, ErrV>) {
        match u.text_field("stream"@) {
            None => (self, Err((ErrCode::Internal, missing_text("stream"@)))),
            Some(s) => match u.field("event"@) {
                None => (self, Err((ErrCode::ContractViolation, "timeline: missing event"@))),
                Some(ev) => (
                    self.append(at, s, ev),
                    Ok(map_value(seq![("handle"@, CborV::Text(self.next_handle(s)))])),
                ),
            },
        }
    }

    /// The snapshot of the state.
    pub open spec fn image(self) -> CborV {
        map_value(
            seq![
                ("seq"@, CborV::U64(self.seq)),
                ("streams"@, CborV::Array(record_rows::<TimelineStream>(self.streams))),
            ],
        )
    }

    /// What a snapshot restores to.
    pub open spec fn from_image(v: CborV) -> (TimelineV, Option<ErrV>) {
        let (m, e) = records_in::<TimelineStream>(v, "streams"@);
        (TimelineV { streams: m, seq: u64_or_zero(v, "seq"@) }, e)
    }

    /// A snapshot restores to the same state.
    pub proof fn lemma_restore_snapshot(self)
        requires
            self.wf(),
            self.streams.dom().finite(),
        ensures
            TimelineV::from_image(self.image()) == (self, None::<ErrV>),
    {
        let m = self.image()->Pairs_0;
        reveal_strlit("seq");
        reveal_strlit("streams");
        assert("seq"@.len() == 3);
        assert("streams"@.len() == 7);
        reveal_with_fuel(lookup_from, 3);
        assert(m[0].0 == CborV::Text("seq"@));
        assert(m[1].0 == CborV::Text("streams"@));
        assert(self.image().field("seq"@) == Some(CborV::U64(self.seq)));
        assert(self.image().field("streams"@) == Some(
            CborV::Array(record_rows::<TimelineStream>(self.streams)),
        ));
        lemma_records_back::<TimelineStream>(self.streams);
    }

    /// A query gives the last events of a stream, as many as were asked for or all there
    /// are, the oldest of them first, each with its time, its handle and what happened.
    pub proof fn lemma_answer(self, q: CborV, s: Seq<char>, i: int)
        requires
            q.text_field("stream"@) == Some(s),
        ensures
            self.answer(q) is Ok,
            self.answer(q)->Ok_0.array_field("entries"@) is Some,
            ({
                let rows = self.answer(q)->Ok_0.array_field("entries"@)->0;
                let es = self.events(s);
                let n = match q.u64_field("n"@) {
                    Some(n) => n as int,
                    None => 32,
                };
                &&& rows.len() == if es.len() < n {
                    es.len() as int
                } else {
                    n
                }
                &&& 0 <= i < rows.len() ==> {
                    let e = es[es.len() - rows.len() + i];
                    &&& rows[i].u64_field("at"@) == Some(e.0)
                    &&& rows[i].text_field("handle"@) == Some(e.1)
                    &&& rows[i].field("event"@) == Some(e.2)
                }
            }),
    {
        let n = match q.u64_field("n"@) {
            Some(n) => n as int,
            None => 32,
        };
        let es = self.events(s);
        let rows = entry_values(last_n(es, n));
        lemma_one_field("entries"@, CborV::Array(rows));
        if 0 <= i < rows.len() {
            let e = last_n(es, n)[i];
            let p = seq![("at"@, CborV::U64(e.0)), ("handle"@, CborV::Text(e.1)), ("event"@, e.2)];
            reveal_strlit("at");
            reveal_strlit("handle");
            reveal_strlit("event");
            assert("at"@.len() == 2 && "handle"@.len() == 6 && "event"@.len() == 5);
            assert(rows[i] == map_value(p));
            lemma_field_at(p, 0);
            lemma_field_at(p, 1);
            lemma_field_at(p, 2);
        }
    }

    /// An event that is written goes to the end of its stream under the handle that the
    /// reply names, and nothing else changes but that the oldest event of a full stream
    /// goes.
    pub proof fn lemma_update_appends(self, at: u64, u: CborV, other: Seq<char>, i: int)
        requires
            self.bounded(),
        ensures
            ({
                let (st, r) = self.update(at, u);
                let written = u.text_field("stream"@) is Some && u.field("event"@) is Some;
                let s = u.text_field("stream"@)->0;
                let (was, now) = (self.events(s), st.events(s));
                &&& r is Ok <==> written
                &&& !written ==> st == self
                &&& written ==> {
                    &&& now.len() > 0 && now.last().0 == at && Some(now.last().2) == u.field(
                        "event"@,
                    )
                    &&& r->Ok_0.text_field("handle"@) == Some(now.last().1)
                    &&& starts(now.last().1, "timeline/"@ + s + "/"@)
                    &&& now.len() == if was.len() < TIMELINE_RING_CAP {
                        was.len() + 1int
                    } else {
                        TIMELINE_RING_CAP as int
                    }
                    &&& 0 <= i < now.len() - 1 ==> now[i] == was[was.len() - now.len() + 1 + i]
                    &&& other != s ==> st.events(other) == self.events(other)
                }
            }),
    {
        if u.text_field("stream"@) is Some && u.field("event"@) is Some {
            let s = u.text_field("stream"@)->0;
            let h = self.next_handle(s);
            let p = "timeline/"@ + s + "/"@;
            lemma_one_field("handle"@, CborV::Text(h));
            assert(h.subrange(0, p.len() as int) =~= p);
        }
    }

    /// Appending keeps every stream within the ring, puts the event last,
    /// keeps the order of the others, and leaves other streams alone.
    pub proof fn lemma_append(self, at: u64, stream: Seq<char>, event: CborV, other: Seq<char>)
        requires
            self.bounded(),
            other != stream,
        ensures
            self.append(at, stream, event).bounded(),
            self.append(at, stream, event).events(stream).last() == (
                at,
                self.next_handle(stream),
                event,
            ),
            self.append(at, stream, event).events(stream).drop_last() == last_n(
                self.events(stream),
                TIMELINE_RING_CAP - 1,
            ),
            self.append(at, stream, event).events(other) == self.events(other),
    {
        let st = self.append(at, stream, event);
        let es = self.events(stream);
        assert(st.events(stream).drop_last() =~= last_n(es, TIMELINE_RING_CAP - 1));
    }
}

/// The timelines.
#[derive(Debug)]
pub struct TimelineCell {
    pub id: CellId,
    streams: TextMap<TimelineStream>,
    seq: u64,
}

impl View for TimelineCell {
    type V = TimelineV;

    closed spec fn view(&self) -> TimelineV {
        TimelineV { streams: self.streams@, seq: self.seq }
    }
}

impl TimelineCell {
    /// The id of the cell.
    pub closed spec fn ident(&self) -> CellId {
        self.id
    }

    pub fn new(id: CellId) -> (r: Self)
        ensures
            r.ident() == id,
            r@ == TimelineV::empty(),
    {
        TimelineCell { id, streams: TextMap::new(), seq: 0 }
    }

    /// Appends an event to a stream and returns its handle.
    pub fn append(&mut self, at: u64, stream: &str, event: Cbor) -> (r: String)
        requires
            old(self)@.seq < u64::MAX,
        ensures
            final(self).ident() == old(self).ident(),
            final(self)@ == old(self)@.append(at, stream@, event@),
            r@ == old(self)@.next_handle(stream@),
            old(self)@.wf() ==> final(self)@.wf(),
    {
        let ghost was = self@;
        self.seq = self.seq + 1;
        let handle = cat4("timeline/", stream, "/", padded_text(self.seq, 16).as_str());
        let mut entries: Vec<(u64, String, Cbor)> = match self.streams.remove(stream) {
            Some(s) => s.entries,
            None => Vec::new(),
        };
        let ghost es = entries.deep_view();
        assert(es =~= was.events(stream@));
        entries.push((at, handle.clone(), event));
        let ghost all = es.push((at, handle@, event@));
        assert(entries.deep_view() =~= all);
        if entries.len() > TIMELINE_RING_CAP {
            let over: usize = entries.len() - TIMELINE_RING_CAP;
            let ghost before = entries@;
            entries = entries.split_off(over);
            assert(entries.deep_view() =~= all.skip(over as int));
        }
        self.streams.insert(stream.to_owned(), TimelineStream { stream: stream.to_owned(), entries });
        assert(self@.streams =~= was.append(at, stream@, event@).streams);
        handle
    }

    /// The last `n` events of a stream, newest first.
    pub fn tail(&self, stream: &str, n: usize) -> (r: Vec<&(u64, String, Cbor)>)
        ensures
            r.deep_view() == last_n(self@.events(stream@), n as int).reverse(),
    {
        let ghost want = last_n(self@.events(stream@), n as int);
        let mut out: Vec<&(u64, String, Cbor)> = Vec::new();
        if let Some(s) = self.streams.get(stream) {
            let ghost es = s.entries.deep_view();
            let len: usize = s.entries.len();
            let from: usize = if len > n { len - n } else { 0 };
            assert(want =~= es.skip(from as int));
            let mut i: usize = len;
            while i > from
                invariant
                    from <= i <= len == s.entries@.len(),
                    es == s.entries.deep_view(),
                    out.deep_view() =~= es.skip(i as int).reverse(),
                decreases i,
            {
                i -= 1;
                let ghost before = out.deep_view();
                out.push(&s.entries[i]);
                assert(out.deep_view() =~= before.push(es[i as int]));
                assert(out.deep_view() =~= es.skip(i as int).reverse());
            }
        } else {
            assert(out.deep_view() =~= want.reverse());
        }
        out
    }
}

impl CellBehavior for TimelineCell {
    open spec fn wf(&self) -> bool {
        self@.wf()
    }

    open spec fn accepts(&self, logical_at: u64, update: CborV) -> bool {
        update.text_field("stream"@) is Some && update.field("event"@) is Some ==> self@.seq
            < u64::MAX
    }

    open spec fn restorable(state: CborV) -> bool {
        true
    }

    fn cell_id(&self) -> (r: CellId)
        ensures
            r == self.ident(),
    {
        self.id
    }

    fn cell_type(&self) -> (r: CellType)
        ensures
            r == CellType::Timeline,
    {
        CellType::Timeline
    }

    fn schema_id(&self) -> (r: SchemaId)
        ensures
            r.0@ == "timeline.v1"@,
    {
        SchemaId::new("timeline.v1")
    }

    fn on_query(&self, _at: u64, query: &Cbor) -> (r: UcResult<Cbor>)
        ensures
            agrees(r, self@.answer(query@)),
    {
        let stream = match query.req_str("stream") {
            Ok(x) => x,
            Err(e) => {
                return Err(e);
            },
        };
        let n: u64 = match query.opt_u64("n") {
            Some(n) => n,
            None => 32,
        };
        let items: Vec<Cbor> = match self.streams.get(stream.as_str()) {
            Some(s) => {
                let len: usize = s.entries.len();
                let from: usize = if len as u64 > n { len - n as usize } else { 0 };
                assert(s.entries.deep_view().skip(from as int) =~= last_n(
                    self@.events(stream@),
                    n as int,
                ));
                entry_rows(&s.entries, from)
            },
            None => Vec::new(),
        };
        assert(views(items@) =~= entry_values(last_n(self@.events(stream@), n as int)));
        Ok(Cbor::map1("entries", Cbor::arr(items)))
    }

    fn on_update(&mut self, at: u64, update: &Cbor) -> (r: UcResult<Cbor>)
        ensures
            final(self).ident() == old(self).ident(),
            final(self)@ == old(self)@.update(at, update@).0,
            agrees(r, old(self)@.update(at, update@).1),
    {
        let stream = match update.req_str("stream") {
            Ok(x) => x,
            Err(e) => {
                return Err(e);
            },
        };
        let event = match update.get("event") {
            Some(v) => v.dup(),
            None => {
                return Err(UcError::schema("timeline: missing event"));
            },
        };
        let handle = self.append(at, stream.as_str(), event);
        Ok(Cbor::map1("handle", Cbor::t(handle.as_str())))
    }

    fn snapshot_state(&self) -> (r: Cbor)
        ensures
            r@ == self@.image(),
            self@.streams.dom().finite(),
    {
        Cbor::map2("seq", Cbor::U64(self.seq), "streams", Cbor::arr(to_rows(&self.streams)))
    }

    fn restore_state(&mut self, state: &Cbor) -> (r: UcResult<()>)
        ensures
            final(self).ident() == old(self).ident(),
            final(self)@ == TimelineV::from_image(state@).0,
            agrees(r, done(TimelineV::from_image(state@).1)),
    {
        self.seq = state.u64_or_zero("seq");
        let (streams, outcome) = rows_in::<TimelineStream>(state, "streams");
        proof {
            crate::rows::lemma_records_keyed::<TimelineStream>(state@, "streams"@);
        }
        self.streams = streams;
        outcome
    }
}

} // verus!
