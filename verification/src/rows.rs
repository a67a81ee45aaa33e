//! Maps as arrays of encoded rows, in key order, and back.

use vstd::prelude::*;
use crate::cbor::{views, Cbor, CborV};
use crate::textmap::{lemma_finite_listed, lists, text_order, TextMap};
use crate::vocab::{agrees, ErrV, UcResult};

verus! {

/// The rows of a map in ascending key order.
pub open spec fn rows<R>(m: Map<Seq<char>, R>, row: spec_fn(Seq<char>, R) -> CborV) -> Seq<CborV> {
    let o = text_order(m.dom());
    Seq::new(o.len(), |i: int| row(o[i], m[o[i]]))
}

/// What rows say, read one after the other: a later row takes the place of an
/// earlier one with its key, and the first row that cannot be read ends it.
pub open spec fn unrows<R>(
    items: Seq<CborV>,
    read: spec_fn(CborV) -> Result<(Seq<char>, R), ErrV>,
) -> (Map<Seq<char>, R>, Option<ErrV>)
    decreases items.len(),
{
    if items.len() == 0 {
        (Map::empty(), None)
    } else {
        let (m, e) = unrows(items.drop_last(), read);
        if e is Some {
            (m, e)
        } else {
            match read(items.last()) {
                Ok((k, r)) => (m.insert(k, r), None),
                Err(x) => (m, Some(x)),
            }
        }
    }
}

/// Nothing more is read behind a row that cannot be read.
pub proof fn lemma_unrows_stops<R>(
    items: Seq<CborV>,
    read: spec_fn(CborV) -> Result<(Seq<char>, R), ErrV>,
    n: int,
)
    requires
        0 <= n <= items.len(),
        unrows(items.take(n), read).1 is Some,
    ensures
        unrows(items, read) == unrows(items.take(n), read),
    decreases items.len(),
{
    if n < items.len() {
        assert(items.drop_last().take(n) =~= items.take(n));
        lemma_unrows_stops(items.drop_last(), read, n);
    } else {
        assert(items.take(n) =~= items);
    }
}

proof fn lemma_prefix<R>(
    m: Map<Seq<char>, R>,
    row: spec_fn(Seq<char>, R) -> CborV,
    read: spec_fn(CborV) -> Result<(Seq<char>, R), ErrV>,
    n: int,
)
    requires
        lists(text_order(m.dom()), m.dom()),
        0 <= n <= text_order(m.dom()).len(),
        forall|k: Seq<char>|
            m.contains_key(k) ==> #[trigger] read(row(k, m[k])) == Ok::<_, ErrV>((k, m[k])),
    ensures
        unrows(rows(m, row).take(n), read) == (
            m.restrict(text_order(m.dom()).take(n).to_set()),
            None::<ErrV>,
        ),
    decreases n,
{
    let o = text_order(m.dom());
    let t = rows(m, row).take(n);
    if n > 0 {
        lemma_prefix(m, row, read, n - 1);
        assert(t.drop_last() =~= rows(m, row).take(n - 1));
        let k = o[n - 1];
        assert(o.contains(k));
        assert(m.contains_key(k));
        assert(t.last() == row(k, m[k]));
        let was = m.restrict(o.take(n - 1).to_set());
        let now = m.restrict(o.take(n).to_set());
        let p = o.take(n - 1);
        let q = o.take(n);
        assert forall|x: Seq<char>| #[trigger] q.contains(x) == (x == k || p.contains(x)) by {
            if q.contains(x) {
                let i = choose|i: int| 0 <= i < q.len() && q[i] == x;
                if i < n - 1 {
                    assert(p[i] == x);
                }
            }
            if p.contains(x) {
                let i = choose|i: int| 0 <= i < p.len() && p[i] == x;
                assert(q[i] == x);
            }
            assert(q[n - 1] == k);
        }
        assert(now =~= was.insert(k, m[k]));
    } else {
        assert(m.restrict(o.take(0).to_set()) =~= Map::<Seq<char>, R>::empty());
    }
}

/// Reading the rows of a map gives the map back, where each row gives back
/// its key and value.
pub proof fn lemma_rows_back<R>(
    m: Map<Seq<char>, R>,
    row: spec_fn(Seq<char>, R) -> CborV,
    read: spec_fn(CborV) -> Result<(Seq<char>, R), ErrV>,
)
    requires
        m.dom().finite(),
        forall|k: Seq<char>|
            m.contains_key(k) ==> #[trigger] read(row(k, m[k])) == Ok::<_, ErrV>((k, m[k])),
    ensures
        unrows(rows(m, row), read) == (m, None::<ErrV>),
{
    let o = text_order(m.dom());
    lemma_finite_listed(m.dom());
    lemma_prefix(m, row, read, o.len() as int);
    assert(rows(m, row).take(o.len() as int) =~= rows(m, row));
    assert(o.take(o.len() as int) =~= o);
    assert forall|k: Seq<char>| m.contains_key(k) implies #[trigger] o.to_set().contains(k) by {
        assert(m.dom().contains(k));
        assert(o.contains(k));
    }
    assert(m.restrict(o.to_set()) =~= m);
}

/// A record that a map keeps under a key of its own and that a snapshot holds
/// as a row.
pub trait Record: DeepView + Sized {
    /// The key that the record is kept under.
    spec fn key_of(v: Self::V) -> Seq<char>;

    /// The row of the record.
    spec fn value_of(v: Self::V) -> CborV;

    /// What a row says.
    spec fn read_of(c: CborV) -> Result<Self::V, ErrV>;

    /// What every record that can be stored satisfies.
    spec fn valid(v: Self::V) -> bool;

    /// Reading a row gives back the record.
    proof fn lemma_back(v: Self::V)
        requires
            Self::valid(v),
        ensures
            Self::read_of(Self::value_of(v)) == Ok::<_, ErrV>(v),
    ;

    fn key(&self) -> (r: String)
        ensures
            r@ == Self::key_of(self.deep_view()),
    ;

    fn to_row(&self) -> (r: Cbor)
        ensures
            r@ == Self::value_of(self.deep_view()),
    ;

    fn from_row(c: &Cbor) -> (r: UcResult<Self>)
        ensures
            agrees(r, Self::read_of(c@)),
    ;
}

/// Each record is under its own key and can be stored.
pub open spec fn keyed<T: Record>(m: Map<Seq<char>, T::V>) -> bool {
    forall|k: Seq<char>|
        #[trigger] m.contains_key(k) ==> T::key_of(m[k]) == k && T::valid(m[k])
}

/// The row of a record.
pub open spec fn record_row<T: Record>() -> spec_fn(Seq<char>, T::V) -> CborV {
    |k: Seq<char>, v: T::V| T::value_of(v)
}

/// The record of a row, with its key.
pub open spec fn record_read<T: Record>() -> spec_fn(CborV) -> Result<(Seq<char>, T::V), ErrV> {
    |c: CborV|
        match T::read_of(c) {
            Ok(v) => Ok((T::key_of(v), v)),
            Err(x) => Err(x),
        }
}

/// The rows of a map of records, in key order.
pub open spec fn record_rows<T: Record>(m: Map<Seq<char>, T::V>) -> Seq<CborV> {
    rows(m, record_row::<T>())
}

/// The records that rows say, and the error that ended the reading.
pub open spec fn records_of<T: Record>(items: Seq<CborV>) -> (Map<Seq<char>, T::V>, Option<ErrV>) {
    unrows(items, record_read::<T>())
}

/// The records under a field of a snapshot; none where it is missing.
pub open spec fn records_in<T: Record>(v: CborV, field: Seq<char>) -> (
    Map<Seq<char>, T::V>,
    Option<ErrV>,
) {
    match v.array_field(field) {
        Some(a) => records_of::<T>(a),
        None => (Map::empty(), None),
    }
}

/// The rows of a map of records give it back.
pub proof fn lemma_records_back<T: Record>(m: Map<Seq<char>, T::V>)
    requires
        m.dom().finite(),
        keyed::<T>(m),
    ensures
        records_of::<T>(record_rows::<T>(m)) == (m, None::<ErrV>),
{
    assert forall|k: Seq<char>| m.contains_key(k) implies #[trigger] record_read::<T>()(
        record_row::<T>()(k, m[k]),
    ) == Ok::<_, ErrV>((k, m[k])) by {
        T::lemma_back(m[k]);
    }
    lemma_rows_back(m, record_row::<T>(), record_read::<T>());
}

/// What can be read from a row can be stored.
pub open spec fn reads_valid<T: Record>() -> bool {
    forall|c: CborV|
        #[trigger] T::read_of(c) is Ok ==> T::valid(T::read_of(c)->Ok_0)
}

proof fn lemma_unrows_keyed<T: Record>(items: Seq<CborV>)
    requires
        reads_valid::<T>(),
    ensures
        keyed::<T>(records_of::<T>(items).0),
    decreases items.len(),
{
    if items.len() > 0 {
        lemma_unrows_keyed::<T>(items.drop_last());
        assert(T::read_of(items.last()) is Ok ==> T::valid(T::read_of(items.last())->Ok_0));
    }
}

/// Records read from a snapshot are each under their own key.
pub proof fn lemma_records_keyed<T: Record>(v: CborV, field: Seq<char>)
    requires
        reads_valid::<T>(),
    ensures
        keyed::<T>(records_in::<T>(v, field).0),
{
    match v.array_field(field) {
        Some(a) => {
            lemma_unrows_keyed::<T>(a);
        },
        None => {},
    }
}

/// The outcome that an optional error stands for.
pub open spec fn done(e: Option<ErrV>) -> Result<(), ErrV> {
    match e {
        Some(x) => Err(x),
        None => Ok(()),
    }
}

/// The rows of a map of records.
pub fn to_rows<T: Record>(m: &TextMap<T>) -> (r: Vec<Cbor>)
    ensures
        views(r@) == record_rows::<T>(m@),
        m@.dom().finite(),
{
    let mut items: Vec<Cbor> = Vec::new();
    let mut i: usize = 0;
    let n: usize = m.len();
    let ghost want = record_rows::<T>(m@);
    assert(views(items@) =~= want.take(0));
    while i < n
        invariant
            i <= n == m.order().len(),
            m.order() == text_order(m@.dom()),
            want == record_rows::<T>(m@),
            views(items@) == want.take(i as int),
        decreases n - i,
    {
        let ghost before = views(items@);
        let row = m.value_at(i).to_row();
        items.push(row);
        assert(views(items@) =~= before.push(row@));
        i += 1;
        assert(want.take(i as int) =~= want.take(i - 1).push(want[i - 1]));
    }
    assert(want.take(n as int) =~= want);
    items
}

/// Reads rows into a map of records, up to the first that cannot be read.
pub fn from_rows<T: Record>(items: &[Cbor]) -> (r: (TextMap<T>, UcResult<()>))
    ensures
        r.0@ == records_of::<T>(views(items@)).0,
        agrees(r.1, done(records_of::<T>(views(items@)).1)),
{
    let mut m: TextMap<T> = TextMap::new();
    let ghost all = views(items@);
    let mut i: usize = 0;
    while i < items.len()
        invariant
            i <= items@.len(),
            all == views(items@),
            records_of::<T>(all.take(i as int)) == (m@, None::<ErrV>),
        decreases items.len() - i,
    {
        proof {
            assert(all.take(i + 1).drop_last() =~= all.take(i as int));
            assert(all.take(i + 1).last() == items@[i as int]@);
        }
        match T::from_row(&items[i]) {
            Ok(v) => {
                let k = v.key();
                m.insert(k, v);
            },
            Err(e) => {
                proof {
                    lemma_unrows_stops(all, record_read::<T>(), i + 1);
                }
                return (m, Err(e));
            },
        }
        i += 1;
    }
    assert(all.take(all.len() as int) =~= all);
    (m, Ok(()))
}

/// Reads the records under a field of a snapshot.
pub fn rows_in<T: Record>(state: &Cbor, field: &str) -> (r: (TextMap<T>, UcResult<()>))
    ensures
        r.0@ == records_in::<T>(state@, field@).0,
        agrees(r.1, done(records_in::<T>(state@, field@).1)),
{
    match state.opt_array(field) {
        Some(a) => from_rows(a),
        None => (TextMap::new(), Ok(())),
    }
}

} // verus!
