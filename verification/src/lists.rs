//! Lists of records in their encoded form, and lists of texts.

use vstd::prelude::*;
use crate::cbor::{text_views, views, Cbor, CborV};
use crate::rows::done;
use crate::text::str_eq;
use crate::vocab::{agrees, ErrV, UcResult};

verus! {

/// What can stand in an encoded list.
pub trait Item: DeepView + Sized {
    /// The encoded form of an item.
    spec fn value_of(v: Self::V) -> CborV;

    /// What an encoded form says.
    spec fn read_of(c: CborV) -> Result<Self::V, ErrV>;

    /// The item is one that its encoded form gives back.
    spec fn valid(v: Self::V) -> bool;

    proof fn lemma_back(v: Self::V)
        requires
            Self::valid(v),
        ensures
            Self::read_of(Self::value_of(v)) == Ok::<_, ErrV>(v),
    ;

    fn to_item(&self) -> (r: Cbor)
        ensures
            r@ == Self::value_of(self.deep_view()),
    ;

    fn from_item(c: &Cbor) -> (r: UcResult<Self>)
        ensures
            agrees(r, Self::read_of(c@)),
    ;
}

/// The encoded forms of a list's items.
pub open spec fn list_values<T: Item>(s: Seq<T::V>) -> Seq<CborV> {
    Seq::new(s.len(), |i: int| T::value_of(s[i]))
}

/// The items from `i` on, behind those read so far, up to the first that cannot
/// be read; its error.
pub open spec fn list_from<T: Item>(items: Seq<CborV>, i: int, so_far: Seq<T::V>) -> (
    Seq<T::V>,
    Option<ErrV>,
)
    decreases items.len() - i,
{
    if i < 0 || i >= items.len() {
        (so_far, None)
    } else {
        match T::read_of(items[i]) {
            Ok(x) => list_from::<T>(items, i + 1, so_far.push(x)),
            Err(e) => (so_far, Some(e)),
        }
    }
}

/// The items under a field; none where there is no list.
pub open spec fn list_in<T: Item>(v: CborV, field: Seq<char>) -> (Seq<T::V>, Option<ErrV>) {
    match v.array_field(field) {
        Some(a) => list_from::<T>(a, 0, Seq::empty()),
        None => (Seq::empty(), None),
    }
}

proof fn lemma_list_from<T: Item>(s: Seq<T::V>, i: int)
    requires
        0 <= i <= s.len(),
        forall|j: int| 0 <= j < s.len() ==> T::valid(#[trigger] s[j]),
    ensures
        list_from::<T>(list_values::<T>(s), i, s.take(i)) == (s, None::<ErrV>),
    decreases s.len() - i,
{
    if i < s.len() {
        T::lemma_back(s[i]);
        assert(s.take(i).push(s[i]) =~= s.take(i + 1));
        lemma_list_from::<T>(s, i + 1);
    } else {
        assert(s.take(i) =~= s);
    }
}

/// A list is read back from its encoded form.
pub proof fn lemma_list_back<T: Item>(s: Seq<T::V>)
    requires
        forall|j: int| 0 <= j < s.len() ==> T::valid(#[trigger] s[j]),
    ensures
        list_from::<T>(list_values::<T>(s), 0, Seq::empty()) == (s, None::<ErrV>),
{
    assert(s.take(0) =~= Seq::empty());
    lemma_list_from::<T>(s, 0);
}

/// The encoded forms of a list's items from `from` on.
pub fn to_list<T: Item>(s: &Vec<T>, from: usize) -> (r: Vec<Cbor>)
    requires
        from <= s@.len(),
    ensures
        views(r@) == list_values::<T>(s.deep_view().skip(from as int)),
{
    let ghost want = list_values::<T>(s.deep_view().skip(from as int));
    let mut out: Vec<Cbor> = Vec::new();
    let mut i: usize = from;
    assert(views(out@) =~= want.take(0));
    while i < s.len()
        invariant
            from <= i <= s@.len(),
            want == list_values::<T>(s.deep_view().skip(from as int)),
            views(out@) == want.take(i - from),
        decreases s.len() - i,
    {
        let row = s[i].to_item();
        let ghost before = views(out@);
        out.push(row);
        assert(views(out@) =~= before.push(row@));
        assert(want[i - from] == row@);
        i += 1;
        assert(want.take(i - from) =~= want.take(i - 1 - from).push(want[i - 1 - from]));
    }
    assert(want.take(want.len() as int) =~= want);
    out
}

/// The items under a field, up to the first that cannot be read, and its error.
pub fn from_list<T: Item>(c: &Cbor, field: &str) -> (r: (Vec<T>, UcResult<()>))
    ensures
        r.0.deep_view() == list_in::<T>(c@, field@).0,
        agrees(r.1, done(list_in::<T>(c@, field@).1)),
{
    let mut out: Vec<T> = Vec::new();
    assert(out.deep_view() =~= Seq::empty());
    if let Some(items) = c.opt_array(field) {
        let ghost all = views(items@);
        let mut i: usize = 0;
        while i < items.len()
            invariant
                i <= items@.len(),
                all == views(items@),
                list_in::<T>(c@, field@) == list_from::<T>(all, i as int, out.deep_view()),
            decreases items.len() - i,
        {
            assert(all[i as int] == items@[i as int]@);
            match T::from_item(&items[i]) {
                Ok(x) => {
                    let ghost before = out.deep_view();
                    let ghost y = x.deep_view();
                    out.push(x);
                    assert(out.deep_view() =~= before.push(y));
                },
                Err(e) => {
                    return (out, Err(e));
                },
            }
            i += 1;
        }
    }
    (out, Ok(()))
}

/// A list without an item.
pub open spec fn without(s: Seq<Seq<char>>, x: Seq<char>) -> Seq<Seq<char>>
    decreases s.len(),
{
    if s.len() == 0 {
        Seq::empty()
    } else if s.last() == x {
        without(s.drop_last(), x)
    } else {
        without(s.drop_last(), x).push(s.last())
    }
}

/// A list without an item holds all others, and none twice that stood once.
pub proof fn lemma_without(s: Seq<Seq<char>>, x: Seq<char>, y: Seq<char>)
    ensures
        without(s, x).contains(y) <==> s.contains(y) && y != x,
        s.no_duplicates() ==> without(s, x).no_duplicates(),
    decreases s.len(),
{
    if s.len() > 0 {
        let d = s.drop_last();
        let z = s.last();
        let w = without(d, x);
        lemma_without(d, x, y);
        lemma_without(d, x, z);
        assert(s =~= d.push(z));
        assert(s.contains(y) <==> d.contains(y) || y == z) by {
            if d.contains(y) {
                let i = choose|i: int| 0 <= i < d.len() && d[i] == y;
                assert(s[i] == y);
            }
            assert(s[s.len() - 1] == z);
        }
        if z != x {
            let r = w.push(z);
            assert(r.contains(y) <==> w.contains(y) || y == z) by {
                if w.contains(y) {
                    let i = choose|i: int| 0 <= i < w.len() && w[i] == y;
                    assert(r[i] == y);
                }
                assert(r[r.len() - 1] == z);
            }
        }
        if s.no_duplicates() {
            assert(d.no_duplicates());
            if d.contains(z) {
                let i = choose|i: int| 0 <= i < d.len() && d[i] == z;
                assert(s[i] == s[s.len() - 1]);
            }
        }
    }
}

/// Copies a list but for an item.
pub fn drop_text(v: &Vec<String>, x: &str) -> (r: Vec<String>)
    ensures
        text_views(r@) == without(text_views(v@), x@),
        r.deep_view() == without(v.deep_view(), x@),
{
    let mut rest: Vec<String> = Vec::new();
    let ghost q = text_views(v@);
    let mut i: usize = 0;
    assert(q.take(0) =~= Seq::empty());
    assert(text_views(rest@) =~= Seq::empty());
    while i < v.len()
        invariant
            i <= v@.len(),
            q == text_views(v@),
            text_views(rest@) == without(q.take(i as int), x@),
        decreases v.len() - i,
    {
        assert(q.take(i + 1).drop_last() =~= q.take(i as int));
        assert(q.take(i + 1).last() == v@[i as int]@);
        if !str_eq(v[i].as_str(), x) {
            let ghost before = text_views(rest@);
            let h = v[i].as_str().to_string();
            rest.push(h);
            assert(text_views(rest@) =~= before.push(h@));
        }
        i += 1;
    }
    assert(q.take(i as int) =~= q);
    assert(v.deep_view() =~= q);
    assert(rest.deep_view() =~= text_views(rest@));
    rest
}

} // verus!
