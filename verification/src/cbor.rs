//! Canonical CBOR: deterministic encoding with map keys in the order of their
//! encoded bytes and no key twice, and a decoder for definite-length items.
//!
//! Floats are held as the bit pattern of a 64-bit float and always encoded in
//! 64 bits.

use vstd::prelude::*;
use crate::bytes::slice_of;
use crate::text::str_eq;
use crate::vocab::{ErrCode, UcError, UcResult};

verus! {

/// A CBOR value.
#[derive(Debug)]
pub enum Cbor {
    Null,
    Bool(bool),
    U64(u64),
    /// Negative integers; non-negative values use `U64`.
    I64(i64),
    /// The bit pattern of a 64-bit float.
    F64(u64),
    Bytes(Vec<u8>),
    Text(String),
    Array(Vec<Cbor>),
    /// Pairs; canonical ordering is applied when encoding.
    Pairs(Vec<(Cbor, Cbor)>),
}

/// A CBOR value as a mathematical object.
#[verifier::ext_equal]
pub enum CborV {
    Null,
    Bool(bool),
    U64(u64),
    I64(i64),
    F64(u64),
    Bytes(Seq<u8>),
    Text(Seq<char>),
    Array(Seq<CborV>),
    Pairs(Seq<(CborV, CborV)>),
}

/// What a value denotes.
pub open spec fn cbor_view(c: Cbor) -> CborV
    decreases c,
{
    match c {
        Cbor::Null => CborV::Null,
        Cbor::Bool(b) => CborV::Bool(b),
        Cbor::U64(n) => CborV::U64(n),
        Cbor::I64(n) => CborV::I64(n),
        Cbor::F64(n) => CborV::F64(n),
        Cbor::Bytes(b) => CborV::Bytes(b@),
        Cbor::Text(s) => CborV::Text(s@),
        Cbor::Array(a) => CborV::Array(
            Seq::new(
                a@.len(),
                |i: int|
                    if 0 <= i < a@.len() {
                        cbor_view(a@[i])
                    } else {
                        CborV::Null
                    },
            ),
        ),
        Cbor::Pairs(m) => CborV::Pairs(
            Seq::new(
                m@.len(),
                |i: int|
                    if 0 <= i < m@.len() {
                        (cbor_view(m@[i].0), cbor_view(m@[i].1))
                    } else {
                        (CborV::Null, CborV::Null)
                    },
            ),
        ),
    }
}

impl View for Cbor {
    type V = CborV;

    open spec fn view(&self) -> CborV {
        cbor_view(*self)
    }
}

impl DeepView for Cbor {
    type V = CborV;

    open spec fn deep_view(&self) -> CborV {
        cbor_view(*self)
    }
}

/// The values of a list.
pub open spec fn views(s: Seq<Cbor>) -> Seq<CborV> {
    Seq::new(s.len(), |i: int| s[i]@)
}

/// The pairs of a list.
pub open spec fn pair_views(s: Seq<(Cbor, Cbor)>) -> Seq<(CborV, CborV)> {
    Seq::new(s.len(), |i: int| (s[i].0@, s[i].1@))
}

/// The texts of a list.
pub open spec fn text_views(s: Seq<String>) -> Seq<Seq<char>> {
    Seq::new(s.len(), |i: int| s[i]@)
}

/// A map with text keys.
pub open spec fn map_value(pairs: Seq<(Seq<char>, CborV)>) -> CborV {
    CborV::Pairs(Seq::new(pairs.len(), |i: int| (CborV::Text(pairs[i].0), pairs[i].1)))
}

/// An array of texts.
pub open spec fn texts_value(items: Seq<Seq<char>>) -> CborV {
    CborV::Array(Seq::new(items.len(), |i: int| CborV::Text(items[i])))
}

/// An optional text: `Null` where there is none.
pub open spec fn opt_text_value(o: Option<Seq<char>>) -> CborV {
    match o {
        Some(s) => CborV::Text(s),
        None => CborV::Null,
    }
}

/// An optional number: `Null` where there is none.
pub open spec fn opt_u64_value(o: Option<u64>) -> CborV {
    match o {
        Some(n) => CborV::U64(n),
        None => CborV::Null,
    }
}

/// The value of the first pair, from place `i` on, whose key is this text.
pub open spec fn lookup_from(m: Seq<(CborV, CborV)>, key: Seq<char>, i: int) -> Option<CborV>
    decreases m.len() - i,
{
    if i < 0 || i >= m.len() {
        None
    } else if m[i].0 == CborV::Text(key) {
        Some(m[i].1)
    } else {
        lookup_from(m, key, i + 1)
    }
}

impl CborV {
    /// The field of a map.
    pub open spec fn field(self, key: Seq<char>) -> Option<CborV> {
        match self {
            CborV::Pairs(m) => lookup_from(m, key, 0),
            _ => None,
        }
    }

    /// The field, where it is a text.
    pub open spec fn text_field(self, key: Seq<char>) -> Option<Seq<char>> {
        match self.field(key) {
            Some(CborV::Text(s)) => Some(s),
            _ => None,
        }
    }

    /// The field, where it is an unsigned integer.
    pub open spec fn u64_field(self, key: Seq<char>) -> Option<u64> {
        match self.field(key) {
            Some(CborV::U64(n)) => Some(n),
            _ => None,
        }
    }

    /// The field, where it is a boolean.
    pub open spec fn bool_field(self, key: Seq<char>) -> Option<bool> {
        match self.field(key) {
            Some(CborV::Bool(b)) => Some(b),
            _ => None,
        }
    }

    /// The field, where it is an array.
    pub open spec fn array_field(self, key: Seq<char>) -> Option<Seq<CborV>> {
        match self.field(key) {
            Some(CborV::Array(a)) => Some(a),
            _ => None,
        }
    }

    /// The field, where it is a byte string.
    pub open spec fn bytes_field(self, key: Seq<char>) -> Option<Seq<u8>> {
        match self.field(key) {
            Some(CborV::Bytes(b)) => Some(b),
            _ => None,
        }
    }
}

/// The texts among some values, in order; other values are passed over.
pub open spec fn texts_among(a: Seq<CborV>) -> Seq<Seq<char>>
    decreases a.len(),
{
    if a.len() == 0 {
        Seq::empty()
    } else {
        let before = texts_among(a.drop_last());
        match a.last() {
            CborV::Text(s) => before.push(s),
            _ => before,
        }
    }
}

/// Every text of a value, keys before their values, in order.
pub open spec fn all_texts(v: CborV) -> Seq<Seq<char>>
    decreases v,
{
    match v {
        CborV::Text(s) => seq![s],
        CborV::Array(a) => all_texts_in(a),
        CborV::Pairs(m) => all_texts_paired(m),
        _ => Seq::empty(),
    }
}

pub open spec fn all_texts_in(a: Seq<CborV>) -> Seq<Seq<char>>
    decreases a,
{
    if a.len() == 0 {
        Seq::empty()
    } else {
        all_texts_in(a.drop_last()) + all_texts(a.last())
    }
}

pub open spec fn all_texts_paired(m: Seq<(CborV, CborV)>) -> Seq<Seq<char>>
    decreases m,
{
    if m.len() == 0 {
        Seq::empty()
    } else {
        all_texts_paired(m.drop_last()) + all_texts(m.last().0) + all_texts(m.last().1)
    }
}

/// The field of a map is what stands under its key, the first time that the key does.
pub proof fn lemma_field_at(pairs: Seq<(Seq<char>, CborV)>, i: int)
    requires
        0 <= i < pairs.len(),
        forall|j: int| 0 <= j < i ==> (#[trigger] pairs[j]).0 != pairs[i].0,
    ensures
        map_value(pairs).field(pairs[i].0) == Some(pairs[i].1),
{
    lemma_lookup_at(map_value(pairs)->Pairs_0, pairs[i].0, 0, i);
}

proof fn lemma_lookup_at(m: Seq<(CborV, CborV)>, key: Seq<char>, from: int, i: int)
    requires
        0 <= from <= i < m.len(),
        m[i].0 == CborV::Text(key),
        forall|j: int| from <= j < i ==> (#[trigger] m[j]).0 != CborV::Text(key),
    ensures
        lookup_from(m, key, from) == Some(m[i].1),
    decreases i - from,
{
    if from < i {
        assert(m[from].0 != CborV::Text(key));
        lemma_lookup_at(m, key, from + 1, i);
    }
}

/// A map of one field has that field.
pub proof fn lemma_one_field(k: Seq<char>, v: CborV)
    ensures
        map_value(seq![(k, v)]).field(k) == Some(v),
{
    let p = seq![(k, v)];
    lemma_field_at(p, 0);
    assert(p[0] == (k, v));
}

/// The texts of a list are those of its items; the texts of a map are those of its
/// keys and of its values; a text has itself, and nothing else has any.
pub proof fn lemma_all_texts(v: CborV, t: Seq<char>)
    ensures
        match v {
            CborV::Text(s) => all_texts(v).contains(t) <==> t == s,
            CborV::Array(a) => all_texts(v).contains(t) <==> exists|i: int|
                0 <= i < a.len() && all_texts(#[trigger] a[i]).contains(t),
            CborV::Pairs(m) => all_texts(v).contains(t) <==> exists|i: int|
                0 <= i < m.len() && (all_texts((#[trigger] m[i]).0).contains(t) || all_texts(
                    m[i].1,
                ).contains(t)),
            _ => !all_texts(v).contains(t),
        },
{
    match v {
        CborV::Text(s) => {
            assert(all_texts(v)[0] == s);
        },
        CborV::Array(a) => {
            lemma_texts_in(a, t);
        },
        CborV::Pairs(m) => {
            lemma_texts_paired(m, t);
        },
        _ => {},
    }
}

proof fn lemma_either(a: Seq<Seq<char>>, b: Seq<Seq<char>>, t: Seq<char>)
    ensures
        (a + b).contains(t) <==> a.contains(t) || b.contains(t),
{
    let c = a + b;
    if a.contains(t) {
        assert(c[a.index_of(t)] == t);
    }
    if b.contains(t) {
        assert(c[a.len() + b.index_of(t)] == t);
    }
    if c.contains(t) {
        let k = c.index_of(t);
        if k < a.len() {
            assert(a[k] == t);
        } else {
            assert(b[k - a.len()] == t);
        }
    }
}

proof fn lemma_texts_in(a: Seq<CborV>, t: Seq<char>)
    ensures
        all_texts_in(a).contains(t) <==> exists|i: int|
            0 <= i < a.len() && all_texts(#[trigger] a[i]).contains(t),
    decreases a.len(),
{
    if a.len() > 0 {
        let d = a.drop_last();
        lemma_texts_in(d, t);
        lemma_either(all_texts_in(d), all_texts(a.last()), t);
        assert(a[a.len() - 1] == a.last());
        if all_texts_in(d).contains(t) {
            let i = choose|i: int| 0 <= i < d.len() && all_texts(#[trigger] d[i]).contains(t);
            assert(all_texts(a[i]).contains(t));
        }
        if exists|i: int| 0 <= i < a.len() && all_texts(#[trigger] a[i]).contains(t) {
            let i = choose|i: int| 0 <= i < a.len() && all_texts(#[trigger] a[i]).contains(t);
            if i < d.len() {
                assert(all_texts(d[i]).contains(t));
            }
        }
    }
}

proof fn lemma_texts_paired(m: Seq<(CborV, CborV)>, t: Seq<char>)
    ensures
        all_texts_paired(m).contains(t) <==> exists|i: int|
            0 <= i < m.len() && (all_texts((#[trigger] m[i]).0).contains(t) || all_texts(
                m[i].1,
            ).contains(t)),
    decreases m.len(),
{
    if m.len() > 0 {
        let d = m.drop_last();
        let (k, v) = (all_texts(m.last().0), all_texts(m.last().1));
        lemma_texts_paired(d, t);
        lemma_either(all_texts_paired(d) + k, v, t);
        lemma_either(all_texts_paired(d), k, t);
        assert(m[m.len() - 1] == m.last());
        if all_texts_paired(d).contains(t) {
            let i = choose|i: int|
                0 <= i < d.len() && (all_texts((#[trigger] d[i]).0).contains(t) || all_texts(
                    d[i].1,
                ).contains(t));
            assert(m[i] == d[i]);
        }
        if exists|i: int|
            0 <= i < m.len() && (all_texts((#[trigger] m[i]).0).contains(t) || all_texts(
                m[i].1,
            ).contains(t)) {
            let i = choose|i: int|
                0 <= i < m.len() && (all_texts((#[trigger] m[i]).0).contains(t) || all_texts(
                    m[i].1,
                ).contains(t));
            if i < d.len() {
                assert(d[i] == m[i]);
            }
        }
    }
}

/// A number read from a value: the bits of a float, or an integer still to be
/// converted to one.
#[derive(Clone, Copy, Debug, PartialEq, Eq, Structural)]
pub enum Number {
    Bits(u64),
    Unsigned(u64),
    Signed(i64),
}

impl Cbor {
    pub fn u(v: u64) -> (r: Cbor)
        ensures
            r@ == CborV::U64(v),
    {
        Cbor::U64(v)
    }

    pub fn i(v: i64) -> (r: Cbor)
        ensures
            r@ == if v >= 0 { CborV::U64(v as u64) } else { CborV::I64(v) },
    {
        if v >= 0 {
            Cbor::U64(v as u64)
        } else {
            Cbor::I64(v)
        }
    }

    /// A float, given by its bit pattern.
    pub fn f(bits: u64) -> (r: Cbor)
        ensures
            r@ == CborV::F64(bits),
    {
        Cbor::F64(bits)
    }

    pub fn t(v: &str) -> (r: Cbor)
        ensures
            r@ == CborV::Text(v@),
    {
        Cbor::Text(v.to_owned())
    }

    pub fn bytes(v: Vec<u8>) -> (r: Cbor)
        ensures
            r@ == CborV::Bytes(v@),
    {
        Cbor::Bytes(v)
    }

    pub fn arr(v: Vec<Cbor>) -> (r: Cbor)
        ensures
            r@ == CborV::Array(views(v@)),
    {
        let r = Cbor::Array(v);
        assert(r@->Array_0 =~= views(v@));
        r
    }

    /// A map with these text keys.
    pub fn map(pairs: Vec<(&str, Cbor)>) -> (r: Cbor)
        ensures
            r@ == map_value(Seq::new(pairs@.len(), |i: int| (pairs@[i].0@, pairs@[i].1@))),
    {
        let ghost want = Seq::new(pairs@.len(), |i: int| (pairs@[i].0@, pairs@[i].1@));
        let mut pairs = pairs;
        let mut out: Vec<(Cbor, Cbor)> = Vec::new();
        let ghost all = pairs@;
        let mut rev: Vec<(Cbor, Cbor)> = Vec::new();
        while pairs.len() > 0
            invariant
                pairs@.len() + rev@.len() == all.len(),
                pairs@ == all.take(pairs@.len() as int),
                forall|i: int|
                    0 <= i < rev@.len() ==> {
                        &&& (#[trigger] rev@[i]).0@ == CborV::Text(all[all.len() - 1 - i].0@)
                        &&& rev@[i].1@ == all[all.len() - 1 - i].1@
                    },
            decreases pairs.len(),
        {
            let ghost n = pairs@.len();
            let last = pairs.pop();
            match last {
                Some((k, v)) => {
                    rev.push((Cbor::Text(k.to_owned()), v));
                    assert(pairs@ =~= all.take(n - 1));
                },
                None => {},
            }
        }
        while rev.len() > 0
            invariant
                rev@.len() + out@.len() == all.len(),
                forall|i: int|
                    0 <= i < rev@.len() ==> {
                        &&& (#[trigger] rev@[i]).0@ == CborV::Text(all[all.len() - 1 - i].0@)
                        &&& rev@[i].1@ == all[all.len() - 1 - i].1@
                    },
                forall|i: int|
                    0 <= i < out@.len() ==> {
                        &&& (#[trigger] out@[i]).0@ == CborV::Text(all[i].0@)
                        &&& out@[i].1@ == all[i].1@
                    },
            decreases rev.len(),
        {
            let ghost n = rev@.len();
            let last = rev.pop();
            match last {
                Some(p) => {
                    assert(p.0@ == CborV::Text(all[all.len() - n].0@));
                    out.push(p);
                },
                None => {},
            }
        }
        let r = Cbor::Pairs(out);
        assert(r@->Pairs_0 =~= map_value(want)->Pairs_0);
        r
    }

    pub fn text_array(items: &[String]) -> (r: Cbor)
        ensures
            r@ == texts_value(text_views(items@)),
    {
        let mut out: Vec<Cbor> = Vec::new();
        let mut i: usize = 0;
        while i < items.len()
            invariant
                i <= items@.len(),
                out@.len() == i,
                forall|j: int| 0 <= j < i ==> (#[trigger] out@[j])@ == CborV::Text(items@[j]@),
            decreases items.len() - i,
        {
            out.push(Cbor::Text(items[i].clone()));
            i += 1;
        }
        let r = Cbor::Array(out);
        assert(r@->Array_0 =~= texts_value(text_views(items@))->Array_0);
        r
    }

    /// An optional text, `Null` where there is none.
    pub fn opt_text(o: &Option<String>) -> (r: Cbor)
        ensures
            r@ == opt_text_value(o.deep_view()),
    {
        match o {
            Some(s) => Cbor::Text(s.clone()),
            None => Cbor::Null,
        }
    }

    /// A copy of the value.
    pub fn dup(&self) -> (r: Cbor)
        ensures
            r@ == self@,
        decreases self,
    {
        match self {
            Cbor::Null => Cbor::Null,
            Cbor::Bool(b) => Cbor::Bool(*b),
            Cbor::U64(n) => Cbor::U64(*n),
            Cbor::I64(n) => Cbor::I64(*n),
            Cbor::F64(n) => Cbor::F64(*n),
            Cbor::Bytes(b) => Cbor::Bytes(slice_of(b.as_slice(), 0, b.len())),
            Cbor::Text(s) => Cbor::Text(s.clone()),
            Cbor::Array(a) => {
                let mut out: Vec<Cbor> = Vec::new();
                let mut i: usize = 0;
                while i < a.len()
                    invariant
                        i <= a@.len(),
                        out@.len() == i,
                        *self is Array && *a == self->Array_0,
                        forall|j: int| 0 <= j < i ==> (#[trigger] out@[j])@ == a@[j]@,
                    decreases a.len() - i,
                {
                    assert(decreases_to!(*a => a@[i as int]));
                    out.push(a[i].dup());
                    i += 1;
                }
                let r = Cbor::Array(out);
                assert(r@->Array_0 =~= self@->Array_0);
                r
            },
            Cbor::Pairs(m) => {
                let mut out: Vec<(Cbor, Cbor)> = Vec::new();
                let mut i: usize = 0;
                while i < m.len()
                    invariant
                        i <= m@.len(),
                        out@.len() == i,
                        *self is Pairs && *m == self->Pairs_0,
                        forall|j: int|
                            0 <= j < i ==> (#[trigger] out@[j]).0@ == m@[j].0@ && out@[j].1@
                                == m@[j].1@,
                    decreases m.len() - i,
                {
                    assert(decreases_to!(*m => m@[i as int]));
                    out.push((m[i].0.dup(), m[i].1.dup()));
                    i += 1;
                }
                let r = Cbor::Pairs(out);
                assert(r@->Pairs_0 =~= self@->Pairs_0);
                r
            },
        }
    }

    /// The value of the first pair with this text key.
    pub fn get(&self, key: &str) -> (r: Option<&Cbor>)
        ensures
            match r {
                Some(v) => self@.field(key@) == Some(v@),
                None => self@.field(key@) is None,
            },
    {
        match self {
            Cbor::Pairs(pairs) => {
                let ghost m = self@->Pairs_0;
                let mut i: usize = 0;
                while i < pairs.len()
                    invariant
                        i <= pairs@.len(),
                        m.len() == pairs@.len(),
                        forall|j: int|
                            0 <= j < m.len() ==> #[trigger] m[j] == (pairs@[j].0@, pairs@[j].1@),
                        self@ == CborV::Pairs(m),
                        lookup_from(m, key@, 0) == lookup_from(m, key@, i as int),
                    decreases pairs.len() - i,
                {
                    assert(m[i as int] == (pairs@[i as int].0@, pairs@[i as int].1@));
                    if let Cbor::Text(t) = &pairs[i].0 {
                        if str_eq(t.as_str(), key) {
                            return Some(&pairs[i].1);
                        }
                    }
                    i += 1;
                }
                None
            },
            _ => None,
        }
    }

    pub fn as_u64(&self) -> (r: Option<u64>)
        ensures
            r == match self@ {
                CborV::U64(v) => Some(v),
                _ => None,
            },
    {
        match self {
            Cbor::U64(v) => Some(*v),
            _ => None,
        }
    }

    pub fn as_i64(&self) -> (r: Option<i64>)
        ensures
            r == match self@ {
                CborV::U64(v) => if v <= i64::MAX {
                    Some(v as i64)
                } else {
                    None
                },
                CborV::I64(v) => Some(v),
                _ => None,
            },
    {
        match self {
            Cbor::U64(v) => if *v <= i64::MAX as u64 {
                Some(*v as i64)
            } else {
                None
            },
            Cbor::I64(v) => Some(*v),
            _ => None,
        }
    }

    /// The number of a numeric value.
    pub fn as_f64(&self) -> (r: Option<Number>)
        ensures
            r == match self@ {
                CborV::F64(v) => Some(Number::Bits(v)),
                CborV::U64(v) => Some(Number::Unsigned(v)),
                CborV::I64(v) => Some(Number::Signed(v)),
                _ => None,
            },
    {
        match self {
            Cbor::F64(v) => Some(Number::Bits(*v)),
            Cbor::U64(v) => Some(Number::Unsigned(*v)),
            Cbor::I64(v) => Some(Number::Signed(*v)),
            _ => None,
        }
    }

    pub fn as_str(&self) -> (r: Option<&str>)
        ensures
            match r {
                Some(s) => self@ == CborV::Text(s@),
                None => !(self@ is Text),
            },
    {
        match self {
            Cbor::Text(s) => Some(s.as_str()),
            _ => None,
        }
    }

    pub fn as_bytes(&self) -> (r: Option<&[u8]>)
        ensures
            match r {
                Some(b) => self@ == CborV::Bytes(b@),
                None => !(self@ is Bytes),
            },
    {
        match self {
            Cbor::Bytes(b) => Some(b.as_slice()),
            _ => None,
        }
    }

    pub fn as_bool(&self) -> (r: Option<bool>)
        ensures
            r == match self@ {
                CborV::Bool(b) => Some(b),
                _ => None,
            },
    {
        match self {
            Cbor::Bool(b) => Some(*b),
            _ => None,
        }
    }

    pub fn as_array(&self) -> (r: Option<&[Cbor]>)
        ensures
            match r {
                Some(a) => self@ == CborV::Array(views(a@)),
                None => !(self@ is Array),
            },
    {
        match self {
            Cbor::Array(a) => {
                assert(self@->Array_0 =~= views(a@));
                Some(a.as_slice())
            },
            _ => None,
        }
    }

    pub fn as_map(&self) -> (r: Option<&[(Cbor, Cbor)]>)
        ensures
            match r {
                Some(m) => self@ == CborV::Pairs(pair_views(m@)),
                None => !(self@ is Pairs),
            },
    {
        match self {
            Cbor::Pairs(m) => {
                assert(self@->Pairs_0 =~= pair_views(m@));
                Some(m.as_slice())
            },
            _ => None,
        }
    }

    pub fn opt_str(&self, key: &str) -> (r: Option<String>)
        ensures
            r.deep_view() == self@.text_field(key@),
    {
        match self.get(key) {
            Some(v) => match v.as_str() {
                Some(s) => Some(s.to_owned()),
                None => None,
            },
            None => None,
        }
    }

    pub fn opt_u64(&self, key: &str) -> (r: Option<u64>)
        ensures
            r == self@.u64_field(key@),
    {
        match self.get(key) {
            Some(v) => v.as_u64(),
            None => None,
        }
    }

    pub fn opt_bool(&self, key: &str) -> (r: Option<bool>)
        ensures
            r == self@.bool_field(key@),
    {
        match self.get(key) {
            Some(v) => v.as_bool(),
            None => None,
        }
    }

    /// The field, where it is an array.
    pub fn opt_array(&self, key: &str) -> (r: Option<&[Cbor]>)
        ensures
            match r {
                Some(a) => self@.array_field(key@) == Some(views(a@)),
                None => self@.array_field(key@) is None,
            },
    {
        match self.get(key) {
            Some(v) => v.as_array(),
            None => None,
        }
    }

    /// The text field, empty where it is missing.
    pub fn str_or_empty(&self, key: &str) -> (r: String)
        ensures
            r@ == text_or_empty(self@, key@),
    {
        match self.opt_str(key) {
            Some(s) => s,
            None => String::new(),
        }
    }

    /// The number field, 0 where it is missing.
    pub fn u64_or_zero(&self, key: &str) -> (r: u64)
        ensures
            r == u64_or_zero(self@, key@),
    {
        match self.opt_u64(key) {
            Some(n) => n,
            None => 0,
        }
    }

    /// A text field that has to be there.
    pub fn req_str(&self, key: &str) -> (r: UcResult<String>)
        ensures
            match r {
                Ok(s) => self@.text_field(key@) == Some(s@),
                Err(e) => self@.text_field(key@) is None && e.plain(
                    ErrCode::Internal,
                    missing_text(key@),
                ),
            },
    {
        match self.opt_str(key) {
            Some(s) => Ok(s),
            None => {
                let mut m = "missing/invalid text field `".to_owned();
                m.append(key);
                m.append("`");
                Err(UcError::internal(m.as_str()))
            },
        }
    }

    /// A number field that has to be there.
    pub fn req_u64(&self, key: &str) -> (r: UcResult<u64>)
        ensures
            match r {
                Ok(n) => self@.u64_field(key@) == Some(n),
                Err(e) => self@.u64_field(key@) is None && e.plain(
                    ErrCode::Internal,
                    missing_uint(key@),
                ),
            },
    {
        match self.opt_u64(key) {
            Some(n) => Ok(n),
            None => {
                let mut m = "missing/invalid uint field `".to_owned();
                m.append(key);
                m.append("`");
                Err(UcError::internal(m.as_str()))
            },
        }
    }

    /// Appends every text of the value, keys before their values.
    pub fn collect_texts<'a>(&'a self, out: &mut Vec<&'a str>)
        ensures
            final(out).deep_view() == old(out).deep_view() + all_texts(self@),
        decreases self,
    {
        match self {
            Cbor::Text(s) => {
                out.push(s.as_str());
                assert(out.deep_view() =~= old(out).deep_view() + all_texts(self@));
            },
            Cbor::Array(a) => {
                let ghost av = self@->Array_0;
                let mut i: usize = 0;
                while i < a.len()
                    invariant
                        i <= a@.len(),
                        av.len() == a@.len(),
                        *self is Array && *a == self->Array_0,
                        forall|j: int| 0 <= j < av.len() ==> #[trigger] av[j] == a@[j]@,
                        out.deep_view() == old(out).deep_view() + all_texts_in(av.take(i as int)),
                    decreases a.len() - i,
                {
                    let ghost pre = out.deep_view();
                    assert(decreases_to!(*a => a@[i as int]));
                    a[i].collect_texts(out);
                    i += 1;
                    assert(av.take(i as int).drop_last() =~= av.take(i - 1));
                    assert(out.deep_view() =~= old(out).deep_view() + all_texts_in(
                        av.take(i as int),
                    ));
                }
                assert(av.take(av.len() as int) =~= av);
            },
            Cbor::Pairs(m) => {
                let ghost mv = self@->Pairs_0;
                let mut i: usize = 0;
                while i < m.len()
                    invariant
                        i <= m@.len(),
                        mv.len() == m@.len(),
                        *self is Pairs && *m == self->Pairs_0,
                        forall|j: int|
                            0 <= j < mv.len() ==> #[trigger] mv[j] == (m@[j].0@, m@[j].1@),
                        out.deep_view() == old(out).deep_view() + all_texts_paired(
                            mv.take(i as int),
                        ),
                    decreases m.len() - i,
                {
                    assert(decreases_to!(*m => m@[i as int]));
                    m[i].0.collect_texts(out);
                    m[i].1.collect_texts(out);
                    i += 1;
                    assert(mv.take(i as int).drop_last() =~= mv.take(i - 1));
                    assert(out.deep_view() =~= old(out).deep_view() + all_texts_paired(
                        mv.take(i as int),
                    ));
                }
                assert(mv.take(mv.len() as int) =~= mv);
            },
            _ => {
                assert(out.deep_view() =~= old(out).deep_view() + all_texts(self@));
            },
        }
    }
}

impl Clone for Cbor {
    fn clone(&self) -> (r: Cbor)
        ensures
            r@ == self@,
    {
        self.dup()
    }
}

/// The text field, empty where it is missing.
pub open spec fn text_or_empty(v: CborV, key: Seq<char>) -> Seq<char> {
    match v.text_field(key) {
        Some(s) => s,
        None => Seq::empty(),
    }
}

/// The number field, 0 where it is missing.
pub open spec fn u64_or_zero(v: CborV, key: Seq<char>) -> u64 {
    match v.u64_field(key) {
        Some(n) => n,
        None => 0,
    }
}

/// The message for a text field that is not there.
pub open spec fn missing_text(key: Seq<char>) -> Seq<char> {
    "missing/invalid text field `"@ + key + "`"@
}

/// The message for a number field that is not there.
pub open spec fn missing_uint(key: Seq<char>) -> Seq<char> {
    "missing/invalid uint field `"@ + key + "`"@
}

/// The texts of an array, other items passed over.
pub fn texts_of(items: &[Cbor]) -> (r: Vec<String>)
    ensures
        text_views(r@) == texts_among(views(items@)),
{
    let mut out: Vec<String> = Vec::new();
    let mut i: usize = 0;
    while i < items.len()
        invariant
            i <= items@.len(),
            text_views(out@) == texts_among(views(items@).take(i as int)),
        decreases items.len() - i,
    {
        let ghost before = out@;
        if let Some(s) = items[i].as_str() {
            out.push(s.to_owned());
            assert(text_views(out@) =~= text_views(before).push(s@));
        }
        i += 1;
        assert(views(items@).take(i as int).drop_last() =~= views(items@).take(i - 1));
    }
    assert(views(items@).take(items@.len() as int) =~= views(items@));
    out
}

/// The texts of an array field, none where it is missing.
pub open spec fn texts_field(v: CborV, key: Seq<char>) -> Seq<Seq<char>> {
    match v.array_field(key) {
        Some(a) => texts_among(a),
        None => Seq::empty(),
    }
}

/// The field, `Null` where it is missing.
pub open spec fn value_or_null(v: CborV, key: Seq<char>) -> CborV {
    match v.field(key) {
        Some(x) => x,
        None => CborV::Null,
    }
}

impl Cbor {
    /// The texts of an array field, none where it is missing.
    pub fn texts_or_empty(&self, key: &str) -> (r: Vec<String>)
        ensures
            text_views(r@) == texts_field(self@, key@),
    {
        match self.opt_array(key) {
            Some(a) => texts_of(a),
            None => {
                let r: Vec<String> = Vec::new();
                assert(text_views(r@) =~= Seq::<Seq<char>>::empty());
                r
            },
        }
    }

    /// A copy of the field, `Null` where it is missing.
    pub fn value_or_null(&self, key: &str) -> (r: Cbor)
        ensures
            r@ == value_or_null(self@, key@),
    {
        match self.get(key) {
            Some(v) => v.dup(),
            None => Cbor::Null,
        }
    }
}

/// The texts of an array of texts are those it was made of.
pub proof fn lemma_texts_back(items: Seq<Seq<char>>)
    ensures
        texts_among(texts_value(items)->Array_0) == items,
    decreases items.len(),
{
    let a = texts_value(items)->Array_0;
    if items.len() > 0 {
        lemma_texts_back(items.drop_last());
        assert(a.drop_last() =~= texts_value(items.drop_last())->Array_0);
        assert(items.drop_last().push(items.last()) =~= items);
    } else {
        assert(texts_among(a) =~= items);
    }
}

/// A copy of an optional text.
pub fn dup_text(o: &Option<String>) -> (r: Option<String>)
    ensures
        r.deep_view() == o.deep_view(),
{
    match o {
        Some(s) => Some(s.clone()),
        None => None,
    }
}

/// A copy of a list of texts.
pub fn dup_texts(v: &Vec<String>) -> (r: Vec<String>)
    ensures
        text_views(r@) == text_views(v@),
        r.deep_view() == v.deep_view(),
{
    let mut out: Vec<String> = Vec::new();
    let mut i: usize = 0;
    while i < v.len()
        invariant
            i <= v@.len(),
            out@ == v@.take(i as int),
        decreases v.len() - i,
    {
        out.push(v[i].clone());
        i += 1;
        assert(out@ =~= v@.take(i as int));
    }
    assert(out@ =~= v@);
    out
}

/// Two ways to see a list of texts.
pub proof fn lemma_text_views(v: Vec<String>)
    ensures
        v.deep_view() == text_views(v@),
{
    assert(v.deep_view() =~= text_views(v@));
}

impl Cbor {
    /// A map of one field.
    pub fn map1(k1: &str, v1: Cbor) -> (r: Cbor)
        ensures
            r@ == map_value(seq![(k1@, v1@)]),
    {
        let ghost want = seq![(k1@, v1@)];
        let pairs = vec![(k1, v1)];
        assert(Seq::new(pairs@.len(), |i: int| (pairs@[i].0@, pairs@[i].1@)) =~= want);
        Cbor::map(pairs)
    }
}

impl Cbor {
    /// A map of two fields.
    pub fn map2(k1: &str, v1: Cbor, k2: &str, v2: Cbor) -> (r: Cbor)
        ensures
            r@ == map_value(seq![(k1@, v1@), (k2@, v2@)]),
    {
        let ghost want = seq![(k1@, v1@), (k2@, v2@)];
        let pairs = vec![(k1, v1), (k2, v2)];
        assert(Seq::new(pairs@.len(), |i: int| (pairs@[i].0@, pairs@[i].1@)) =~= want);
        Cbor::map(pairs)
    }
}

impl Cbor {
    /// A map of three fields.
    pub fn map3(k1: &str, v1: Cbor, k2: &str, v2: Cbor, k3: &str, v3: Cbor) -> (r: Cbor)
        ensures
            r@ == map_value(seq![(k1@, v1@), (k2@, v2@), (k3@, v3@)]),
    {
        let ghost want = seq![(k1@, v1@), (k2@, v2@), (k3@, v3@)];
        let pairs = vec![(k1, v1), (k2, v2), (k3, v3)];
        assert(Seq::new(pairs@.len(), |i: int| (pairs@[i].0@, pairs@[i].1@)) =~= want);
        Cbor::map(pairs)
    }
}

impl Cbor {
    /// A map of four fields.
    pub fn map4(k1: &str, v1: Cbor, k2: &str, v2: Cbor, k3: &str, v3: Cbor, k4: &str, v4: Cbor) -> (r: Cbor)
        ensures
            r@ == map_value(seq![(k1@, v1@), (k2@, v2@), (k3@, v3@), (k4@, v4@)]),
    {
        let ghost want = seq![(k1@, v1@), (k2@, v2@), (k3@, v3@), (k4@, v4@)];
        let pairs = vec![(k1, v1), (k2, v2), (k3, v3), (k4, v4)];
        assert(Seq::new(pairs@.len(), |i: int| (pairs@[i].0@, pairs@[i].1@)) =~= want);
        Cbor::map(pairs)
    }
}

/// The encoded form of an optional float, given by its bits.
pub open spec fn opt_f64_value(o: Option<u64>) -> CborV {
    match o {
        Some(b) => CborV::F64(b),
        None => CborV::Null,
    }
}

impl Cbor {
    /// A number, or null.
    pub fn maybe_u64(o: Option<u64>) -> (r: Cbor)
        ensures
            r@ == opt_u64_value(o),
    {
        match o {
            Some(n) => Cbor::U64(n),
            None => Cbor::Null,
        }
    }

    /// A float, or null.
    pub fn maybe_f64(o: Option<u64>) -> (r: Cbor)
        ensures
            r@ == opt_f64_value(o),
    {
        match o {
            Some(b) => Cbor::F64(b),
            None => Cbor::Null,
        }
    }
}

} // verus!
