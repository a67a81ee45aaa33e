//! Laws of the CBOR byte form: decoding undoes encoding, encoding what was
//! decoded gives the same bytes, and the order of a map's pairs is immaterial.

use vstd::prelude::*;
use crate::bytes::{be_bytes, lemma_be_round_trip, lemma_pow256};
use crate::cbor::{lookup_from, CborV};
use crate::codec::{
    canon_pairs, dec, dec_items, enc, enc_all, enc_pairs, flat, has_key, head_bytes,
    lemma_canon_sorted, lemma_place, neg_arg, paired, place, read_arg, sorted_pairs, value_of, MAX_ITEMS,
};
use crate::text::{lemma_lex_irreflexive, lemma_lex_transitive, lex_lt};
use crate::vocab::ErrV;
use vstd::utf8::{encode_utf8, encode_utf8_decode_utf8, encode_utf8_valid_utf8};

verus! {

/// Puts a pair in its place among pairs in ascending order of encoded keys.
pub open spec fn place_value(s: Seq<(CborV, CborV)>, p: (CborV, CborV)) -> Seq<(CborV, CborV)>
    decreases s.len(),
{
    if s.len() == 0 {
        seq![p]
    } else if enc(s.last().0) == enc(p.0) {
        s
    } else if lex_lt(enc(s.last().0), enc(p.0)) {
        s.push(p)
    } else {
        place_value(s.drop_last(), p).push(s.last())
    }
}

/// The canonical form of a value: at every level the pairs of a map are in
/// ascending order of their encoded keys, and of the pairs with one key the
/// first is kept.
pub open spec fn canon(v: CborV) -> CborV
    decreases v,
{
    match v {
        CborV::Array(a) => CborV::Array(
            Seq::new(
                a.len(),
                |i: int|
                    if 0 <= i < a.len() {
                        canon(a[i])
                    } else {
                        CborV::Null
                    },
            ),
        ),
        CborV::Pairs(m) => CborV::Pairs(canon_map(m)),
        _ => v,
    }
}

pub open spec fn canon_map(m: Seq<(CborV, CborV)>) -> Seq<(CborV, CborV)>
    decreases m,
{
    if m.len() == 0 {
        Seq::empty()
    } else {
        place_value(canon_map(m.drop_last()), (canon(m.last().0), canon(m.last().1)))
    }
}

/// What the byte form can carry: integers marked negative are negative, no
/// array and no map is larger than the decoder takes, and lengths fit in 64
/// bits.
pub open spec fn fits(v: CborV) -> bool
    decreases v,
{
    match v {
        CborV::I64(n) => n < 0,
        CborV::Bytes(b) => b.len() <= u64::MAX,
        CborV::Text(s) => encode_utf8(s).len() <= u64::MAX,
        CborV::Array(a) => a.len() <= MAX_ITEMS && forall|i: int|
            0 <= i < a.len() ==> fits(#[trigger] a[i]),
        CborV::Pairs(m) => canon_pairs(enc_pairs(m)).len() <= MAX_ITEMS && forall|i: int|
            0 <= i < m.len() ==> fits((#[trigger] m[i]).0) && fits(m[i].1),
        _ => true,
    }
}

proof fn lemma_enc_pairs(m: Seq<(CborV, CborV)>)
    ensures
        enc_pairs(m).len() == m.len(),
        forall|i: int|
            0 <= i < m.len() ==> #[trigger] enc_pairs(m)[i] == (enc(m[i].0), enc(m[i].1)),
    decreases m.len(),
{
    if m.len() > 0 {
        lemma_enc_pairs(m.drop_last());
    }
}

proof fn lemma_enc_place(s: Seq<(CborV, CborV)>, p: (CborV, CborV))
    ensures
        enc_pairs(place_value(s, p)) == place(enc_pairs(s), (enc(p.0), enc(p.1))),
        forall|i: int|
            0 <= i < place_value(s, p).len() ==> #[trigger] place_value(s, p)[i] == p || s.contains(
                place_value(s, p)[i],
            ),
    decreases s.len(),
{
    let e = enc_pairs(s);
    lemma_enc_pairs(s);
    let r = place_value(s, p);
    lemma_enc_pairs(r);
    if s.len() > 0 {
        let d = s.drop_last();
        assert(e.last() == (enc(s.last().0), enc(s.last().1)));
        assert(e.drop_last() =~= enc_pairs(d));
        if enc(s.last().0) == enc(p.0) {
            assert forall|i: int| 0 <= i < r.len() implies s.contains(#[trigger] r[i]) by {
                assert(s[i] == r[i]);
            }
        } else if lex_lt(enc(s.last().0), enc(p.0)) {
            assert(enc_pairs(r) =~= e.push((enc(p.0), enc(p.1))));
            assert forall|i: int| 0 <= i < s.len() implies s.contains(#[trigger] r[i]) by {
                assert(s[i] == r[i]);
            }
        } else {
            lemma_enc_place(d, p);
            let q = place_value(d, p);
            lemma_enc_pairs(q);
            assert(enc_pairs(r) =~= enc_pairs(q).push(e.last()));
            assert forall|i: int| 0 <= i < r.len() implies #[trigger] r[i] == p || s.contains(
                r[i],
            ) by {
                if i < q.len() {
                    assert(q[i] == r[i]);
                    if q[i] != p {
                        assert(d.contains(q[i]));
                        let j = choose|j: int| 0 <= j < d.len() && d[j] == q[i];
                        assert(s[j] == r[i]);
                    }
                } else {
                    assert(s[s.len() - 1] == r[i]);
                }
            }
        }
    } else {
        assert(enc_pairs(r) =~= seq![(enc(p.0), enc(p.1))]);
    }
}

proof fn lemma_canon_map(m: Seq<(CborV, CborV)>)
    requires
        forall|i: int|
            0 <= i < m.len() ==> enc(canon((#[trigger] m[i]).0)) == enc(m[i].0) && enc(
                canon(m[i].1),
            ) == enc(m[i].1),
    ensures
        enc_pairs(canon_map(m)) == canon_pairs(enc_pairs(m)),
        forall|i: int|
            0 <= i < canon_map(m).len() ==> came_from(#[trigger] canon_map(m)[i], m),
    decreases m.len(),
{
    lemma_enc_pairs(m);
    if m.len() > 0 {
        let d = m.drop_last();
        assert forall|i: int| 0 <= i < d.len() implies enc(canon((#[trigger] d[i]).0)) == enc(
            d[i].0,
        ) && enc(canon(d[i].1)) == enc(d[i].1) by {
            assert(m[i] == d[i]);
        }
        lemma_canon_map(d);
        let p = (canon(m.last().0), canon(m.last().1));
        assert(m[m.len() - 1] == m.last());
        lemma_enc_place(canon_map(d), p);
        assert(enc_pairs(m).drop_last() =~= enc_pairs(d));
        let r = canon_map(m);
        assert forall|i: int| 0 <= i < r.len() implies came_from(#[trigger] r[i], m) by {
            if r[i] == p {
                assert(pair_of(m, m.len() - 1) == p);
            } else {
                assert(canon_map(d).contains(r[i]));
                let k = choose|k: int| 0 <= k < canon_map(d).len() && canon_map(d)[k] == r[i];
                assert(came_from(canon_map(d)[k], d));
                let j = choose|j: int| 0 <= j < d.len() && #[trigger] pair_of(d, j) == r[i];
                assert(pair_of(m, j) == r[i]);
            }
        }
    } else {
        assert(enc_pairs(canon_map(m)) =~= canon_pairs(enc_pairs(m)));
    }
}

spec fn pair_of(m: Seq<(CborV, CborV)>, j: int) -> (CborV, CborV) {
    (canon(m[j].0), canon(m[j].1))
}

spec fn came_from(p: (CborV, CborV), m: Seq<(CborV, CborV)>) -> bool {
    exists|j: int| 0 <= j < m.len() && #[trigger] pair_of(m, j) == p
}

/// Canonical pairs that are sorted already stay as they are.
pub proof fn lemma_canon_pairs_sorted(s: Seq<(Seq<u8>, Seq<u8>)>)
    requires
        sorted_pairs(s),
    ensures
        canon_pairs(s) == s,
    decreases s.len(),
{
    if s.len() > 0 {
        let d = s.drop_last();
        lemma_canon_pairs_sorted(d);
        if d.len() > 0 {
            assert(lex_lt(s[d.len() - 1].0, s[s.len() - 1].0));
            lemma_lex_irreflexive(s.last().0);
        }
        assert(d.push(s.last()) =~= s);
    } else {
        assert(canon_pairs(s) =~= s);
    }
}

proof fn lemma_enc_all_same(a: Seq<CborV>, b: Seq<CborV>)
    requires
        a.len() == b.len(),
        forall|i: int| 0 <= i < a.len() ==> enc(#[trigger] a[i]) == enc(b[i]),
    ensures
        enc_all(a) == enc_all(b),
    decreases a.len(),
{
    if a.len() > 0 {
        assert forall|i: int| 0 <= i < a.skip(1).len() implies enc(#[trigger] a.skip(1)[i]) == enc(
            b.skip(1)[i],
        ) by {
            assert(a.skip(1)[i] == a[i + 1]);
        }
        assert(enc(a[0]) == enc(b[0]));
        lemma_enc_all_same(a.skip(1), b.skip(1));
    }
}

/// A value and its canonical form have the same bytes.
pub proof fn lemma_canon_same_bytes(v: CborV)
    ensures
        enc(canon(v)) == enc(v),
    decreases v,
{
    match v {
        CborV::Array(a) => {
            let c = canon(v)->Array_0;
            assert forall|i: int| 0 <= i < c.len() implies enc(#[trigger] c[i]) == enc(a[i]) by {
                lemma_canon_same_bytes(a[i]);
            }
            lemma_enc_all_same(c, a);
        },
        CborV::Pairs(m) => {
            assert forall|i: int| 0 <= i < m.len() implies enc(canon((#[trigger] m[i]).0)) == enc(
                m[i].0,
            ) && enc(canon(m[i].1)) == enc(m[i].1) by {
                assert(decreases_to!(m => m[i]));
                lemma_canon_same_bytes(m[i].0);
                lemma_canon_same_bytes(m[i].1);
            }
            lemma_canon_map(m);
            lemma_canon_sorted(enc_pairs(m));
            lemma_canon_pairs_sorted(canon_pairs(enc_pairs(m)));
        },
        _ => {},
    }
}

/// A head has the shortest form for its argument, names its major type in its first
/// three bits, and is read back, whatever follows it.
pub proof fn lemma_head(major: int, n: nat, rest: Seq<u8>)
    requires
        0 <= major < 8,
        n <= u64::MAX,
    ensures
        ({
            let h = head_bytes(major, n);
            let b = h + rest;
            &&& h.len() == if n < 24 {
                1int
            } else if n <= 0xFF {
                2
            } else if n <= 0xFFFF {
                3
            } else if n <= 0xFFFF_FFFF {
                5
            } else {
                9
            }
            &&& b[0] as int / 32 == major
            &&& read_arg(b[0] as int % 32, b.skip(1)) == Ok::<_, Seq<char>>((n, h.len() - 1))
            &&& b.skip(1).skip(h.len() - 1) == rest
        }),
{
    lemma_pow256();
    let h = head_bytes(major, n);
    let b = h + rest;
    if n >= 24 {
        let w: nat = if n < 0x100 {
            1
        } else if n < 0x1_0000 {
            2
        } else if n < 0x1_0000_0000 {
            4
        } else {
            8
        };
        lemma_be_round_trip(n, w);
        assert(b.skip(1).take(w as int) =~= be_bytes(n, w));
        assert(h.len() == 1 + w);
    }
    assert(b.skip(1).skip(h.len() - 1) =~= rest);
}

/// Decoding reads this value off the front of its encoding, whatever follows.
pub open spec fn reads_back(v: CborV, as_value: CborV) -> bool {
    &&& enc(v).len() > 0
    &&& forall|t: Seq<u8>|
        dec(#[trigger] (enc(v) + t)) == Ok::<_, Seq<char>>((as_value, enc(v).len() as int))
}

proof fn lemma_items_back(xs: Seq<CborV>, t: Seq<u8>)
    requires
        forall|i: int| 0 <= i < xs.len() ==> reads_back(#[trigger] xs[i], xs[i]),
    ensures
        dec_items(enc_all(xs) + t, xs.len()) == Ok::<_, Seq<char>>(
            (xs, enc_all(xs).len() as int),
        ),
    decreases xs.len(),
{
    if xs.len() > 0 {
        let rest = xs.skip(1);
        assert forall|i: int| 0 <= i < rest.len() implies reads_back(#[trigger] rest[i], rest[i]) by {
            assert(rest[i] == xs[i + 1]);
        }
        lemma_items_back(rest, t);
        let b = enc_all(xs) + t;
        let k = enc(xs[0]).len() as int;
        assert(reads_back(xs[0], xs[0]));
        assert(b =~= enc(xs[0]) + (enc_all(rest) + t));
        assert(b.skip(k) =~= enc_all(rest) + t);
        assert(seq![xs[0]] + rest =~= xs);
    } else {
        assert(xs =~= Seq::<CborV>::empty());
    }
}

/// The items of pairs, each key before its value.
spec fn interleave(m: Seq<(CborV, CborV)>) -> Seq<CborV> {
    Seq::new(
        2 * m.len(),
        |i: int|
            if i % 2 == 0 {
                m[i / 2].0
            } else {
                m[i / 2].1
            },
    )
}

proof fn lemma_flat(m: Seq<(CborV, CborV)>)
    ensures
        flat(enc_pairs(m)) == enc_all(interleave(m)),
    decreases m.len(),
{
    lemma_enc_pairs(m);
    let x = interleave(m);
    if m.len() > 0 {
        let r = m.skip(1);
        lemma_flat(r);
        lemma_enc_pairs(r);
        assert(enc_pairs(m).skip(1) =~= enc_pairs(r));
        assert(enc_pairs(m)[0] == (enc(m[0].0), enc(m[0].1)));
        assert(x[0] == m[0].0);
        assert(x.skip(1)[0] == m[0].1);
        assert forall|i: int| 0 <= i < 2 * r.len() implies x.skip(1).skip(1)[i] == #[trigger] interleave(r)[i] by {
            assert(x.skip(1).skip(1)[i] == x[i + 2]);
            assert((i + 2) / 2 == i / 2 + 1);
            assert((i + 2) % 2 == i % 2);
            assert(r[i / 2] == m[i / 2 + 1]);
        }
        assert(x.skip(1).skip(1) =~= interleave(r));
        assert(enc_all(x) == enc(x[0]) + enc_all(x.skip(1)));
        assert(enc_all(x.skip(1)) == enc(x.skip(1)[0]) + enc_all(x.skip(1).skip(1)));
        assert(flat(enc_pairs(m)) =~= enc_all(x));
    } else {
        assert(enc_all(x) =~= Seq::<u8>::empty());
        assert(flat(enc_pairs(m)) =~= Seq::<u8>::empty());
    }
}

proof fn lemma_scalar_back(v: CborV, t: Seq<u8>)
    requires
        fits(v),
        !(v is Array),
        !(v is Pairs),
    ensures
        enc(v).len() > 0,
        dec(enc(v) + t) == Ok::<_, Seq<char>>((v, enc(v).len() as int)),
{
    match v {
        CborV::U64(n) => {
            lemma_head(0, n as nat, t);
        },
        CborV::I64(n) => {
            lemma_head(1, neg_arg(n) as nat, t);
        },
        CborV::Bytes(b) => {
            lemma_head(2, b.len(), b + t);
            assert(enc(v) + t =~= head_bytes(2, b.len()) + (b + t));
            assert((b + t).take(b.len() as int) =~= b);
        },
        CborV::Text(s) => {
            let b = encode_utf8(s);
            encode_utf8_valid_utf8(s);
            encode_utf8_decode_utf8(s);
            lemma_head(3, b.len(), b + t);
            assert(enc(v) + t =~= head_bytes(3, b.len()) + (b + t));
            assert((b + t).take(b.len() as int) =~= b);
        },
        CborV::F64(n) => {
            lemma_pow256();
            lemma_be_round_trip(n as nat, 8);
            assert((enc(v) + t).skip(1).take(8) =~= be_bytes(n as nat, 8));
        },
        _ => {},
    }
}

proof fn lemma_array_back(a: Seq<CborV>, c: Seq<CborV>, t: Seq<u8>)
    requires
        a.len() == c.len() <= MAX_ITEMS,
        enc_all(c) == enc_all(a),
        forall|i: int| 0 <= i < c.len() ==> reads_back(#[trigger] c[i], c[i]),
    ensures
        enc(CborV::Array(a)).len() > 0,
        dec(enc(CborV::Array(a)) + t) == Ok::<_, Seq<char>>(
            (CborV::Array(c), enc(CborV::Array(a)).len() as int),
        ),
{
    let v = CborV::Array(a);
    lemma_head(4, a.len(), enc_all(a) + t);
    assert(enc(v) + t =~= head_bytes(4, a.len()) + (enc_all(a) + t));
    lemma_items_back(c, t);
}

#[verifier::rlimit(50)]
#[verifier::spinoff_prover]
proof fn lemma_pairs_back(m: Seq<(CborV, CborV)>, c: Seq<(CborV, CborV)>, t: Seq<u8>)
    requires
        canon_pairs(enc_pairs(m)) == enc_pairs(c),
        c.len() <= MAX_ITEMS,
        forall|i: int|
            0 <= i < c.len() ==> reads_back((#[trigger] c[i]).0, c[i].0) && reads_back(
                c[i].1,
                c[i].1,
            ),
    ensures
        enc(CborV::Pairs(m)).len() > 0,
        dec(enc(CborV::Pairs(m)) + t) == Ok::<_, Seq<char>>(
            (CborV::Pairs(c), enc(CborV::Pairs(m)).len() as int),
        ),
{
    let v = CborV::Pairs(m);
    let ps = enc_pairs(c);
    lemma_enc_pairs(c);
    lemma_flat(c);
    let x = interleave(c);
    assert forall|i: int| 0 <= i < x.len() implies reads_back(#[trigger] x[i], x[i]) by {
        assert(reads_back(c[i / 2].0, c[i / 2].0));
    }
    assert(paired(x) =~= c) by {
        assert forall|i: int| 0 <= i < c.len() implies paired(x)[i] == #[trigger] c[i] by {
            assert((2 * i) / 2 == i && (2 * i) % 2 == 0);
            assert((2 * i + 1) / 2 == i && (2 * i + 1) % 2 == 1);
        }
    }
    lemma_head(5, ps.len(), flat(ps) + t);
    assert(enc(v) + t =~= head_bytes(5, ps.len()) + (flat(ps) + t));
    lemma_items_back(x, t);
}

/// Decoding undoes encoding: from the bytes of a value, whatever follows
/// them, comes its canonical form, and just those bytes are taken.
pub proof fn lemma_decode_encode(v: CborV)
    requires
        fits(v),
    ensures
        reads_back(v, canon(v)),
    decreases v,
{
    match v {
        CborV::Array(a) => {
            let c = canon(v)->Array_0;
            assert forall|i: int| 0 <= i < c.len() implies enc(#[trigger] c[i]) == enc(a[i])
                && reads_back(c[i], c[i]) by {
                lemma_decode_encode(a[i]);
                lemma_canon_same_bytes(a[i]);
            }
            lemma_enc_all_same(c, a);
            lemma_array_back(a, c, Seq::empty());
            assert forall|t: Seq<u8>| dec(#[trigger] (enc(v) + t)) == Ok::<_, Seq<char>>(
                (canon(v), enc(v).len() as int),
            ) by {
                lemma_array_back(a, c, t);
            }
        },
        CborV::Pairs(m) => {
            let c = canon_map(m);
            assert forall|i: int| 0 <= i < m.len() implies enc(canon((#[trigger] m[i]).0)) == enc(
                m[i].0,
            ) && enc(canon(m[i].1)) == enc(m[i].1) by {
                lemma_canon_same_bytes(m[i].0);
                lemma_canon_same_bytes(m[i].1);
            }
            lemma_canon_map(m);
            lemma_enc_pairs(c);
            assert forall|i: int| 0 <= i < c.len() implies reads_back((#[trigger] c[i]).0, c[i].0)
                && reads_back(c[i].1, c[i].1) by {
                assert(came_from(c[i], m));
                let j = choose|j: int| 0 <= j < m.len() && #[trigger] pair_of(m, j) == c[i];
                assert(decreases_to!(m => m[j]));
                assert(fits(m[j].0) && fits(m[j].1));
                lemma_decode_encode(m[j].0);
                lemma_canon_same_bytes(m[j].0);
                lemma_decode_encode(m[j].1);
                lemma_canon_same_bytes(m[j].1);
            }
            lemma_pairs_back(m, c, Seq::empty());
            assert forall|t: Seq<u8>| dec(#[trigger] (enc(v) + t)) == Ok::<_, Seq<char>>(
                (canon(v), enc(v).len() as int),
            ) by {
                lemma_pairs_back(m, c, t);
            }
        },
        _ => {
            lemma_scalar_back(v, Seq::empty());
            assert forall|t: Seq<u8>| dec(#[trigger] (enc(v) + t)) == Ok::<_, Seq<char>>(
                (canon(v), enc(v).len() as int),
            ) by {
                lemma_scalar_back(v, t);
            }
        },
    }
}

/// What is decoded from an encoding encodes to the same bytes again.
pub proof fn lemma_reencode_identical(v: CborV)
    requires
        fits(v),
    ensures
        match dec(enc(v)) {
            Ok((w, k)) => k == enc(v).len() && enc(w) == enc(v),
            Err(_) => false,
        },
{
    lemma_decode_encode(v);
    assert(enc(v) + Seq::<u8>::empty() =~= enc(v));
    lemma_canon_same_bytes(v);
}

proof fn lemma_canon_members(ps: Seq<(Seq<u8>, Seq<u8>)>)
    requires
        forall|i: int, j: int|
            0 <= i < ps.len() && 0 <= j < ps.len() && (#[trigger] ps[i]).0 == (#[trigger] ps[j]).0
                ==> ps[i] == ps[j],
    ensures
        forall|x: (Seq<u8>, Seq<u8>)| #[trigger] canon_pairs(ps).contains(x) <==> ps.contains(x),
    decreases ps.len(),
{
    if ps.len() > 0 {
        let d = ps.drop_last();
        let p = ps.last();
        assert forall|i: int, j: int|
            0 <= i < d.len() && 0 <= j < d.len() && (#[trigger] d[i]).0 == (#[trigger] d[j]).0 implies d[i]
            == d[j] by {
            assert(ps[i] == d[i] && ps[j] == d[j]);
        }
        lemma_canon_members(d);
        lemma_canon_sorted(d);
        let c = canon_pairs(d);
        lemma_place(c, p);
        assert forall|x: (Seq<u8>, Seq<u8>)| #[trigger] canon_pairs(ps).contains(x) <==> ps.contains(
            x,
        ) by {
            assert(place(c, p).contains(x) <==> (c.contains(x) || (x == p && !has_key(c, p.0))));
            if d.contains(x) {
                let i = choose|i: int| 0 <= i < d.len() && d[i] == x;
                assert(ps[i] == x);
            }
            if ps.contains(x) {
                let i = choose|i: int| 0 <= i < ps.len() && ps[i] == x;
                if i < d.len() {
                    assert(d[i] == x);
                } else if has_key(c, p.0) {
                    let k = choose|k: int| 0 <= k < c.len() && (#[trigger] c[k]).0 == p.0;
                    assert(c.contains(c[k]));
                    let j = choose|j: int| 0 <= j < d.len() && d[j] == c[k];
                    assert(ps[j].0 == ps[ps.len() - 1].0);
                    assert(c[k] == p);
                }
            }
            if x == p {
                assert(ps[ps.len() - 1] == x);
            }
        }
    }
}

proof fn lemma_sorted_unique(a: Seq<(Seq<u8>, Seq<u8>)>, b: Seq<(Seq<u8>, Seq<u8>)>)
    requires
        sorted_pairs(a),
        sorted_pairs(b),
        forall|x: (Seq<u8>, Seq<u8>)| #[trigger] a.contains(x) <==> b.contains(x),
    ensures
        a == b,
    decreases a.len(),
{
    if a.len() == 0 {
        if b.len() > 0 {
            assert(b.contains(b[0]));
            assert(a.contains(b[0]));
        }
        assert(a =~= b);
    } else {
        assert(a.contains(a[a.len() - 1]));
        assert(b.contains(a.last()));
        assert(b.contains(b[b.len() - 1]));
        assert(a.contains(b.last()));
        let i = choose|i: int| 0 <= i < a.len() && a[i] == b.last();
        let j = choose|j: int| 0 <= j < b.len() && b[j] == a.last();
        if a.last() != b.last() {
            assert(lex_lt(a[i].0, a[a.len() - 1].0));
            assert(lex_lt(b[j].0, b[b.len() - 1].0));
            lemma_lex_transitive(a.last().0, b.last().0, a.last().0);
            lemma_lex_irreflexive(a.last().0);
        }
        let a2 = a.drop_last();
        let b2 = b.drop_last();
        assert forall|x: (Seq<u8>, Seq<u8>)| #[trigger] a2.contains(x) <==> b2.contains(x) by {
            lemma_lex_irreflexive(x.0);
            if a2.contains(x) {
                let k = choose|k: int| 0 <= k < a2.len() && a2[k] == x;
                assert(a[k] == x);
                assert(lex_lt(a[k].0, a[a.len() - 1].0));
                assert(a.contains(x));
                let l = choose|l: int| 0 <= l < b.len() && b[l] == x;
                assert(b2[l] == x);
            }
            if b2.contains(x) {
                let k = choose|k: int| 0 <= k < b2.len() && b2[k] == x;
                assert(b[k] == x);
                assert(lex_lt(b[k].0, b[b.len() - 1].0));
                assert(b.contains(x));
                assert(a.contains(x));
                let l = choose|l: int| 0 <= l < a.len() && a[l] == x;
                assert(a2[l] == x);
            }
        }
        lemma_sorted_unique(a2, b2);
        assert(a =~= a2.push(a.last()));
        assert(b =~= b2.push(b.last()));
    }
}

/// Keys that encode alike belong to one and the same pair.
pub open spec fn distinct_keys(m: Seq<(CborV, CborV)>) -> bool {
    forall|i: int, j: int|
        0 <= i < m.len() && 0 <= j < m.len() && enc((#[trigger] m[i]).0) == enc(
            (#[trigger] m[j]).0,
        ) ==> m[i] == m[j]
}

/// Two maps with the same pairs, in whatever order, have the same bytes.
pub proof fn lemma_order_immaterial(a: Seq<(CborV, CborV)>, b: Seq<(CborV, CborV)>)
    requires
        distinct_keys(a),
        distinct_keys(b),
        forall|p: (CborV, CborV)| #[trigger] a.contains(p) <==> b.contains(p),
    ensures
        enc(CborV::Pairs(a)) == enc(CborV::Pairs(b)),
{
    let ea = enc_pairs(a);
    let eb = enc_pairs(b);
    lemma_enc_pairs(a);
    lemma_enc_pairs(b);
    lemma_canon_members(ea);
    lemma_canon_members(eb);
    lemma_canon_sorted(ea);
    lemma_canon_sorted(eb);
    assert forall|x: (Seq<u8>, Seq<u8>)| #[trigger] canon_pairs(ea).contains(x) <==> canon_pairs(
        eb,
    ).contains(x) by {
        if ea.contains(x) {
            let i = choose|i: int| 0 <= i < ea.len() && ea[i] == x;
            assert(a.contains(a[i]));
            let j = choose|j: int| 0 <= j < b.len() && b[j] == a[i];
            assert(eb[j] == x);
        }
        if eb.contains(x) {
            let i = choose|i: int| 0 <= i < eb.len() && eb[i] == x;
            assert(b.contains(b[i]));
            assert(a.contains(b[i]));
            let j = choose|j: int| 0 <= j < a.len() && a[j] == b[i];
            assert(ea[j] == x);
        }
    }
    lemma_sorted_unique(canon_pairs(ea), canon_pairs(eb));
}

/// Every key of a map is a text whose length fits.
pub open spec fn text_keys(m: Seq<(CborV, CborV)>) -> bool {
    forall|i: int| 0 <= i < m.len() ==> (#[trigger] m[i]).0 is Text && fits(m[i].0)
}

/// The canonical form of an optional value.
pub open spec fn canon_opt(o: Option<CborV>) -> Option<CborV> {
    match o {
        Some(v) => Some(canon(v)),
        None => None,
    }
}

proof fn lemma_same_text(a: CborV, b: CborV)
    requires
        a is Text,
        b is Text,
        fits(a),
        fits(b),
        enc(a) == enc(b),
    ensures
        a == b,
{
    lemma_decode_encode(a);
    lemma_decode_encode(b);
    let e = Seq::<u8>::empty();
    assert(dec(enc(a) + e) == Ok::<_, Seq<char>>((canon(a), enc(a).len() as int)));
    assert(dec(enc(b) + e) == Ok::<_, Seq<char>>((canon(b), enc(b).len() as int)));
    assert(canon(a) == a && canon(b) == b);
}

proof fn lemma_lookup_push(m: Seq<(CborV, CborV)>, p: (CborV, CborV), key: Seq<char>, i: int)
    requires
        0 <= i <= m.len(),
    ensures
        lookup_from(m.push(p), key, i) == match lookup_from(m, key, i) {
            Some(v) => Some(v),
            None => if p.0 == CborV::Text(key) {
                Some(p.1)
            } else {
                None
            },
        },
    decreases m.len() - i,
{
    if i < m.len() {
        assert(m.push(p)[i] == m[i]);
        lemma_lookup_push(m, p, key, i + 1);
    } else {
        assert(m.push(p)[i] == p);
        assert(lookup_from(m.push(p), key, i + 1) is None);
    }
}

proof fn lemma_lookup_place(s: Seq<(CborV, CborV)>, p: (CborV, CborV), key: Seq<char>)
    requires
        text_keys(s),
        p.0 is Text,
        fits(p.0),
    ensures
        lookup_from(place_value(s, p), key, 0) == lookup_from(s.push(p), key, 0),
        text_keys(place_value(s, p)),
    decreases s.len(),
{
    lemma_lookup_push(s, p, key, 0);
    if s.len() == 0 {
        assert(s.push(p) =~= seq![p]);
    } else {
        let front = s.drop_last();
        let last = s.last();
        assert(s =~= front.push(last));
        assert forall|i: int| 0 <= i < front.len() implies (#[trigger] front[i]).0 is Text && fits(
            front[i].0,
        ) by {
            assert(front[i] == s[i]);
        }
        lemma_lookup_push(front, last, key, 0);
        if enc(last.0) == enc(p.0) {
            lemma_same_text(last.0, p.0);
        } else if !lex_lt(enc(last.0), enc(p.0)) {
            lemma_lookup_place(front, p, key);
            lemma_lookup_push(front, p, key, 0);
            lemma_lookup_push(place_value(front, p), last, key, 0);
        }
    }
}

proof fn lemma_canon_lookup(m: Seq<(CborV, CborV)>, key: Seq<char>)
    requires
        text_keys(m),
    ensures
        lookup_from(canon_map(m), key, 0) == canon_opt(lookup_from(m, key, 0)),
        text_keys(canon_map(m)),
    decreases m.len(),
{
    if m.len() > 0 {
        let front = m.drop_last();
        assert(m =~= front.push(m.last()));
        assert forall|i: int| 0 <= i < front.len() implies (#[trigger] front[i]).0 is Text && fits(
            front[i].0,
        ) by {
            assert(front[i] == m[i]);
        }
        lemma_canon_lookup(front, key);
        let p = (canon(m.last().0), canon(m.last().1));
        assert(p.0 == m.last().0);
        lemma_lookup_place(canon_map(front), p, key);
        lemma_lookup_push(canon_map(front), p, key, 0);
        lemma_lookup_push(front, m.last(), key, 0);
    }
}

/// A field of the canonical form is the canonical form of the field: what was
/// written under a key is found there after a trip through bytes.
pub proof fn lemma_canon_field(m: Seq<(CborV, CborV)>, key: Seq<char>)
    requires
        text_keys(m),
    ensures
        canon(CborV::Pairs(m)).field(key) == canon_opt(CborV::Pairs(m).field(key)),
{
    lemma_canon_lookup(m, key);
}

/// A text of up to a thousand characters fits.
pub proof fn lemma_short_text(s: Seq<char>)
    requires
        s.len() <= 1000,
    ensures
        fits(CborV::Text(s)),
{
    lemma_utf8_len(s);
}

proof fn lemma_utf8_len(s: Seq<char>)
    ensures
        encode_utf8(s).len() <= 4 * s.len(),
    decreases s.len(),
{
    if s.len() > 0 {
        lemma_utf8_len(s.drop_first());
    }
}

/// What whole bytes say of an encoded value: its canonical form.
pub proof fn lemma_bytes_back(v: CborV)
    requires
        fits(v),
    ensures
        value_of(enc(v)) == Ok::<_, ErrV>(canon(v)),
{
    lemma_decode_encode(v);
    assert(enc(v) + Seq::<u8>::empty() =~= enc(v));
}

/// At every level the pairs of a map are in strictly ascending order of their
/// encoded keys.
pub open spec fn in_order(v: CborV) -> bool
    decreases v,
{
    match v {
        CborV::Array(a) => forall|i: int| 0 <= i < a.len() ==> in_order(#[trigger] a[i]),
        CborV::Pairs(m) => sorted_pairs(enc_pairs(m)) && forall|i: int|
            0 <= i < m.len() ==> in_order((#[trigger] m[i]).0) && in_order(m[i].1),
        _ => true,
    }
}

proof fn lemma_in_order_map(m: Seq<(CborV, CborV)>)
    requires
        sorted_pairs(enc_pairs(m)),
        forall|i: int|
            0 <= i < m.len() ==> canon((#[trigger] m[i]).0) == m[i].0 && canon(m[i].1) == m[i].1,
    ensures
        canon_map(m) == m,
    decreases m.len(),
{
    if m.len() > 0 {
        let d = m.drop_last();
        let e = enc_pairs(m);
        lemma_enc_pairs(m);
        lemma_enc_pairs(d);
        assert(e.drop_last() =~= enc_pairs(d));
        assert forall|i: int| 0 <= i < d.len() implies canon((#[trigger] d[i]).0) == d[i].0
            && canon(d[i].1) == d[i].1 by {
            assert(m[i] == d[i]);
        }
        lemma_in_order_map(d);
        assert(m[m.len() - 1] == m.last());
        if d.len() > 0 {
            assert(lex_lt(e[d.len() - 1].0, e[m.len() - 1].0));
            assert(e[d.len() - 1] == (enc(d.last().0), enc(d.last().1)));
            lemma_lex_irreflexive(enc(m.last().0));
        }
        assert(d.push(m.last()) =~= m);
    } else {
        assert(canon_map(m) =~= m);
    }
}

proof fn lemma_in_order_canon(v: CborV)
    requires
        in_order(v),
    ensures
        canon(v) == v,
    decreases v,
{
    match v {
        CborV::Array(a) => {
            assert forall|i: int| 0 <= i < a.len() implies canon(#[trigger] a[i]) == a[i] by {
                lemma_in_order_canon(a[i]);
            }
            assert(canon(v)->Array_0 =~= a);
        },
        CborV::Pairs(m) => {
            assert forall|i: int| 0 <= i < m.len() implies canon((#[trigger] m[i]).0) == m[i].0
                && canon(m[i].1) == m[i].1 by {
                lemma_in_order_canon(m[i].0);
                lemma_in_order_canon(m[i].1);
            }
            lemma_in_order_map(m);
        },
        _ => {},
    }
}

/// A value whose maps are in order is decoded as itself.
pub proof fn lemma_ordered_back(v: CborV)
    requires
        fits(v),
        in_order(v),
    ensures
        value_of(enc(v)) == Ok::<_, ErrV>(v),
{
    lemma_bytes_back(v);
    lemma_in_order_canon(v);
}

} // verus!
