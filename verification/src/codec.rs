//! The byte form of CBOR values: the canonical encoder and the decoder.

use vstd::prelude::*;
use crate::bytes::{be_bytes, be_int, push_all, push_be, read_be, slice_of};
use crate::cbor::{views, Cbor, CborV};
use crate::text::{
    bytes_before, bytes_eq, lemma_lex_irreflexive, lemma_lex_total, lemma_lex_transitive, lex_lt,
    utf8_string,
};
use crate::vocab::{agrees, ErrCode, ErrV, UcError, UcResult};
use vstd::string::StringSliceAdditionalSpecFns;
use vstd::utf8::{decode_utf8, encode_utf8, valid_utf8};

verus! {

/// The most items of an array or pairs of a map that the decoder takes.
pub const MAX_ITEMS: u64 = 1_000_000;

/// The head of an item: its major type and a number, in the fewest bytes.
pub open spec fn head_bytes(major: int, n: nat) -> Seq<u8> {
    if n < 24 {
        seq![(major * 32 + n) as u8]
    } else if n < 0x100 {
        seq![(major * 32 + 24) as u8] + be_bytes(n, 1)
    } else if n < 0x1_0000 {
        seq![(major * 32 + 25) as u8] + be_bytes(n, 2)
    } else if n < 0x1_0000_0000 {
        seq![(major * 32 + 26) as u8] + be_bytes(n, 4)
    } else {
        seq![(major * 32 + 27) as u8] + be_bytes(n, 8)
    }
}

/// The number that stands for a negative integer: its distance below -1.
pub open spec fn neg_arg(n: i64) -> u64 {
    if n < 0 {
        (-1 - n) as u64
    } else {
        (u64::MAX - n) as u64
    }
}

/// Puts a pair in its place among pairs in ascending key order; a key that is
/// there already keeps its first value.
pub open spec fn place(s: Seq<(Seq<u8>, Seq<u8>)>, p: (Seq<u8>, Seq<u8>)) -> Seq<
    (Seq<u8>, Seq<u8>),
>
    decreases s.len(),
{
    if s.len() == 0 {
        seq![p]
    } else if s.last().0 == p.0 {
        s
    } else if lex_lt(s.last().0, p.0) {
        s.push(p)
    } else {
        place(s.drop_last(), p).push(s.last())
    }
}

/// Encoded pairs in ascending key order, the first of each key.
pub open spec fn canon_pairs(ps: Seq<(Seq<u8>, Seq<u8>)>) -> Seq<(Seq<u8>, Seq<u8>)>
    decreases ps.len(),
{
    if ps.len() == 0 {
        Seq::empty()
    } else {
        place(canon_pairs(ps.drop_last()), ps.last())
    }
}

/// Pairs one after the other, each key before its value.
pub open spec fn flat(ps: Seq<(Seq<u8>, Seq<u8>)>) -> Seq<u8>
    decreases ps.len(),
{
    if ps.len() == 0 {
        Seq::empty()
    } else {
        ps[0].0 + ps[0].1 + flat(ps.skip(1))
    }
}

/// The canonical encoding of a value.
pub open spec fn enc(v: CborV) -> Seq<u8>
    decreases v,
{
    match v {
        CborV::U64(n) => head_bytes(0, n as nat),
        CborV::I64(n) => head_bytes(1, neg_arg(n) as nat),
        CborV::Bytes(b) => head_bytes(2, b.len()) + b,
        CborV::Text(s) => head_bytes(3, encode_utf8(s).len()) + encode_utf8(s),
        CborV::Array(a) => head_bytes(4, a.len()) + enc_all(a),
        CborV::Pairs(m) => {
            let ps = canon_pairs(enc_pairs(m));
            head_bytes(5, ps.len()) + flat(ps)
        },
        CborV::Bool(b) => seq![if b { 0xF5u8 } else { 0xF4u8 }],
        CborV::Null => seq![0xF6u8],
        CborV::F64(n) => seq![0xFBu8] + be_bytes(n as nat, 8),
    }
}

/// Values one after the other.
pub open spec fn enc_all(a: Seq<CborV>) -> Seq<u8>
    decreases a,
{
    if a.len() == 0 {
        Seq::empty()
    } else {
        enc(a[0]) + enc_all(a.skip(1))
    }
}

/// Each pair encoded.
pub open spec fn enc_pairs(m: Seq<(CborV, CborV)>) -> Seq<(Seq<u8>, Seq<u8>)>
    decreases m,
{
    if m.len() == 0 {
        Seq::empty()
    } else {
        enc_pairs(m.drop_last()).push((enc(m.last().0), enc(m.last().1)))
    }
}

/// Keys in strictly ascending byte order.
pub open spec fn sorted_pairs(s: Seq<(Seq<u8>, Seq<u8>)>) -> bool {
    forall|i: int, j: int| 0 <= i < j < s.len() ==> lex_lt(#[trigger] s[i].0, #[trigger] s[j].0)
}

/// What `place` does to sorted pairs: the result is sorted, holds the old
/// pairs, and the new one where its key was not there.
pub proof fn lemma_place(s: Seq<(Seq<u8>, Seq<u8>)>, p: (Seq<u8>, Seq<u8>))
    requires
        sorted_pairs(s),
    ensures
        sorted_pairs(place(s, p)),
        forall|x: (Seq<u8>, Seq<u8>)|
            #![trigger place(s, p).contains(x)]
            place(s, p).contains(x) <==> (s.contains(x) || (x == p && !has_key(s, p.0))),
        has_key(place(s, p), p.0),
    decreases s.len(),
{
    let r = place(s, p);
    if s.len() == 0 {
        assert(r[0] == p);
        assert(!has_key(s, p.0));
        assert forall|x: (Seq<u8>, Seq<u8>)| r.contains(x) <==> x == p by {
            if x == p {
                assert(r[0] == x);
            }
        }
    } else if s.last().0 == p.0 {
        assert(s[s.len() - 1].0 == p.0);
    } else if lex_lt(s.last().0, p.0) {
        assert forall|i: int, j: int| 0 <= i < j < r.len() implies lex_lt(
            #[trigger] r[i].0,
            #[trigger] r[j].0,
        ) by {
            if j == s.len() && i < s.len() - 1 {
                assert(lex_lt(s[i].0, s[s.len() - 1].0));
                lemma_lex_transitive(s[i].0, s.last().0, p.0);
            }
        }
        if has_key(s, p.0) {
            let i = choose|i: int| 0 <= i < s.len() && s[i].0 == p.0;
            assert(lex_lt(r[i].0, r[s.len() as int].0));
            lemma_lex_irreflexive(p.0);
        }
        assert forall|x: (Seq<u8>, Seq<u8>)| r.contains(x) <==> (s.contains(x) || x == p) by {
            if s.contains(x) {
                let i = choose|i: int| 0 <= i < s.len() && s[i] == x;
                assert(r[i] == x);
            }
            if x == p {
                assert(r[s.len() as int] == x);
            }
            if r.contains(x) {
                let i = choose|i: int| 0 <= i < r.len() && r[i] == x;
                if i < s.len() {
                    assert(s[i] == x);
                }
            }
        }
        assert(r[s.len() as int].0 == p.0);
    } else {
        let d = s.drop_last();
        let q = place(d, p);
        lemma_place(d, p);
        lemma_lex_total(s.last().0, p.0);
        assert forall|i: int, j: int| 0 <= i < j < r.len() implies lex_lt(
            #[trigger] r[i].0,
            #[trigger] r[j].0,
        ) by {
            if j == q.len() {
                assert(q.contains(q[i]));
                if d.contains(q[i]) {
                    let k = choose|k: int| 0 <= k < d.len() && d[k] == q[i];
                    assert(lex_lt(s[k].0, s[s.len() - 1].0));
                }
            }
        }
        assert(has_key(s, p.0) == has_key(d, p.0)) by {
            if has_key(s, p.0) {
                let i = choose|i: int| 0 <= i < s.len() && s[i].0 == p.0;
                assert(d[i].0 == p.0);
            }
            if has_key(d, p.0) {
                let i = choose|i: int| 0 <= i < d.len() && d[i].0 == p.0;
                assert(s[i].0 == p.0);
            }
        }
        assert forall|x: (Seq<u8>, Seq<u8>)|
            r.contains(x) <==> (s.contains(x) || (x == p && !has_key(s, p.0))) by {
            assert(q.contains(x) <==> (d.contains(x) || (x == p && !has_key(d, p.0))));
            if s.contains(x) {
                let i = choose|i: int| 0 <= i < s.len() && s[i] == x;
                if i < d.len() {
                    assert(d[i] == x);
                } else {
                    assert(r[q.len() as int] == x);
                }
            }
            if q.contains(x) {
                let i = choose|i: int| 0 <= i < q.len() && q[i] == x;
                assert(r[i] == x);
            }
            if d.contains(x) {
                let i = choose|i: int| 0 <= i < d.len() && d[i] == x;
                assert(s[i] == x);
            }
            if r.contains(x) {
                let i = choose|i: int| 0 <= i < r.len() && r[i] == x;
                if i < q.len() {
                    assert(q[i] == x);
                } else {
                    assert(s[s.len() - 1] == x);
                }
            }
        }
        let i = choose|i: int| 0 <= i < q.len() && q[i].0 == p.0;
        assert(r[i].0 == p.0);
    }
}

/// Some pair has this key.
pub open spec fn has_key(s: Seq<(Seq<u8>, Seq<u8>)>, k: Seq<u8>) -> bool {
    exists|i: int| 0 <= i < s.len() && (#[trigger] s[i]).0 == k
}

/// Canonical pairs are sorted.
pub proof fn lemma_canon_sorted(ps: Seq<(Seq<u8>, Seq<u8>)>)
    ensures
        sorted_pairs(canon_pairs(ps)),
    decreases ps.len(),
{
    if ps.len() > 0 {
        lemma_canon_sorted(ps.drop_last());
        lemma_place(canon_pairs(ps.drop_last()), ps.last());
    }
}

/// Placing a pair between the smaller and the larger keys is an insertion;
/// placing one whose key is there changes nothing.
proof fn lemma_place_at(s: Seq<(Seq<u8>, Seq<u8>)>, p: (Seq<u8>, Seq<u8>), i: int)
    requires
        sorted_pairs(s),
        0 <= i <= s.len(),
        forall|j: int| 0 <= j < i ==> lex_lt(#[trigger] s[j].0, p.0),
    ensures
        (forall|j: int| i <= j < s.len() ==> lex_lt(p.0, #[trigger] s[j].0)) ==> place(s, p)
            == s.insert(i, p),
        (i < s.len() && s[i].0 == p.0) ==> place(s, p) == s,
    decreases s.len(),
{
    if s.len() > 0 {
        let d = s.drop_last();
        lemma_lex_irreflexive(p.0);
        if i < s.len() {
            lemma_place_at(d, p, if i <= d.len() { i } else { d.len() as int });
            if s[i].0 == p.0 {
                if i < s.len() - 1 {
                    assert(lex_lt(s[i].0, s[s.len() - 1].0));
                    if lex_lt(s.last().0, p.0) {
                        lemma_lex_transitive(p.0, s.last().0, p.0);
                    }
                    assert(d[i].0 == p.0);
                    assert(place(d, p) == d);
                    assert(d.push(s.last()) =~= s);
                }
            }
            if forall|j: int| i <= j < s.len() ==> lex_lt(p.0, #[trigger] s[j].0) {
                assert(lex_lt(p.0, s[s.len() - 1].0));
                if lex_lt(s.last().0, p.0) {
                    lemma_lex_transitive(p.0, s.last().0, p.0);
                }
                assert(forall|j: int| i <= j < d.len() ==> lex_lt(p.0, #[trigger] d[j].0)) by {
                    assert forall|j: int| i <= j < d.len() implies lex_lt(p.0, #[trigger] d[j].0) by {
                        assert(s[j].0 == d[j].0);
                    }
                }
                assert(d.insert(i, p).push(s.last()) =~= s.insert(i, p));
            }
        } else {
            assert(lex_lt(s[s.len() - 1].0, p.0));
            assert(s.push(p) =~= s.insert(i, p));
        }
    } else {
        assert(seq![p] =~= s.insert(i, p));
    }
}

/// The encoded pairs of a list.
spec fn byte_pairs(s: Seq<(Vec<u8>, Vec<u8>)>) -> Seq<(Seq<u8>, Seq<u8>)> {
    Seq::new(s.len(), |i: int| (s[i].0@, s[i].1@))
}

/// Puts an encoded pair in its place.
fn place_pair(out: &mut Vec<(Vec<u8>, Vec<u8>)>, kb: Vec<u8>, vb: Vec<u8>)
    requires
        sorted_pairs(byte_pairs(old(out)@)),
    ensures
        byte_pairs(final(out)@) == place(byte_pairs(old(out)@), (kb@, vb@)),
        sorted_pairs(byte_pairs(final(out)@)),
{
    let ghost s = byte_pairs(out@);
    let ghost p = (kb@, vb@);
    let mut i: usize = out.len();
    proof {
        lemma_place(s, p);
    }
    while i > 0 && bytes_before(kb.as_slice(), out[i - 1].0.as_slice())
        invariant
            i <= out@.len(),
            s == byte_pairs(out@),
            sorted_pairs(s),
            p == (kb@, vb@),
            forall|j: int| i <= j < s.len() ==> lex_lt(p.0, #[trigger] s[j].0),
        decreases i,
    {
        assert(s[i - 1].0 == out@[i - 1].0@);
        i -= 1;
    }
    if i > 0 && bytes_eq(kb.as_slice(), out[i - 1].0.as_slice()) {
        proof {
            assert(s[i - 1].0 == p.0);
            lemma_place_at(s, p, i - 1);
        }
        return ;
    }
    proof {
        if i > 0 {
            assert(s[i - 1].0 == out@[i - 1].0@);
            lemma_lex_total(s[i - 1].0, p.0);
            assert forall|j: int| 0 <= j < i implies lex_lt(#[trigger] s[j].0, p.0) by {
                if j < i - 1 {
                    assert(lex_lt(s[j].0, s[i - 1].0));
                    lemma_lex_transitive(s[j].0, s[i - 1].0, p.0);
                }
            }
        }
        lemma_place_at(s, p, i as int);
    }
    out.insert(i, (kb, vb));
    assert(byte_pairs(out@) =~= s.insert(i as int, p));
}

/// Writes the head of an item.
pub fn head(major: u8, value: u64, out: &mut Vec<u8>)
    requires
        major < 8,
    ensures
        final(out)@ == old(out)@ + head_bytes(major as int, value as nat),
{
    let m: u8 = major * 32;
    let ghost before = out@;
    if value < 24 {
        out.push(m + value as u8);
    } else if value <= 0xFF {
        out.push(m + 24);
        push_be(out, value, 1);
    } else if value <= 0xFFFF {
        out.push(m + 25);
        push_be(out, value, 2);
    } else if value <= 0xFFFF_FFFF {
        out.push(m + 26);
        push_be(out, value, 4);
    } else {
        out.push(m + 27);
        push_be(out, value, 8);
    }
    assert(out@ =~= before + head_bytes(major as int, value as nat));
}

fn encode_into(v: &Cbor, out: &mut Vec<u8>)
    ensures
        final(out)@ == old(out)@ + enc(v@),
    decreases v,
{
    let ghost before = out@;
    match v {
        Cbor::U64(n) => head(0, *n, out),
        Cbor::I64(n) => {
            let m: u64 = if *n < 0 { (-(*n + 1)) as u64 } else { u64::MAX - *n as u64 };
            head(1, m, out);
        },
        Cbor::Bytes(b) => {
            head(2, b.len() as u64, out);
            push_all(out, b.as_slice());
            assert(out@ =~= before + enc(v@));
        },
        Cbor::Text(s) => {
            let b = s.as_str().as_bytes();
            head(3, b.len() as u64, out);
            push_all(out, b);
            assert(out@ =~= before + enc(v@));
        },
        Cbor::Array(a) => {
            head(4, a.len() as u64, out);
            let ghost av = v@->Array_0;
            let ghost start = out@;
            let mut i: usize = 0;
            proof {
                assert(av.skip(0) =~= av);
            }
            while i < a.len()
                invariant
                    i <= a@.len(),
                    av.len() == a@.len(),
                    *v is Array && *a == v->Array_0,
                    forall|j: int| 0 <= j < av.len() ==> #[trigger] av[j] == a@[j]@,
                    out@ + enc_all(av.skip(i as int)) == start + enc_all(av),
                decreases a.len() - i,
            {
                let ghost pre = out@;
                let ghost rest = av.skip(i as int);
                assert(decreases_to!(*a => a@[i as int]));
                encode_into(&a[i], out);
                i += 1;
                assert(rest[0] == av[i - 1]);
                assert(rest.skip(1) =~= av.skip(i as int));
                assert(out@ + enc_all(av.skip(i as int)) =~= pre + enc_all(rest));
            }
            assert(av.skip(av.len() as int) =~= Seq::<CborV>::empty());
            assert(out@ + enc_all(Seq::<CborV>::empty()) =~= out@);
            assert(out@ =~= before + enc(v@));
        },
        Cbor::Pairs(pairs) => {
            let ghost mv = v@->Pairs_0;
            let mut entries: Vec<(Vec<u8>, Vec<u8>)> = Vec::new();
            let mut i: usize = 0;
            assert(byte_pairs(entries@) =~= canon_pairs(enc_pairs(mv.take(0))));
            while i < pairs.len()
                invariant
                    i <= pairs@.len(),
                    mv.len() == pairs@.len(),
                    *v is Pairs && *pairs == v->Pairs_0,
                    forall|j: int|
                        0 <= j < mv.len() ==> #[trigger] mv[j] == (pairs@[j].0@, pairs@[j].1@),
                    byte_pairs(entries@) == canon_pairs(enc_pairs(mv.take(i as int))),
                    sorted_pairs(byte_pairs(entries@)),
                decreases pairs.len() - i,
            {
                assert(decreases_to!(*pairs => pairs@[i as int]));
                let mut kb: Vec<u8> = Vec::new();
                encode_into(&pairs[i].0, &mut kb);
                let mut vb: Vec<u8> = Vec::new();
                encode_into(&pairs[i].1, &mut vb);
                proof {
                    assert(mv[i as int] == (pairs@[i as int].0@, pairs@[i as int].1@));
                    assert(kb@ =~= enc(mv[i as int].0));
                    assert(vb@ =~= enc(mv[i as int].1));
                    assert(mv.take(i + 1).drop_last() =~= mv.take(i as int));
                    let now = enc_pairs(mv.take(i + 1));
                    assert(now.drop_last() =~= enc_pairs(mv.take(i as int)));
                    assert(now.last() == (kb@, vb@));
                }
                place_pair(&mut entries, kb, vb);
                i += 1;
            }
            assert(mv.take(mv.len() as int) =~= mv);
            let ghost ps = byte_pairs(entries@);
            head(5, entries.len() as u64, out);
            let ghost start = out@;
            let mut j: usize = 0;
            proof {
                assert(ps.skip(0) =~= ps);
            }
            while j < entries.len()
                invariant
                    j <= entries@.len(),
                    ps == byte_pairs(entries@),
                    out@ + flat(ps.skip(j as int)) == start + flat(ps),
                decreases entries.len() - j,
            {
                let ghost pre = out@;
                let ghost rest = ps.skip(j as int);
                push_all(out, entries[j].0.as_slice());
                push_all(out, entries[j].1.as_slice());
                j += 1;
                assert(rest[0] == ps[j - 1]);
                assert(rest.skip(1) =~= ps.skip(j as int));
                assert(out@ + flat(ps.skip(j as int)) =~= pre + flat(rest));
            }
            assert(ps.skip(ps.len() as int) =~= Seq::<(Seq<u8>, Seq<u8>)>::empty());
            assert(out@ + flat(Seq::<(Seq<u8>, Seq<u8>)>::empty()) =~= out@);
            assert(out@ =~= before + enc(v@));
        },
        Cbor::Bool(b) => {
            out.push(if *b { 0xF5 } else { 0xF4 });
            assert(out@ =~= before + enc(v@));
        },
        Cbor::Null => {
            out.push(0xF6);
            assert(out@ =~= before + enc(v@));
        },
        Cbor::F64(f) => {
            out.push(0xFB);
            push_be(out, *f, 8);
            assert(out@ =~= before + enc(v@));
        },
    }
}

/// The place of the highest bit that is set, 0 for 0.
pub open spec fn top_bit(n: u64) -> nat
    decreases n,
{
    if n <= 1 {
        0
    } else {
        1 + top_bit(n / 2)
    }
}

fn highest_bit(n: u64) -> (r: u64)
    ensures
        r == top_bit(n),
        r < 64,
    decreases n,
{
    let mut k: u64 = 0;
    let mut m: u64 = n;
    proof {
        vstd::arithmetic::power2::lemma2_to64();
        lemma_top_bit(n, 64);
    }
    while m > 1
        invariant
            k + top_bit(m) == top_bit(n),
            top_bit(n) < 64,
        decreases m,
    {
        m = m / 2;
        k = k + 1;
    }
    k
}

proof fn lemma_top_bit(n: u64, w: nat)
    requires
        n < vstd::arithmetic::power2::pow2(w),
        0 < w <= 64,
    ensures
        top_bit(n) < w,
    decreases n,
{
    if n > 1 {
        vstd::arithmetic::power2::lemma_pow2_unfold(w);
        if w == 1 {
            vstd::arithmetic::power2::lemma2_to64();
        } else {
            lemma_top_bit(n / 2, (w - 1) as nat);
        }
    }
}

/// A float of `width` fraction bits as the bits of a 64-bit float. The
/// exponent field has its largest value for infinities and NaNs, and 0 for
/// zero and the subnormal numbers, whose fraction is brought to the form
/// 1.xxx.
pub open spec fn widened(neg: bool, exp: u64, frac: u64, width: u64, largest: u64, bias: u64) -> u64 {
    let sign: u64 = if neg { 0x8000_0000_0000_0000 } else { 0 };
    if exp == largest {
        sign | 0x7FF0_0000_0000_0000 | (frac << ((52 - width) as u64))
    } else if exp != 0 {
        sign | (((exp + 1023 - bias) as u64) << 52) | (frac << ((52 - width) as u64))
    } else if frac == 0 {
        sign
    } else {
        let k = top_bit(frac) as u64;
        sign | (((k + 1024 - bias - width) as u64) << 52) | ((frac << ((52 - k) as u64))
            & 0x000F_FFFF_FFFF_FFFF)
    }
}

/// A 16-bit float in 64 bits; every NaN becomes the default quiet one.
pub open spec fn widen16(h: u64) -> u64 {
    let neg = h / 0x8000 % 2 == 1;
    let exp = h / 0x400 % 32;
    let frac = h % 0x400;
    if exp == 31 && frac != 0 {
        if neg {
            0xFFF8_0000_0000_0000
        } else {
            0x7FF8_0000_0000_0000
        }
    } else {
        widened(neg, exp as u64, frac as u64, 10, 31, 15)
    }
}

/// A 32-bit float in 64 bits; a NaN keeps its payload and becomes quiet.
pub open spec fn widen32(h: u64) -> u64 {
    let neg = h / 0x8000_0000 % 2 == 1;
    let exp = h / 0x80_0000 % 256;
    let frac = h % 0x80_0000;
    let w = widened(neg, exp as u64, frac as u64, 23, 255, 127);
    if exp == 255 && frac != 0 {
        w | 0x0008_0000_0000_0000
    } else {
        w
    }
}

fn widen(neg: bool, exp: u64, frac: u64, width: u64, largest: u64, bias: u64) -> (r: u64)
    requires
        width <= 23,
        bias + width <= 1024,
        exp <= largest <= 255,
        frac < 0x80_0000,
    ensures
        r == widened(neg, exp, frac, width, largest, bias),
{
    let sign: u64 = if neg { 0x8000_0000_0000_0000 } else { 0 };
    if exp == largest {
        sign | 0x7FF0_0000_0000_0000 | (frac << (52 - width))
    } else if exp != 0 {
        sign | ((exp + 1023 - bias) << 52u64) | (frac << (52 - width))
    } else if frac == 0 {
        sign
    } else {
        proof {
            vstd::arithmetic::power2::lemma2_to64();
            lemma_top_bit(frac, 23);
        }
        let k: u64 = highest_bit(frac);
        sign | ((k + 1024 - bias - width) << 52u64) | ((frac << (52 - k)) & 0x000F_FFFF_FFFF_FFFF)
    }
}

fn f16_to_f64(h: u64) -> (r: u64)
    requires
        h < 0x1_0000,
    ensures
        r == widen16(h),
{
    let neg: bool = h / 0x8000 % 2 == 1;
    let exp: u64 = h / 0x400 % 32;
    let frac: u64 = h % 0x400;
    if exp == 31 && frac != 0 {
        if neg {
            0xFFF8_0000_0000_0000
        } else {
            0x7FF8_0000_0000_0000
        }
    } else {
        widen(neg, exp, frac, 10, 31, 15)
    }
}

fn f32_to_f64(h: u64) -> (r: u64)
    requires
        h < 0x1_0000_0000,
    ensures
        r == widen32(h),
{
    let neg: bool = h / 0x8000_0000 % 2 == 1;
    let exp: u64 = h / 0x80_0000 % 256;
    let frac: u64 = h % 0x80_0000;
    let w: u64 = widen(neg, exp, frac, 23, 255, 127);
    if exp == 255 && frac != 0 {
        w | 0x0008_0000_0000_0000
    } else {
        w
    }
}

/// The number of a head, with the bytes it takes after the first.
pub open spec fn read_arg(ai: int, b: Seq<u8>) -> Result<(nat, int), Seq<char>> {
    if ai < 24 {
        Ok((ai as nat, 0int))
    } else if ai > 27 {
        Err("cbor: indefinite-length forbidden"@)
    } else {
        let w: int = if ai == 24 {
            1
        } else if ai == 25 {
            2
        } else if ai == 26 {
            4
        } else {
            8
        };
        if b.len() < w {
            Err("cbor: truncated"@)
        } else {
            Ok((be_int(b.take(w)), w))
        }
    }
}

/// A simple value or a float, with the bytes it takes after the first.
pub open spec fn read_simple(ai: int, b: Seq<u8>) -> Result<(CborV, int), Seq<char>> {
    if ai == 20 {
        Ok((CborV::Bool(false), 0int))
    } else if ai == 21 {
        Ok((CborV::Bool(true), 0int))
    } else if ai == 22 || ai == 23 {
        Ok((CborV::Null, 0int))
    } else if ai == 25 {
        if b.len() < 2 {
            Err("cbor: truncated"@)
        } else {
            Ok((CborV::F64(widen16(be_int(b.take(2)) as u64)), 2int))
        }
    } else if ai == 26 {
        if b.len() < 4 {
            Err("cbor: truncated"@)
        } else {
            Ok((CborV::F64(widen32(be_int(b.take(4)) as u64)), 4int))
        }
    } else if ai == 27 {
        if b.len() < 8 {
            Err("cbor: truncated"@)
        } else {
            Ok((CborV::F64(be_int(b.take(8)) as u64), 8int))
        }
    } else {
        Err("cbor: unsupported simple value"@)
    }
}

/// Items two by two.
pub open spec fn paired(xs: Seq<CborV>) -> Seq<(CborV, CborV)> {
    Seq::new(xs.len() / 2, |i: int| (xs[2 * i], xs[2 * i + 1]))
}

/// The first item of a byte string, with its length in bytes; or the message
/// of the error.
pub open spec fn dec(b: Seq<u8>) -> Result<(CborV, int), Seq<char>>
    decreases b.len(), 0nat,
{
    if b.len() == 0 {
        Err("cbor: truncated"@)
    } else {
        let major = b[0] as int / 32;
        let ai = b[0] as int % 32;
        let rest = b.skip(1);
        if major == 7 {
            match read_simple(ai, rest) {
                Err(e) => Err(e),
                Ok((v, k)) => Ok((v, 1 + k)),
            }
        } else {
            match read_arg(ai, rest) {
                Err(e) => Err(e),
                Ok((n, k)) => {
                    let body = rest.skip(k);
                    if major == 0 {
                        Ok((CborV::U64(n as u64), 1 + k))
                    } else if major == 1 {
                        if n <= i64::MAX {
                            Ok((CborV::I64((-1 - n) as i64), 1 + k))
                        } else {
                            Err("cbor: negint out of i64 range"@)
                        }
                    } else if major == 2 {
                        if n > body.len() {
                            Err("cbor: truncated"@)
                        } else {
                            Ok((CborV::Bytes(body.take(n as int)), 1 + k + n))
                        }
                    } else if major == 3 {
                        if n > body.len() {
                            Err("cbor: truncated"@)
                        } else if !valid_utf8(body.take(n as int)) {
                            Err("cbor: invalid utf8"@)
                        } else {
                            Ok((CborV::Text(decode_utf8(body.take(n as int))), 1 + k + n))
                        }
                    } else if major == 4 {
                        if n > MAX_ITEMS {
                            Err("cbor: array too large"@)
                        } else {
                            match dec_items(body, n) {
                                Err(e) => Err(e),
                                Ok((xs, c)) => Ok((CborV::Array(xs), 1 + k + c)),
                            }
                        }
                    } else if major == 5 {
                        if n > MAX_ITEMS {
                            Err("cbor: map too large"@)
                        } else {
                            match dec_items(body, 2 * n) {
                                Err(e) => Err(e),
                                Ok((xs, c)) => Ok((CborV::Pairs(paired(xs)), 1 + k + c)),
                            }
                        }
                    } else {
                        match dec(body) {
                            Err(e) => Err(e),
                            Ok((v, c)) => Ok((v, 1 + k + c)),
                        }
                    }
                },
            }
        }
    }
}

/// The first `n` items of a byte string, with their length in bytes.
pub open spec fn dec_items(b: Seq<u8>, n: nat) -> Result<(Seq<CborV>, int), Seq<char>>
    decreases b.len(), n + 1,
{
    if n == 0 {
        Ok((Seq::empty(), 0int))
    } else {
        match dec(b) {
            Err(e) => Err(e),
            Ok((v, k)) => {
                if 0 < k <= b.len() {
                    match dec_items(b.skip(k), (n - 1) as nat) {
                        Err(e) => Err(e),
                        Ok((xs, c)) => Ok((seq![v] + xs, k + c)),
                    }
                } else {
                    Err("cbor: truncated"@)
                }
            },
        }
    }
}

/// The value that whole bytes hold.
pub open spec fn value_of(b: Seq<u8>) -> Result<CborV, ErrV> {
    match dec(b) {
        Err(m) => Err((ErrCode::Internal, m)),
        Ok((v, k)) => if k == b.len() {
            Ok(v)
        } else {
            Err((ErrCode::Internal, "cbor: trailing bytes"@))
        },
    }
}

/// The outcome of a decoding step is what the bytes from `pos` on say.
spec fn decoded(b: Seq<u8>, pos: int, r: UcResult<(Cbor, usize)>) -> bool {
    match r {
        Ok((v, next)) => pos < next <= b.len() && dec(b.skip(pos)) == Ok::<_, Seq<char>>(
            (v@, next - pos),
        ),
        Err(e) => match dec(b.skip(pos)) {
            Err(m) => e.plain(ErrCode::Internal, m),
            Ok(_) => false,
        },
    }
}

spec fn decoded_items(b: Seq<u8>, pos: int, n: nat, r: UcResult<(Vec<Cbor>, usize)>) -> bool {
    match r {
        Ok((vs, next)) => pos <= next <= b.len() && dec_items(b.skip(pos), n) == Ok::<
            _,
            Seq<char>,
        >((views(vs@), next - pos)),
        Err(e) => match dec_items(b.skip(pos), n) {
            Err(m) => e.plain(ErrCode::Internal, m),
            Ok(_) => false,
        },
    }
}

fn truncated() -> (r: UcError)
    ensures
        r.plain(ErrCode::Internal, "cbor: truncated"@),
{
    UcError::internal("cbor: truncated")
}

fn read_uint(b: &[u8], pos: usize, ai: u8) -> (r: UcResult<(u64, usize)>)
    requires
        pos <= b@.len(),
        ai < 32,
    ensures
        match r {
            Ok((n, k)) => pos + k <= b@.len() && read_arg(ai as int, b@.skip(pos as int)) == Ok::<
                _,
                Seq<char>,
            >((n as nat, k as int)),
            Err(e) => match read_arg(ai as int, b@.skip(pos as int)) {
                Err(m) => e.plain(ErrCode::Internal, m),
                Ok(_) => false,
            },
        },
{
    if ai < 24 {
        return Ok((ai as u64, 0));
    }
    if ai > 27 {
        return Err(UcError::internal("cbor: indefinite-length forbidden"));
    }
    let w: usize = if ai == 24 {
        1
    } else if ai == 25 {
        2
    } else if ai == 26 {
        4
    } else {
        8
    };
    if b.len() - pos < w {
        return Err(truncated());
    }
    assert(b@.skip(pos as int).take(w as int) =~= b@.subrange(pos as int, pos + w));
    Ok((read_be(b, pos, w), w))
}

fn decode_simple(b: &[u8], pos: usize, ai: u8) -> (r: UcResult<(Cbor, usize)>)
    requires
        pos <= b@.len(),
        ai < 32,
    ensures
        match r {
            Ok((v, k)) => pos + k <= b@.len() && read_simple(ai as int, b@.skip(pos as int)) == Ok::<
                _,
                Seq<char>,
            >((v@, k as int)),
            Err(e) => match read_simple(ai as int, b@.skip(pos as int)) {
                Err(m) => e.plain(ErrCode::Internal, m),
                Ok(_) => false,
            },
        },
{
    let left: usize = b.len() - pos;
    let ghost rest = b@.skip(pos as int);
    match ai {
        20 => Ok((Cbor::Bool(false), 0)),
        21 => Ok((Cbor::Bool(true), 0)),
        22 | 23 => Ok((Cbor::Null, 0)),
        25 => {
            if left < 2 {
                return Err(truncated());
            }
            let n: u64 = read_be(b, pos, 2);
            proof {
                assert(rest.take(2) =~= b@.subrange(pos as int, pos + 2));
                crate::bytes::lemma_be_bound(rest.take(2));
                crate::bytes::lemma_pow256();
            }
            Ok((Cbor::F64(f16_to_f64(n)), 2))
        },
        26 => {
            if left < 4 {
                return Err(truncated());
            }
            let n: u64 = read_be(b, pos, 4);
            proof {
                assert(rest.take(4) =~= b@.subrange(pos as int, pos + 4));
                crate::bytes::lemma_be_bound(rest.take(4));
                crate::bytes::lemma_pow256();
            }
            Ok((Cbor::F64(f32_to_f64(n)), 4))
        },
        27 => {
            if left < 8 {
                return Err(truncated());
            }
            assert(rest.take(8) =~= b@.subrange(pos as int, pos + 8));
            Ok((Cbor::F64(read_be(b, pos, 8)), 8))
        },
        _ => Err(UcError::internal("cbor: unsupported simple value")),
    }
}

#[verifier::rlimit(60)]
#[verifier::spinoff_prover]
fn decode_one(b: &[u8], pos: usize) -> (r: UcResult<(Cbor, usize)>)
    requires
        pos <= b@.len(),
    ensures
        decoded(b@, pos as int, r),
    decreases b@.len() - pos, 0nat,
{
    let ghost here = b@.skip(pos as int);
    if pos >= b.len() {
        return Err(truncated());
    }
    let ib: u8 = b[pos];
    let major: u8 = ib / 32;
    let ai: u8 = ib % 32;
    proof {
        assert(here.skip(1) =~= b@.skip(pos + 1));
    }
    if major == 7 {
        return match decode_simple(b, pos + 1, ai) {
            Ok((v, k)) => Ok((v, pos + 1 + k)),
            Err(e) => Err(e),
        };
    }
    let (n, k) = match read_uint(b, pos + 1, ai) {
        Ok(x) => x,
        Err(e) => {
            return Err(e);
        },
    };
    let at: usize = pos + 1 + k;
    let ghost body = here.skip(1).skip(k as int);
    proof {
        assert(body =~= b@.skip(at as int));
    }
    let left: usize = b.len() - at;
    match major {
        0 => Ok((Cbor::U64(n), at)),
        1 => {
            if n <= i64::MAX as u64 {
                Ok((Cbor::I64(-1 - (n as i64)), at))
            } else {
                Err(UcError::internal("cbor: negint out of i64 range"))
            }
        },
        2 => {
            if n > left as u64 {
                return Err(truncated());
            }
            let end: usize = at + n as usize;
            let s = slice_of(b, at, end);
            assert(s@ =~= body.take(n as int));
            Ok((Cbor::Bytes(s), end))
        },
        3 => {
            if n > left as u64 {
                return Err(truncated());
            }
            let end: usize = at + n as usize;
            let s = slice_of(b, at, end);
            assert(s@ =~= body.take(n as int));
            match utf8_string(s) {
                Some(t) => Ok((Cbor::Text(t), end)),
                None => Err(UcError::internal("cbor: invalid utf8")),
            }
        },
        4 => {
            if n > MAX_ITEMS {
                return Err(UcError::internal("cbor: array too large"));
            }
            match decode_items(b, at, n) {
                Ok((xs, next)) => {
                    let v = Cbor::Array(xs);
                    assert(v@->Array_0 =~= views(xs@));
                    Ok((v, next))
                },
                Err(e) => Err(e),
            }
        },
        5 => {
            if n > MAX_ITEMS {
                return Err(UcError::internal("cbor: map too large"));
            }
            match decode_items(b, at, 2 * n) {
                Ok((xs, next)) => {
                    let ghost vs = views(xs@);
                    proof {
                        lemma_items_len(body, (2 * n) as nat);
                    }
                    let m = pair_up(xs);
                    let v = Cbor::Pairs(m);
                    assert(v@->Pairs_0 =~= paired(vs));
                    Ok((v, next))
                },
                Err(e) => Err(e),
            }
        },
        _ => decode_one(b, at),
    }
}

fn decode_items(b: &[u8], pos: usize, n: u64) -> (r: UcResult<(Vec<Cbor>, usize)>)
    requires
        pos <= b@.len(),
    ensures
        decoded_items(b@, pos as int, n as nat, r),
    decreases b@.len() - pos, n + 1,
{
    let mut out: Vec<Cbor> = Vec::new();
    let mut at: usize = pos;
    let mut i: u64 = 0;
    let ghost whole = dec_items(b@.skip(pos as int), n as nat);
    assert(views(out@) =~= Seq::<CborV>::empty());
    assert(match whole {
        Ok((xs, c)) => Seq::<CborV>::empty() + xs =~= xs,
        Err(_) => true,
    });
    while i < n
        invariant
            i <= n,
            pos <= at <= b@.len(),
            match dec_items(b@.skip(at as int), (n - i) as nat) {
                Ok((xs, c)) => whole == Ok::<_, Seq<char>>((views(out@) + xs, (at - pos) + c)),
                Err(m) => whole == Err::<(Seq<CborV>, int), _>(m),
            },
            whole == dec_items(b@.skip(pos as int), n as nat),
        decreases n - i,
    {
        let ghost before = views(out@);
        let ghost tail = b@.skip(at as int);
        match decode_one(b, at) {
            Err(e) => {
                return Err(e);
            },
            Ok((v, next)) => {
                proof {
                    assert(tail.skip(next - at) =~= b@.skip(next as int));
                }
                out.push(v);
                assert(views(out@) =~= before.push(v@));
                proof {
                    match dec_items(b@.skip(next as int), (n - i - 1) as nat) {
                        Ok((xs, c)) => {
                            assert(before + (seq![v@] + xs) =~= views(out@) + xs);
                        },
                        Err(_) => {},
                    }
                }
                at = next;
            },
        }
        i += 1;
    }
    assert(views(out@) + Seq::<CborV>::empty() =~= views(out@));
    Ok((out, at))
}

/// As many items come out as were asked for.
pub proof fn lemma_items_len(b: Seq<u8>, n: nat)
    ensures
        match dec_items(b, n) {
            Ok((xs, c)) => xs.len() == n,
            Err(_) => true,
        },
    decreases n,
{
    if n > 0 {
        match dec(b) {
            Ok((v, k)) => {
                if 0 < k <= b.len() {
                    lemma_items_len(b.skip(k), (n - 1) as nat);
                }
            },
            Err(_) => {},
        }
    }
}

fn pair_up(xs: Vec<Cbor>) -> (r: Vec<(Cbor, Cbor)>)
    requires
        xs@.len() % 2 == 0,
    ensures
        r@.len() == xs@.len() / 2,
        forall|i: int|
            0 <= i < r@.len() ==> #[trigger] r@[i] == (xs@[2 * i], xs@[2 * i + 1]),
{
    let mut xs = xs;
    let ghost all = xs@;
    let mut rev: Vec<(Cbor, Cbor)> = Vec::new();
    while xs.len() > 0
        invariant
            xs@.len() % 2 == 0,
            xs@.len() + 2 * rev@.len() == all.len(),
            all.len() % 2 == 0,
            xs@ == all.take(xs@.len() as int),
            forall|i: int|
                0 <= i < rev@.len() ==> #[trigger] rev@[i] == (
                    all[all.len() - 2 - 2 * i],
                    all[all.len() - 1 - 2 * i],
                ),
        decreases xs.len(),
    {
        let ghost n = xs@.len();
        let v = xs.pop();
        let k = xs.pop();
        if let (Some(k), Some(v)) = (k, v) {
            rev.push((k, v));
            assert(xs@ =~= all.take(n - 2));
        }
    }
    let mut out: Vec<(Cbor, Cbor)> = Vec::new();
    while rev.len() > 0
        invariant
            2 * (rev@.len() + out@.len()) == all.len(),
            forall|i: int|
                0 <= i < rev@.len() ==> #[trigger] rev@[i] == (
                    all[all.len() - 2 - 2 * i],
                    all[all.len() - 1 - 2 * i],
                ),
            forall|i: int|
                0 <= i < out@.len() ==> #[trigger] out@[i] == (all[2 * i], all[2 * i + 1]),
        decreases rev.len(),
    {
        let p = rev.pop();
        if let Some(p) = p {
            out.push(p);
        }
    }
    out
}

impl Cbor {
    /// The canonical encoding: the same value always gives the same bytes.
    pub fn encode(&self) -> (r: Vec<u8>)
        ensures
            r@ == enc(self@),
    {
        let mut out: Vec<u8> = Vec::new();
        encode_into(self, &mut out);
        assert(out@ =~= enc(self@));
        out
    }

    /// Decodes one item that takes up all the bytes.
    pub fn decode(bytes: &[u8]) -> (r: UcResult<Cbor>)
        ensures
            agrees(r, value_of(bytes@)),
    {
        proof {
            assert(bytes@.skip(0) =~= bytes@);
        }
        match decode_one(bytes, 0) {
            Ok((v, next)) => {
                if next != bytes.len() {
                    Err(UcError::internal("cbor: trailing bytes"))
                } else {
                    Ok(v)
                }
            },
            Err(e) => Err(e),
        }
    }

    /// Decodes the first item and says how many bytes it takes.
    pub fn decode_prefix(bytes: &[u8]) -> (r: UcResult<(Cbor, usize)>)
        ensures
            match r {
                Ok((v, k)) => dec(bytes@) == Ok::<_, Seq<char>>((v@, k as int)),
                Err(e) => match dec(bytes@) {
                    Err(m) => e.plain(ErrCode::Internal, m),
                    Ok(_) => false,
                },
            },
    {
        proof {
            assert(bytes@.skip(0) =~= bytes@);
        }
        decode_one(bytes, 0)
    }
}

} // verus!
