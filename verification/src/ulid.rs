//! ULIDs and the deterministic random-number stream they draw from.

use vstd::prelude::*;
use crate::text::{lex_lt, text_lt};
use vstd::string::StringSliceAdditionalSpecFns;
use vstd::utf8::{encode_utf8, is_ascii_chars, is_ascii_chars_encode_utf8};

verus! {

/// A 128-bit identifier: 48 bits of logical time, then 80 bits of entropy.
#[derive(Clone, Copy, PartialEq, Eq, Structural, PartialOrd, Ord, Hash, Debug)]
pub struct Ulid(pub u128);

/// The ASCII code of a base-32 digit; the letters I, L, O and U are left out.
pub open spec fn digit_code(d: int) -> int {
    if d < 10 {
        48 + d
    } else if d < 18 {
        55 + d
    } else if d < 20 {
        56 + d
    } else if d < 22 {
        57 + d
    } else if d < 27 {
        58 + d
    } else {
        59 + d
    }
}

/// An ASCII letter in upper case; other bytes unchanged.
pub open spec fn upper(c: u8) -> u8 {
    if 97 <= c <= 122 {
        (c - 32) as u8
    } else {
        c
    }
}

/// Digit `i` of the 26, from the most significant.
pub open spec fn digit_at(v: u128, i: int) -> u128
    recommends
        0 <= i < 26,
{
    (v >> ((5 * (25 - i)) as u128)) & 0x1f
}

/// The 26 base-32 digits of a value, as text.
pub open spec fn base32(v: u128) -> Seq<char> {
    Seq::new(26, |i: int| digit_code(digit_at(v, i) as int) as char)
}

/// The value of a run of base-32 digits; what does not fit in 128 bits is
/// shifted out.
pub open spec fn digits_value(ds: Seq<int>) -> u128
    decreases ds.len(),
{
    if ds.len() == 0 {
        0
    } else {
        (digits_value(ds.drop_last()) << 5) | (ds.last() as u128)
    }
}

/// `ds` are the digits that the bytes `b` stand for.
pub open spec fn reads_as(b: Seq<u8>, ds: Seq<int>) -> bool {
    &&& b.len() == ds.len()
    &&& forall|i: int|
        0 <= i < b.len() ==> 0 <= #[trigger] ds[i] < 32 && digit_code(ds[i]) == upper(b[i])
}

fn digit_char(d: u8) -> (r: char)
    requires
        d < 32,
    ensures
        r == digit_code(d as int) as char,
        (r as u32) < 128,
{
    let b: u8 = if d < 10 {
        48 + d
    } else if d < 18 {
        55 + d
    } else if d < 20 {
        56 + d
    } else if d < 22 {
        57 + d
    } else if d < 27 {
        58 + d
    } else {
        59 + d
    };
    b as char
}

fn decode_char(c: u8) -> (r: Option<u8>)
    ensures
        match r {
            Some(d) => d < 32 && digit_code(d as int) == upper(c),
            None => forall|d: int| 0 <= d < 32 ==> #[trigger] digit_code(d) != upper(c),
        },
{
    let u: u8 = if 97 <= c && c <= 122 { c - 32 } else { c };
    if 48 <= u && u <= 57 {
        Some(u - 48)
    } else if 65 <= u && u <= 72 {
        Some(u - 55)
    } else if u == 74 || u == 75 {
        Some(u - 56)
    } else if u == 77 || u == 78 {
        Some(u - 57)
    } else if 80 <= u && u <= 84 {
        Some(u - 58)
    } else if 86 <= u && u <= 90 {
        Some(u - 59)
    } else {
        None
    }
}

/// Byte `i` of the 16, from the most significant.
pub open spec fn be_byte(v: u128, i: int) -> u8
    recommends
        0 <= i < 16,
{
    ((v >> ((8 * (15 - i)) as u128)) & 0xff) as u8
}

/// The value of a big-endian byte string.
pub open spec fn be_value(b: Seq<u8>) -> u128
    decreases b.len(),
{
    if b.len() == 0 {
        0
    } else {
        (be_value(b.drop_last()) << 8) | (b.last() as u128)
    }
}

impl Ulid {
    /// Composes the low 48 bits of the time with two draws of the stream: all
    /// of the first, the low 16 bits of the second.
    pub fn from_parts(time48: u64, rng: &mut DetRng) -> (r: Ulid)
        ensures
            r.0 == (time48 as int % 0x1_0000_0000_0000) * 0x1_0000_0000_0000_0000_0000
                + draw(next_state(old(rng)@)) as int * 0x1_0000
                + (draw(next_state(next_state(old(rng)@))) as int % 0x1_0000),
            final(rng)@ == next_state(next_state(old(rng)@)),
    {
        let t: u128 = (time48 % 0x1_0000_0000_0000) as u128;
        let hi: u128 = rng.next_u64() as u128;
        let lo: u128 = (rng.next_u64() % 0x1_0000) as u128;
        Ulid(t * 0x1_0000_0000_0000_0000_0000 + hi * 0x1_0000 + lo)
    }

    pub fn nil() -> (r: Ulid)
        ensures
            r.0 == 0,
    {
        Ulid(0)
    }

    /// The time component.
    pub fn time48(&self) -> (r: u64)
        ensures
            r == self.0 as int / 0x1_0000_0000_0000_0000_0000,
    {
        (self.0 / 0x1_0000_0000_0000_0000_0000) as u64
    }

    pub fn to_base32(&self) -> (r: String)
        ensures
            r@ == base32(self.0),
    {
        let mut out = String::new();
        let mut i: usize = 0;
        let v: u128 = self.0;
        while i < 26
            invariant
                i <= 26,
                v == self.0,
                out@ == base32(v).take(i as int),
            decreases 26 - i,
        {
            let shift: u128 = (5 * (25 - i)) as u128;
            let d: u128 = (v >> shift) & 0x1f;
            assert(d < 32) by (bit_vector)
                requires
                    d == (v >> shift) & 0x1f,
            ;
            out.push(digit_char(d as u8));
            i += 1;
            assert(out@ =~= base32(v).take(i as int));
        }
        assert(base32(v).take(26) =~= base32(v));
        out
    }

    /// Reads 26 base-32 digits, in either case.
    pub fn from_base32(s: &str) -> (r: Option<Ulid>)
        ensures
            match r {
                Some(u) => encode_utf8(s@).len() == 26 && exists|ds: Seq<int>| #[trigger]
                    reads_as(encode_utf8(s@), ds) && u.0 == digits_value(ds),
                None => encode_utf8(s@).len() != 26 || forall|ds: Seq<int>|
                    !#[trigger] reads_as(encode_utf8(s@), ds),
            },
    {
        let b = s.as_bytes();
        if b.len() != 26 {
            return None;
        }
        let mut v: u128 = 0;
        let ghost mut ds: Seq<int> = Seq::empty();
        let mut i: usize = 0;
        while i < 26
            invariant
                i <= 26,
                b@.len() == 26,
                b@ == encode_utf8(s@),
                reads_as(b@.take(i as int), ds),
                v == digits_value(ds),
            decreases 26 - i,
        {
            match decode_char(b[i]) {
                Some(d) => {
                    let ghost prev = ds;
                    v = (v << 5u128) | (d as u128);
                    proof {
                        ds = ds.push(d as int);
                        assert(ds.drop_last() =~= prev);
                    }
                },
                None => {
                    assert forall|xs: Seq<int>| !#[trigger] reads_as(encode_utf8(s@), xs) by {
                        if reads_as(encode_utf8(s@), xs) {
                            assert(0 <= xs[i as int] < 32);
                            assert(digit_code(xs[i as int]) == upper(b@[i as int]));
                        }
                    }
                    return None;
                },
            }
            i += 1;
        }
        assert(b@.take(26) =~= b@);
        assert(reads_as(encode_utf8(s@), ds));
        Some(Ulid(v))
    }

    pub fn to_bytes(&self) -> (r: [u8; 16])
        ensures
            forall|i: int| 0 <= i < 16 ==> #[trigger] r@[i] == be_byte(self.0, i),
    {
        let mut out: [u8; 16] = [0u8; 16];
        let v: u128 = self.0;
        let mut i: usize = 0;
        while i < 16
            invariant
                i <= 16,
                v == self.0,
                forall|j: int| 0 <= j < i ==> #[trigger] out@[j] == be_byte(v, j),
            decreases 16 - i,
        {
            let shift: u128 = (8 * (15 - i)) as u128;
            let d: u128 = (v >> shift) & 0xff;
            assert(d < 256) by (bit_vector)
                requires
                    d == (v >> shift) & 0xff,
            ;
            out[i] = d as u8;
            i += 1;
        }
        out
    }

    pub fn from_bytes(b: [u8; 16]) -> (r: Ulid)
        ensures
            r.0 == be_value(b@),
    {
        let mut v: u128 = 0;
        let mut i: usize = 0;
        while i < 16
            invariant
                i <= 16,
                v == be_value(b@.take(i as int)),
            decreases 16 - i,
        {
            v = (v << 8u128) | (b[i] as u128);
            i += 1;
            assert(b@.take(i as int).drop_last() =~= b@.take(i - 1));
        }
        assert(b@.take(16) =~= b@);
        Ulid(v)
    }
}

/// A ULID made at a time holds the low 48 bits of that time, whatever the
/// entropy, so that a ULID made at a smaller time is the smaller one.
pub proof fn lemma_ulid_time(time: u64, hi: u64, lo: u64, time2: u64, hi2: u64, lo2: u64)
    ensures
        ({
            let a = ulid_int(time, hi, lo);
            let b = ulid_int(time2, hi2, lo2);
            &&& 0 <= a <= u128::MAX
            &&& a / 0x1_0000_0000_0000_0000_0000 == time as int % 0x1_0000_0000_0000
            &&& (time as int % 0x1_0000_0000_0000 < time2 as int % 0x1_0000_0000_0000) ==> a < b
        }),
{
}

/// The value that a time and two draws compose to.
pub open spec fn ulid_int(time: u64, hi: u64, lo: u64) -> int {
    (time as int % 0x1_0000_0000_0000) * 0x1_0000_0000_0000_0000_0000 + hi as int * 0x1_0000 + (
    lo as int % 0x1_0000)
}

proof fn lemma_digits_prefix(v: u128, k: int)
    requires
        1 <= k <= 26,
    ensures
        digits_value(Seq::new(k as nat, |i: int| digit_at(v, i) as int)) == v >> ((5 * (26 - k)) as u128),
    decreases k,
{
    let ds = Seq::new(k as nat, |i: int| digit_at(v, i) as int);
    let s = (5 * (26 - k)) as u128;
    if k == 1 {
        let e = ds.drop_last();
        assert(e.len() == 0);
        assert(digits_value(e) == 0);
        let d = digit_at(v, 0);
        assert(ds.last() == d);
        assert((0u128 << 5) | ((v >> 125) & 0x1f) == v >> 125) by (bit_vector);
    } else {
        lemma_digits_prefix(v, k - 1);
        assert(ds.drop_last() =~= Seq::new((k - 1) as nat, |i: int| digit_at(v, i) as int));
        assert(((v >> ((s + 5) as u128)) << 5) | ((v >> s) & 0x1f) == v >> s) by (bit_vector)
            requires
                s <= 120,
        ;
    }
}

/// Writing a ULID in base 32 and reading it back gives the same ULID: the
/// text has 26 bytes, and its only reading as digits has the value it came
/// from.
pub proof fn lemma_base32_round_trip(v: u128, ds: Seq<int>)
    ensures
        encode_utf8(base32(v)).len() == 26,
        reads_as(encode_utf8(base32(v)), Seq::new(26, |i: int| digit_at(v, i) as int)),
        reads_as(encode_utf8(base32(v)), ds) ==> digits_value(ds) == v,
{
    let t = base32(v);
    assert forall|i: int| 0 <= i < 26 implies digit_at(v, i) < 32 by {
        let s = (5 * (25 - i)) as u128;
        assert((v >> s) & 0x1f < 32) by (bit_vector);
    }
    assert(is_ascii_chars(t));
    is_ascii_chars_encode_utf8(t);
    let full = Seq::new(26, |i: int| digit_at(v, i) as int);
    lemma_digits_prefix(v, 26);
    assert(v >> 0u128 == v) by (bit_vector);
    if reads_as(encode_utf8(t), ds) {
        assert forall|i: int| 0 <= i < 26 implies ds[i] == full[i] by {
            assert(digit_code(ds[i]) == upper(encode_utf8(t)[i]));
            assert(digit_code(full[i]) == upper(encode_utf8(t)[i]));
        }
        assert(ds =~= full);
    }
}

proof fn lemma_digit_split(v: u128, i: int)
    requires
        0 <= i < 26,
    ensures
        digit_at(v, i) < 32,
        i == 0 ==> digit_at(v, i) == v >> 125 && digit_at(v, i) <= 7,
        i > 0 ==> v >> ((5 * (25 - i)) as u128) == (v >> ((5 * (26 - i)) as u128)) * 32 + digit_at(
            v,
            i,
        ),
{
    let s = (5 * (25 - i)) as u128;
    let x = v >> s;
    assert(x & 0x1f < 32 && (x >> 5u128) == x / 32 && x & 0x1f == x % 32) by (bit_vector);
    if i == 0 {
        assert((v >> 125u128) & 0x1f == v >> 125u128 && (v >> 125u128) <= 7) by (bit_vector);
    } else {
        assert(s <= 120 ==> (v >> s) >> 5u128 == v >> ((s + 5) as u128)) by (bit_vector);
    }
}

proof fn lemma_shift_ordered(u: u128, v: u128, s: u128)
    requires
        s < 128,
    ensures
        u <= v ==> (u >> s) <= (v >> s),
{
    vstd::bits::lemma_u128_shr_is_div(u, s);
    vstd::bits::lemma_u128_shr_is_div(v, s);
    vstd::arithmetic::power2::lemma_pow2_pos(s as nat);
    if u <= v {
        vstd::arithmetic::div_mod::lemma_div_is_ordered(
            u as int,
            v as int,
            vstd::arithmetic::power2::pow2(s as nat) as int,
        );
    }
}

proof fn lemma_order_from(u: u128, v: u128, i: int)
    requires
        0 <= i <= 26,
        i > 0 ==> u >> ((5 * (26 - i)) as u128) == v >> ((5 * (26 - i)) as u128),
    ensures
        lex_lt(
            encode_utf8(base32(u)).skip(i),
            encode_utf8(base32(v)).skip(i),
        ) <==> u < v,
    decreases 26 - i,
{
    let (a, b) = (encode_utf8(base32(u)), encode_utf8(base32(v)));
    lemma_base32_round_trip(u, Seq::empty());
    lemma_base32_round_trip(v, Seq::empty());
    if i == 26 {
        assert(u >> 0u128 == u && v >> 0u128 == v) by (bit_vector);
    } else {
        lemma_digit_split(u, i);
        lemma_digit_split(v, i);
        let s = (5 * (25 - i)) as u128;
        lemma_shift_ordered(u, v, s);
        lemma_shift_ordered(v, u, s);
        lemma_base32_byte(u, i);
        lemma_base32_byte(v, i);
        assert(a.skip(i)[0] == a[i] && b.skip(i)[0] == b[i]);
        assert(a.skip(i).skip(1) =~= a.skip(i + 1));
        assert(b.skip(i).skip(1) =~= b.skip(i + 1));
        if digit_at(u, i) == digit_at(v, i) {
            lemma_order_from(u, v, i + 1);
        }
    }
}

proof fn lemma_base32_byte(v: u128, i: int)
    requires
        0 <= i < 26,
    ensures
        encode_utf8(base32(v)).len() == 26,
        encode_utf8(base32(v))[i] == digit_code(digit_at(v, i) as int),
{
    let t = base32(v);
    assert forall|j: int| 0 <= j < 26 implies digit_at(v, j) < 32 by {
        lemma_digit_split(v, j);
    }
    assert(is_ascii_chars(t));
    is_ascii_chars_encode_utf8(t);
}

/// The order of the texts of identifiers is the order of the identifiers. A text has
/// 26 digits of the alphabet, the first of them at most seven.
pub proof fn lemma_base32_order(u: u128, v: u128)
    ensures
        base32(u).len() == 26,
        forall|i: int|
            0 <= i < 26 ==> exists|d: int|
                0 <= d < 32 && (#[trigger] base32(u)[i]) == #[trigger] digit_code(d) as char,
        base32(u)[0] <= '7',
        text_lt(base32(u), base32(v)) <==> u < v,
{
    assert forall|i: int| 0 <= i < 26 implies exists|d: int|
        0 <= d < 32 && (#[trigger] base32(u)[i]) == #[trigger] digit_code(d) as char by {
        lemma_digit_split(u, i);
        assert(base32(u)[i] == digit_code(digit_at(u, i) as int) as char);
    }
    lemma_digit_split(u, 0);
    lemma_order_from(u, v, 0);
    let (a, b) = (encode_utf8(base32(u)), encode_utf8(base32(v)));
    assert(a.skip(0) =~= a);
    assert(b.skip(0) =~= b);
}

proof fn lemma_be_prefix(v: u128, k: int)
    requires
        1 <= k <= 16,
    ensures
        be_value(Seq::new(k as nat, |i: int| be_byte(v, i))) == v >> ((8 * (16 - k)) as u128),
    decreases k,
{
    let b = Seq::new(k as nat, |i: int| be_byte(v, i));
    let s = (8 * (16 - k)) as u128;
    if k == 1 {
        assert(b.drop_last().len() == 0);
        assert(be_value(b.drop_last()) == 0);
        assert((0u128 << 8) | ((((v >> 120) & 0xff) as u8) as u128) == v >> 120) by (bit_vector);
    } else {
        lemma_be_prefix(v, k - 1);
        assert(b.drop_last() =~= Seq::new((k - 1) as nat, |i: int| be_byte(v, i)));
        assert(((v >> ((s + 8) as u128)) << 8) | ((((v >> s) & 0xff) as u8) as u128) == v >> s)
            by (bit_vector)
            requires
                s <= 112,
        ;
    }
}

/// The 16 bytes of a ULID give it back.
pub proof fn lemma_bytes_round_trip(v: u128)
    ensures
        be_value(Seq::new(16, |i: int| be_byte(v, i))) == v,
{
    lemma_be_prefix(v, 16);
    assert(v >> 0u128 == v) by (bit_vector);
}

/// The state after one draw.
pub open spec fn next_state(s: u64) -> u64 {
    s.wrapping_add(0x9E3779B97F4A7C15)
}

/// What is drawn in a state (the SplitMix64 finalizer).
pub open spec fn draw(s: u64) -> u64 {
    let a = (s ^ (s >> 30)).wrapping_mul(0xBF58476D1CE4E5B9);
    let b = (a ^ (a >> 27)).wrapping_mul(0x94D049BB133111EB);
    b ^ (b >> 31)
}

/// The state that a seed starts in.
pub open spec fn seeded(seed: u64) -> u64 {
    seed ^ 0x9E3779B97F4A7C15
}

/// SplitMix64: a deterministic stream; the seed alone decides every draw.
#[derive(Debug)]
pub struct DetRng {
    state: u64,
}

impl View for DetRng {
    type V = u64;

    closed spec fn view(&self) -> u64 {
        self.state
    }
}

impl Clone for DetRng {
    fn clone(&self) -> (r: DetRng)
        ensures
            r@ == self@,
    {
        DetRng { state: self.state }
    }
}

impl DetRng {
    pub fn new(seed: u64) -> (r: Self)
        ensures
            r@ == seeded(seed),
    {
        DetRng { state: seed ^ 0x9E3779B97F4A7C15 }
    }

    pub fn next_u64(&mut self) -> (r: u64)
        ensures
            final(self)@ == next_state(old(self)@),
            r == draw(final(self)@),
    {
        self.state = self.state.wrapping_add(0x9E3779B97F4A7C15);
        let s: u64 = self.state;
        let a: u64 = (s ^ (s >> 30u64)).wrapping_mul(0xBF58476D1CE4E5B9);
        let b: u64 = (a ^ (a >> 27u64)).wrapping_mul(0x94D049BB133111EB);
        b ^ (b >> 31u64)
    }

    /// A draw below `n`; 0 where `n` is 0.
    pub fn next_range(&mut self, n: u64) -> (r: u64)
        ensures
            final(self)@ == next_state(old(self)@),
            r == draw(final(self)@) as int % (if n == 0 { 1 } else { n as int }),
            n > 0 ==> r < n,
    {
        let m: u64 = if n == 0 { 1 } else { n };
        self.next_u64() % m
    }

    /// The numerator, over 2^53, of a draw from [0, 1).
    pub fn next_unit(&mut self) -> (r: u64)
        ensures
            final(self)@ == next_state(old(self)@),
            r == draw(final(self)@) >> 11,
            r < 0x20_0000_0000_0000,
    {
        let d: u64 = self.next_u64();
        assert(d >> 11 < 0x20_0000_0000_0000) by (bit_vector);
        d >> 11u64
    }
}

} // verus!
