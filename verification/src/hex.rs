//! Bytes as lower-case hexadecimal text.

use vstd::prelude::*;
use crate::text::chars_of;

verus! {

/// The character of a hexadecimal digit.
pub open spec fn hex_digit(d: int) -> char {
    if d < 10 {
        (48 + d) as char
    } else {
        (87 + d) as char
    }
}

/// Two digits per byte, the high one first.
pub open spec fn hex_text(b: Seq<u8>) -> Seq<char> {
    Seq::new(
        2 * b.len(),
        |i: int|
            hex_digit(
                if i % 2 == 0 {
                    b[i / 2] as int / 16
                } else {
                    b[i / 2] as int % 16
                },
            ),
    )
}

pub fn digit_char(d: u8) -> (r: char)
    requires
        d < 16,
    ensures
        r == hex_digit(d as int),
{
    let c: u8 = if d < 10 { 48 + d } else { 87 + d };
    c as char
}

/// The hexadecimal text of some bytes.
pub fn hex(b: &[u8]) -> (r: String)
    ensures
        r@ == hex_text(b@),
{
    let mut out = String::new();
    let ghost want = hex_text(b@);
    let mut i: usize = 0;
    assert(out@ =~= want.take(0));
    while i < b.len()
        invariant
            i <= b@.len(),
            want == hex_text(b@),
            out@ == want.take(2 * i),
        decreases b.len() - i,
    {
        out.push(digit_char(b[i] / 16));
        out.push(digit_char(b[i] % 16));
        assert((2 * i) / 2 == i && (2 * i) % 2 == 0);
        assert((2 * i + 1) / 2 == i && (2 * i + 1) % 2 == 1);
        assert(want.take(2 * i + 2) =~= want.take(2 * i).push(want[2 * i]).push(want[2 * i + 1]));
        i += 1;
    }
    assert(want.take(want.len() as int) =~= want);
    out
}

/// The value of a hexadecimal digit, in either case.
pub open spec fn hex_value(c: char) -> Option<int> {
    if '0' <= c && c <= '9' {
        Some(c as int - 48)
    } else if 'a' <= c && c <= 'f' {
        Some(c as int - 87)
    } else if 'A' <= c && c <= 'F' {
        Some(c as int - 55)
    } else {
        None
    }
}

pub fn hexval(c: char) -> (r: Option<u8>)
    ensures
        match r {
            Some(d) => d < 16 && hex_value(c) == Some(d as int),
            None => hex_value(c) is None,
        },
{
    if '0' <= c && c <= '9' {
        Some((c as u32 - 48) as u8)
    } else if 'a' <= c && c <= 'f' {
        Some((c as u32 - 87) as u8)
    } else if 'A' <= c && c <= 'F' {
        Some((c as u32 - 55) as u8)
    } else {
        None
    }
}

/// The bytes that hexadecimal text stands for.
pub open spec fn unhex_of(s: Seq<char>) -> Option<Seq<u8>>
    decreases s.len(),
{
    if s.len() == 0 {
        Some(Seq::empty())
    } else if s.len() == 1 {
        None
    } else {
        let n = s.len() as int;
        match (unhex_of(s.take(n - 2)), hex_value(s[n - 2]), hex_value(s[n - 1])) {
            (Some(b), Some(h), Some(l)) => Some(b.push((h * 16 + l) as u8)),
            _ => None,
        }
    }
}

proof fn lemma_unhex_prefix(s: Seq<char>, n: int)
    requires
        0 <= n <= s.len(),
        n % 2 == 0,
        s.len() % 2 == 0,
        unhex_of(s.take(n)) is None,
    ensures
        unhex_of(s) is None,
    decreases s.len(),
{
    if n < s.len() {
        assert(s.take(s.len() - 2).take(n) =~= s.take(n));
        lemma_unhex_prefix(s.take(s.len() - 2), n);
    } else {
        assert(s.take(n) =~= s);
    }
}

proof fn lemma_unhex_odd(s: Seq<char>)
    requires
        s.len() % 2 == 1,
    ensures
        unhex_of(s) is None,
    decreases s.len(),
{
    if s.len() > 1 {
        lemma_unhex_odd(s.take(s.len() - 2));
    }
}

/// Reads hexadecimal text.
pub fn unhex(s: &str) -> (r: Option<Vec<u8>>)
    ensures
        match r {
            Some(b) => unhex_of(s@) == Some(b@),
            None => unhex_of(s@) is None,
        },
{
    let c = chars_of(s);
    if c.len() % 2 != 0 {
        proof {
            lemma_unhex_odd(s@);
        }
        return None;
    }
    let mut out: Vec<u8> = Vec::new();
    let mut i: usize = 0;
    while i < c.len()
        invariant
            c@ == s@,
            i <= c@.len(),
            i % 2 == 0,
            c@.len() % 2 == 0,
            unhex_of(s@.take(i as int)) == Some(out@),
        decreases c.len() - i,
    {
        proof {
            assert(s@.take(i + 2).take(i as int) =~= s@.take(i as int));
        }
        match (hexval(c[i]), hexval(c[i + 1])) {
            (Some(h), Some(l)) => {
                out.push(h * 16 + l);
            },
            _ => {
                proof {
                    lemma_unhex_prefix(s@, i + 2);
                }
                return None;
            },
        }
        i += 2;
    }
    assert(s@.take(s@.len() as int) =~= s@);
    Some(out)
}

/// Hexadecimal text gives its bytes back.
pub proof fn lemma_hex_round_trip(b: Seq<u8>)
    ensures
        unhex_of(hex_text(b)) == Some(b),
    decreases b.len(),
{
    let t = hex_text(b);
    if b.len() > 0 {
        let n = t.len() as int;
        let d = b.drop_last();
        lemma_hex_round_trip(d);
        assert(t.take(n - 2) =~= hex_text(d));
        assert(n == 2 * b.len());
        assert((n - 2) / 2 == b.len() - 1 && (n - 2) % 2 == 0);
        assert((n - 1) / 2 == b.len() - 1 && (n - 1) % 2 == 1);
        let x = b.last() as int;
        assert(t[n - 2] == hex_digit(x / 16));
        assert(t[n - 1] == hex_digit(x % 16));
        assert(hex_value(t[n - 2]) == Some(x / 16));
        assert(hex_value(t[n - 1]) == Some(x % 16));
        assert(d.push(b.last()) =~= b);
    } else {
        assert(b =~= Seq::<u8>::empty());
    }
}

/// Text that stands for bytes digit by digit is read as these bytes.
pub proof fn lemma_unhex_digits(s: Seq<char>, b: Seq<u8>)
    requires
        s.len() == 2 * b.len(),
        forall|j: int| 0 <= j < b.len() ==> hex_value(s[2 * j]) == Some(#[trigger] b[j] as int / 16),
        forall|j: int|
            0 <= j < b.len() ==> hex_value(s[2 * j + 1]) == Some(#[trigger] b[j] as int % 16),
    ensures
        unhex_of(s) == Some(b),
    decreases b.len(),
{
    if b.len() == 0 {
        assert(b =~= Seq::empty());
    } else {
        let n = s.len() as int;
        let k = b.len() - 1;
        let front = b.drop_last();
        assert forall|j: int| 0 <= j < front.len() implies hex_value(s.take(n - 2)[2 * j]) == Some(
            #[trigger] front[j] as int / 16,
        ) && hex_value(s.take(n - 2)[2 * j + 1]) == Some(front[j] as int % 16) by {
            assert(front[j] == b[j]);
        }
        lemma_unhex_digits(s.take(n - 2), front);
        assert(b[k] as int == (b[k] as int / 16) * 16 + b[k] as int % 16);
        assert(s[n - 2] == s[2 * k] && s[n - 1] == s[2 * k + 1]);
        assert(front.push(b[k]) =~= b);
    }
}

/// Where one digit of a text of bytes is replaced by a digit of another value, it
/// stands for other bytes.
pub proof fn lemma_digit_replaced(b: Seq<u8>, i: int, c: char) -> (r: Seq<u8>)
    requires
        0 <= i < hex_text(b).len(),
        hex_value(c) is Some,
        hex_value(c) != hex_value(hex_text(b)[i]),
    ensures
        unhex_of(hex_text(b).update(i, c)) == Some(r),
        r != b,
{
    let d = hex_value(c)->0;
    let k = i / 2;
    let (h, l) = (b[k] as int / 16, b[k] as int % 16);
    let v = if i % 2 == 0 {
        (d * 16 + l) as u8
    } else {
        (h * 16 + d) as u8
    };
    let r = b.update(k, v);
    let s = hex_text(b).update(i, c);
    assert(0 <= d < 16);
    assert(v as int == if i % 2 == 0 {
        d * 16 + l
    } else {
        h * 16 + d
    });
    assert forall|j: int| 0 <= j < r.len() implies hex_value(s[2 * j]) == Some(
        #[trigger] r[j] as int / 16,
    ) && hex_value(s[2 * j + 1]) == Some(r[j] as int % 16) by {
        assert((2 * j) / 2 == j && (2 * j) % 2 == 0);
        assert((2 * j + 1) / 2 == j && (2 * j + 1) % 2 == 1);
        assert(hex_value(hex_digit(b[j] as int / 16)) == Some(b[j] as int / 16));
        assert(hex_value(hex_digit(b[j] as int % 16)) == Some(b[j] as int % 16));
    }
    lemma_unhex_digits(s, r);
    assert(hex_value(hex_digit(h)) == Some(h));
    assert(hex_value(hex_digit(l)) == Some(l));
    assert(v != b[k]);
    assert(r[k] != b[k]);
    r
}

} // verus!
