//! The ChaCha20 stream cipher (96-bit nonce, 32-bit block counter).

use vstd::prelude::*;
use crate::bytes::{le_bytes, le_int, push_le, read_le};

verus! {

/// Rotation to the left.
pub open spec fn rotl(x: u32, n: u32) -> u32 {
    (x << n) | (x >> ((32 - n) as u32))
}

/// Half a quarter round: `a += b`, `d = (d ^ a) <<< n`.
pub open spec fn half_step(s: Seq<u32>, a: int, b: int, d: int, n: u32) -> Seq<u32> {
    let x = s[a].wrapping_add(s[b]);
    s.update(a, x).update(d, rotl(s[d] ^ x, n))
}

/// A quarter round on four words.
pub open spec fn quarter_round(s: Seq<u32>, a: int, b: int, c: int, d: int) -> Seq<u32> {
    half_step(half_step(half_step(half_step(s, a, b, d, 16), c, d, b, 12), a, b, d, 8), c, d, b, 7)
}

/// A round on the columns and one on the diagonals.
pub open spec fn double_round(s: Seq<u32>) -> Seq<u32> {
    let c = quarter_round(
        quarter_round(quarter_round(quarter_round(s, 0, 4, 8, 12), 1, 5, 9, 13), 2, 6, 10, 14),
        3,
        7,
        11,
        15,
    );
    quarter_round(
        quarter_round(quarter_round(quarter_round(c, 0, 5, 10, 15), 1, 6, 11, 12), 2, 7, 8, 13),
        3,
        4,
        9,
        14,
    )
}

/// `n` double rounds.
pub open spec fn double_rounds(s: Seq<u32>, n: nat) -> Seq<u32>
    decreases n,
{
    if n == 0 {
        s
    } else {
        double_round(double_rounds(s, (n - 1) as nat))
    }
}

/// Word `i` of some bytes, least significant byte first.
pub open spec fn le_word(b: Seq<u8>, i: int) -> u32 {
    le_int(b.subrange(4 * i, 4 * i + 4)) as u32
}

/// The state that a block starts from.
pub open spec fn start_state(key: Seq<u8>, counter: u32, nonce: Seq<u8>) -> Seq<u32> {
    Seq::new(
        16,
        |i: int|
            if i == 0 {
                0x6170_7865u32
            } else if i == 1 {
                0x3320_646e
            } else if i == 2 {
                0x7962_2d32
            } else if i == 3 {
                0x6b20_6574
            } else if i < 12 {
                le_word(key, i - 4)
            } else if i == 12 {
                counter
            } else {
                le_word(nonce, i - 13)
            },
    )
}

/// Word `i` of a key-stream block.
pub open spec fn stream_word(key: Seq<u8>, counter: u32, nonce: Seq<u8>, i: int) -> u32 {
    let s = start_state(key, counter, nonce);
    s[i].wrapping_add(double_rounds(s, 10)[i])
}

/// The first `n` words of a key-stream block, as bytes.
pub open spec fn stream_words(key: Seq<u8>, counter: u32, nonce: Seq<u8>, n: nat) -> Seq<u8>
    decreases n,
{
    if n == 0 {
        Seq::empty()
    } else {
        stream_words(key, counter, nonce, (n - 1) as nat) + le_bytes(
            stream_word(key, counter, nonce, n - 1) as nat,
            4,
        )
    }
}

/// Byte `i` of the key stream that starts at a block.
pub open spec fn stream_byte(key: Seq<u8>, nonce: Seq<u8>, counter: u32, i: int) -> u8 {
    stream_words(key, ((counter + i / 64) % 0x1_0000_0000) as u32, nonce, 16)[i % 64]
}

/// Bytes combined with the key stream.
#[verifier::opaque]
pub open spec fn ciphered(key: Seq<u8>, nonce: Seq<u8>, counter: u32, b: Seq<u8>) -> Seq<u8> {
    Seq::new(b.len(), |i: int| b[i] ^ stream_byte(key, nonce, counter, i))
}

proof fn lemma_cipher_byte(key: Seq<u8>, nonce: Seq<u8>, counter: u32, b: Seq<u8>, i: int)
    requires
        0 <= i < b.len(),
    ensures
        ciphered(key, nonce, counter, b).len() == b.len(),
        ciphered(key, nonce, counter, b)[i] == b[i] ^ stream_byte(key, nonce, counter, i),
{
    reveal(ciphered);
}

/// The cipher undoes itself.
pub proof fn lemma_cipher_involution(key: Seq<u8>, nonce: Seq<u8>, counter: u32, b: Seq<u8>)
    ensures
        ciphered(key, nonce, counter, b).len() == b.len(),
        ciphered(key, nonce, counter, ciphered(key, nonce, counter, b)) == b,
{
    reveal(ciphered);
    let c = ciphered(key, nonce, counter, b);
    let d = ciphered(key, nonce, counter, c);
    assert forall|i: int| 0 <= i < b.len() implies d[i] == b[i] by {
        let x = b[i];
        let k = stream_byte(key, nonce, counter, i);
        assert((x ^ k) ^ k == x) by (bit_vector);
    }
    assert(d =~= b);
}

fn rotate_left(x: u32, n: u32) -> (r: u32)
    requires
        0 < n < 32,
    ensures
        r == rotl(x, n),
{
    (x << n) | (x >> (32 - n))
}

fn step(s: &mut Vec<u32>, a: usize, b: usize, d: usize, n: u32)
    requires
        old(s)@.len() == 16,
        a < 16,
        b < 16,
        d < 16,
        a != d,
        0 < n < 32,
    ensures
        final(s)@.len() == 16,
        final(s)@ == half_step(old(s)@, a as int, b as int, d as int, n),
{
    let x: u32 = s[a].wrapping_add(s[b]);
    let y: u32 = rotate_left(s[d] ^ x, n);
    s.set(a, x);
    s.set(d, y);
}

fn quarter(s: &mut Vec<u32>, a: usize, b: usize, c: usize, d: usize)
    requires
        old(s)@.len() == 16,
        a < 16,
        b < 16,
        c < 16,
        d < 16,
        a != d,
        c != b,
    ensures
        final(s)@.len() == 16,
        final(s)@ == quarter_round(old(s)@, a as int, b as int, c as int, d as int),
{
    step(s, a, b, d, 16);
    step(s, c, d, b, 12);
    step(s, a, b, d, 8);
    step(s, c, d, b, 7);
}

proof fn lemma_le_len(v: nat, n: nat)
    ensures
        le_bytes(v, n).len() == n,
    decreases n,
{
    if n > 0 {
        lemma_le_len(v / 256, (n - 1) as nat);
    }
}

proof fn lemma_stream_len(key: Seq<u8>, counter: u32, nonce: Seq<u8>, n: nat)
    ensures
        stream_words(key, counter, nonce, n).len() == 4 * n,
    decreases n,
{
    if n > 0 {
        lemma_stream_len(key, counter, nonce, (n - 1) as nat);
        lemma_le_len(stream_word(key, counter, nonce, n - 1) as nat, 4);
    }
}

fn word_at(b: &[u8], i: usize) -> (r: u32)
    requires
        i < 8,
        4 * i + 4 <= b@.len(),
    ensures
        r == le_word(b@, i as int),
{
    let v: u64 = read_le(b, 4 * i, 4);
    proof {
        crate::bytes::lemma_le_bound(b@.subrange(4 * i as int, 4 * i + 4));
        crate::bytes::lemma_pow256();
    }
    v as u32
}

fn stream_block(key: &[u8; 32], counter: u32, nonce: &[u8; 12]) -> (r: Vec<u8>)
    ensures
        r@ == stream_words(key@, counter, nonce@, 16),
        r@.len() == 64,
{
    let ghost init = start_state(key@, counter, nonce@);
    let mut s: Vec<u32> = vec![0x6170_7865, 0x3320_646e, 0x7962_2d32, 0x6b20_6574];
    assert(s@ =~= init.take(4));
    let mut i: usize = 0;
    while i < 8
        invariant
            i <= 8,
            init == start_state(key@, counter, nonce@),
            s@ == init.take(4 + i),
        decreases 8 - i,
    {
        let w: u32 = word_at(key, i);
        s.push(w);
        i += 1;
        assert(s@ =~= init.take(4 + i));
    }
    s.push(counter);
    assert(s@ =~= init.take(13));
    i = 0;
    while i < 3
        invariant
            i <= 3,
            init == start_state(key@, counter, nonce@),
            s@ == init.take(13 + i),
        decreases 3 - i,
    {
        let w: u32 = word_at(nonce, i);
        s.push(w);
        i += 1;
        assert(s@ =~= init.take(13 + i));
    }
    assert(init.take(16) =~= init);
    let mut w: Vec<u32> = Vec::new();
    i = 0;
    while i < 16
        invariant
            i <= 16,
            s@.len() == 16,
            w@ == s@.take(i as int),
        decreases 16 - i,
    {
        w.push(s[i]);
        i += 1;
        assert(w@ =~= s@.take(i as int));
    }
    assert(s@.take(16) =~= s@);
    i = 0;
    while i < 10
        invariant
            i <= 10,
            w@.len() == 16,
            w@ == double_rounds(s@, i as nat),
        decreases 10 - i,
    {
        quarter(&mut w, 0, 4, 8, 12);
        quarter(&mut w, 1, 5, 9, 13);
        quarter(&mut w, 2, 6, 10, 14);
        quarter(&mut w, 3, 7, 11, 15);
        quarter(&mut w, 0, 5, 10, 15);
        quarter(&mut w, 1, 6, 11, 12);
        quarter(&mut w, 2, 7, 8, 13);
        quarter(&mut w, 3, 4, 9, 14);
        i += 1;
    }
    let mut out: Vec<u8> = Vec::new();
    i = 0;
    while i < 16
        invariant
            i <= 16,
            s@ == start_state(key@, counter, nonce@),
            s@.len() == 16,
            w@.len() == 16,
            w@ == double_rounds(s@, 10),
            out@ == stream_words(key@, counter, nonce@, i as nat),
        decreases 16 - i,
    {
        push_le(&mut out, s[i].wrapping_add(w[i]) as u64, 4);
        i += 1;
    }
    proof {
        lemma_stream_len(key@, counter, nonce@, 16);
    }
    out
}

/// Combines bytes with the key stream that starts at a block.
pub fn chacha20_xor(key: &[u8; 32], nonce: &[u8; 12], counter: u32, data: &[u8]) -> (r: Vec<u8>)
    ensures
        r@ == ciphered(key@, nonce@, counter, data@),
{
    let ghost want = ciphered(key@, nonce@, counter, data@);
    let mut out: Vec<u8> = Vec::new();
    let mut at: u32 = counter;
    let mut block: Vec<u8> = Vec::new();
    let mut i: usize = 0;
    while i < data.len()
        invariant
            i <= data@.len(),
            want == ciphered(key@, nonce@, counter, data@),
            out@ == want.take(i as int),
            at == (counter + (i + 63) / 64) % 0x1_0000_0000,
            i % 64 != 0 ==> block@ == stream_words(
                key@,
                ((counter + i as int / 64) % 0x1_0000_0000) as u32,
                nonce@,
                16,
            ) && block@.len() == 64,
        decreases data.len() - i,
    {
        if i % 64 == 0 {
            block = stream_block(key, at, nonce);
            at = at.wrapping_add(1);
        }
        out.push(data[i] ^ block[i % 64]);
        proof {
            lemma_cipher_byte(key@, nonce@, counter, data@, i as int);
            assert(want.take(i + 1) =~= want.take(i as int).push(want[i as int]));
        }
        i += 1;
    }
    assert(want.take(want.len() as int) =~= want) by {
        reveal(ciphered);
    }
    assert(want.len() == data@.len()) by {
        reveal(ciphered);
    }
    out
}

} // verus!
