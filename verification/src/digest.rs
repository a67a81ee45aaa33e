//! Checksums and digests: CRC-32C, SHA-256 and HMAC-SHA-256.

use vstd::prelude::*;
use crate::bytes::{be_bytes, be_int, pow256, push_all, push_be, read_be, slice_of};

verus! {

/// One bit of a CRC-32C step (the reflected Castagnoli polynomial).
pub open spec fn crc_bit(c: u32) -> u32 {
    if c % 2 == 1 {
        (c >> 1) ^ 0x82F6_3B78
    } else {
        c >> 1
    }
}

/// `n` bits of a CRC-32C step.
pub open spec fn crc_bits(c: u32, n: nat) -> u32
    decreases n,
{
    if n == 0 {
        c
    } else {
        crc_bit(crc_bits(c, (n - 1) as nat))
    }
}

/// The running CRC-32C after some bytes.
pub open spec fn crc_run(b: Seq<u8>) -> u32
    decreases b.len(),
{
    if b.len() == 0 {
        0xFFFF_FFFF
    } else {
        crc_bits(crc_run(b.drop_last()) ^ (b.last() as u32), 8)
    }
}

/// The CRC-32C of some bytes.
pub open spec fn crc_of(b: Seq<u8>) -> u32 {
    crc_run(b) ^ 0xFFFF_FFFF
}

/// The CRC-32C of some bytes.
pub fn crc32c(b: &[u8]) -> (r: u32)
    ensures
        r == crc_of(b@),
{
    let mut c: u32 = 0xFFFF_FFFF;
    let mut i: usize = 0;
    while i < b.len()
        invariant
            i <= b@.len(),
            c == crc_run(b@.take(i as int)),
        decreases b.len() - i,
    {
        let start: u32 = c ^ (b[i] as u32);
        c = start;
        let mut k: u32 = 0;
        while k < 8
            invariant
                k <= 8,
                c == crc_bits(start, k as nat),
            decreases 8 - k,
        {
            c = if c % 2 == 1 { (c >> 1u32) ^ 0x82F6_3B78 } else { c >> 1u32 };
            k += 1;
        }
        i += 1;
        assert(b@.take(i as int).drop_last() =~= b@.take(i - 1));
    }
    assert(b@.take(b@.len() as int) =~= b@);
    c ^ 0xFFFF_FFFF
}

/// The round constants of SHA-256.
pub const ROUND_CONSTANTS: [u32; 64] = [
    0x428a2f98, 0x71374491, 0xb5c0fbcf, 0xe9b5dba5, 0x3956c25b, 0x59f111f1,
    0x923f82a4, 0xab1c5ed5, 0xd807aa98, 0x12835b01, 0x243185be, 0x550c7dc3,
    0x72be5d74, 0x80deb1fe, 0x9bdc06a7, 0xc19bf174, 0xe49b69c1, 0xefbe4786,
    0x0fc19dc6, 0x240ca1cc, 0x2de92c6f, 0x4a7484aa, 0x5cb0a9dc, 0x76f988da,
    0x983e5152, 0xa831c66d, 0xb00327c8, 0xbf597fc7, 0xc6e00bf3, 0xd5a79147,
    0x06ca6351, 0x14292967, 0x27b70a85, 0x2e1b2138, 0x4d2c6dfc, 0x53380d13,
    0x650a7354, 0x766a0abb, 0x81c2c92e, 0x92722c85, 0xa2bfe8a1, 0xa81a664b,
    0xc24b8b70, 0xc76c51a3, 0xd192e819, 0xd6990624, 0xf40e3585, 0x106aa070,
    0x19a4c116, 0x1e376c08, 0x2748774c, 0x34b0bcb5, 0x391c0cb3, 0x4ed8aa4a,
    0x5b9cca4f, 0x682e6ff3, 0x748f82ee, 0x78a5636f, 0x84c87814, 0x8cc70208,
    0x90befffa, 0xa4506ceb, 0xbef9a3f7, 0xc67178f2,
];

/// Rotation to the right.
pub open spec fn rotr(x: u32, n: u32) -> u32 {
    (x >> n) | (x << ((32 - n) as u32))
}

pub open spec fn small_sigma0(x: u32) -> u32 {
    rotr(x, 7) ^ rotr(x, 18) ^ (x >> 3)
}

pub open spec fn small_sigma1(x: u32) -> u32 {
    rotr(x, 17) ^ rotr(x, 19) ^ (x >> 10)
}

pub open spec fn big_sigma0(x: u32) -> u32 {
    rotr(x, 2) ^ rotr(x, 13) ^ rotr(x, 22)
}

pub open spec fn big_sigma1(x: u32) -> u32 {
    rotr(x, 6) ^ rotr(x, 11) ^ rotr(x, 25)
}

/// Word `t` of the message schedule of a block.
pub open spec fn schedule(block: Seq<u8>, t: nat) -> u32
    decreases t,
{
    if t < 16 {
        be_int(block.subrange(4 * (t as int), 4 * (t as int) + 4)) as u32
    } else {
        small_sigma1(schedule(block, (t - 2) as nat)).wrapping_add(
            schedule(block, (t - 7) as nat),
        ).wrapping_add(small_sigma0(schedule(block, (t - 15) as nat))).wrapping_add(
            schedule(block, (t - 16) as nat),
        )
    }
}

/// One round on the eight working words.
pub open spec fn sha_round(s: Seq<u32>, k: u32, w: u32) -> Seq<u32> {
    let ch = (s[4] & s[5]) ^ (!s[4] & s[6]);
    let maj = (s[0] & s[1]) ^ (s[0] & s[2]) ^ (s[1] & s[2]);
    let t1 = s[7].wrapping_add(big_sigma1(s[4])).wrapping_add(ch).wrapping_add(k).wrapping_add(w);
    let t2 = big_sigma0(s[0]).wrapping_add(maj);
    seq![t1.wrapping_add(t2), s[0], s[1], s[2], s[3].wrapping_add(t1), s[4], s[5], s[6]]
}

/// The working words after `t` rounds.
pub open spec fn sha_rounds(h: Seq<u32>, block: Seq<u8>, t: nat) -> Seq<u32>
    decreases t,
{
    if t == 0 {
        h
    } else {
        sha_round(
            sha_rounds(h, block, (t - 1) as nat),
            ROUND_CONSTANTS@[t - 1],
            schedule(block, (t - 1) as nat),
        )
    }
}

/// The hash value after one block more.
pub open spec fn sha_block(h: Seq<u32>, block: Seq<u8>) -> Seq<u32> {
    let s = sha_rounds(h, block, 64);
    Seq::new(8, |i: int| h[i].wrapping_add(s[i]))
}

/// The initial hash value.
pub open spec fn sha_init() -> Seq<u32> {
    seq![
        0x6a09e667u32,
        0xbb67ae85u32,
        0x3c6ef372u32,
        0xa54ff53au32,
        0x510e527fu32,
        0x9b05688cu32,
        0x1f83d9abu32,
        0x5be0cd19u32,
    ]
}

/// The hash value after the first `n` blocks of a padded message.
pub open spec fn sha_blocks(m: Seq<u8>, n: nat) -> Seq<u32>
    decreases n,
{
    if n == 0 {
        sha_init()
    } else {
        sha_block(
            sha_blocks(m, (n - 1) as nat),
            m.subrange(64 * (n - 1), 64 * (n - 1) + 64),
        )
    }
}

/// How many zero bytes the padding of a message of this length has.
pub open spec fn pad_zeros(len: nat) -> nat {
    ((119 - len % 64) % 64) as nat
}

/// The padded message: a one bit, zeros, and the length in bits.
pub open spec fn sha_padded(m: Seq<u8>) -> Seq<u8> {
    m.push(0x80) + Seq::new(pad_zeros(m.len()), |i: int| 0u8) + be_bytes(8 * m.len(), 8)
}

/// Words as bytes, most significant first.
pub open spec fn word_bytes(h: Seq<u32>) -> Seq<u8>
    decreases h.len(),
{
    if h.len() == 0 {
        Seq::empty()
    } else {
        word_bytes(h.drop_last()) + be_bytes(h.last() as nat, 4)
    }
}

/// The SHA-256 digest of a message.
pub open spec fn sha_of(m: Seq<u8>) -> Seq<u8> {
    let p = sha_padded(m);
    word_bytes(sha_blocks(p, p.len() / 64))
}

fn rotate(x: u32, n: u32) -> (r: u32)
    requires
        0 < n < 32,
    ensures
        r == rotr(x, n),
{
    (x >> n) | (x << (32 - n))
}

proof fn lemma_be_len(v: nat, n: nat)
    ensures
        be_bytes(v, n).len() == n,
    decreases n,
{
    if n > 0 {
        lemma_be_len(v / 256, (n - 1) as nat);
    }
}

/// The low bytes of a number do not depend on what is above them.
proof fn lemma_low_bytes(v: nat, n: nat)
    ensures
        be_bytes(v, n) == be_bytes(v % pow256(n), n),
    decreases n,
{
    if n > 0 {
        let p = pow256((n - 1) as nat) as int;
        let x = v as int;
        crate::bytes::lemma_pow256_grows((n - 1) as nat, (n - 1) as nat);
        lemma_low_bytes(v / 256, (n - 1) as nat);
        assert((x % (256 * p)) / 256 == (x / 256) % p && (x % (256 * p)) % 256 == x % 256) by {
            vstd::arithmetic::div_mod::lemma_mod_breakdown(x, 256, p);
            vstd::arithmetic::div_mod::lemma_fundamental_div_mod(x, 256);
            let q = (x / 256) % p;
            assert(x % (256 * p) == 256 * q + x % 256);
        }
    }
}

proof fn lemma_word_len(h: Seq<u32>)
    ensures
        word_bytes(h).len() == 4 * h.len(),
    decreases h.len(),
{
    if h.len() > 0 {
        lemma_word_len(h.drop_last());
        lemma_be_len(h.last() as nat, 4);
    }
}

fn compress(h: &Vec<u32>, p: &Vec<u8>, at: usize) -> (r: Vec<u32>)
    requires
        h@.len() == 8,
        at + 64 <= p@.len(),
    ensures
        r@ == sha_block(h@, p@.subrange(at as int, at + 64)),
        r@.len() == 8,
{
    let ghost block = p@.subrange(at as int, at + 64);
    let mut w: Vec<u32> = Vec::new();
    let len: usize = p.len();
    while w.len() < 16
        invariant
            w@.len() <= 16,
            len == p@.len(),
            at + 64 <= len,
            block == p@.subrange(at as int, at + 64),
            forall|j: int| 0 <= j < w@.len() ==> #[trigger] w@[j] == schedule(block, j as nat),
        decreases 16 - w@.len(),
    {
        let t: usize = w.len();
        let x: u64 = read_be(p.as_slice(), at + 4 * t, 4);
        proof {
            assert(p@.subrange(at + 4 * t, at + 4 * t + 4) =~= block.subrange(
                4 * (t as int),
                4 * (t as int) + 4,
            ));
            crate::bytes::lemma_be_bound(p@.subrange(at + 4 * t, at + 4 * t + 4));
            crate::bytes::lemma_pow256();
        }
        w.push(x as u32);
    }
    while w.len() < 64
        invariant
            16 <= w@.len() <= 64,
            forall|j: int| 0 <= j < w@.len() ==> #[trigger] w@[j] == schedule(block, j as nat),
        decreases 64 - w@.len(),
    {
        let t: usize = w.len();
        let a: u32 = w[t - 2];
        let b: u32 = w[t - 15];
        let s1: u32 = rotate(a, 17) ^ rotate(a, 19) ^ (a >> 10u32);
        let s0: u32 = rotate(b, 7) ^ rotate(b, 18) ^ (b >> 3u32);
        let x: u32 = s1.wrapping_add(w[t - 7]).wrapping_add(s0).wrapping_add(w[t - 16]);
        w.push(x);
    }
    let mut s: Vec<u32> = Vec::new();
    let mut i: usize = 0;
    while i < 8
        invariant
            i <= 8,
            h@.len() == 8,
            s@ == h@.take(i as int),
        decreases 8 - i,
    {
        s.push(h[i]);
        i += 1;
        assert(s@ =~= h@.take(i as int));
    }
    assert(h@.take(8) =~= h@);
    let mut t: usize = 0;
    while t < 64
        invariant
            t <= 64,
            w@.len() == 64,
            forall|j: int| 0 <= j < 64 ==> #[trigger] w@[j] == schedule(block, j as nat),
            s@ == sha_rounds(h@, block, t as nat),
            s@.len() == 8,
        decreases 64 - t,
    {
        let e: u32 = s[4];
        let a: u32 = s[0];
        let b1: u32 = rotate(e, 6) ^ rotate(e, 11) ^ rotate(e, 25);
        let ch: u32 = (e & s[5]) ^ (!e & s[6]);
        let t1: u32 = s[7].wrapping_add(b1).wrapping_add(ch).wrapping_add(
            ROUND_CONSTANTS[t],
        ).wrapping_add(w[t]);
        let b0: u32 = rotate(a, 2) ^ rotate(a, 13) ^ rotate(a, 22);
        let maj: u32 = (a & s[1]) ^ (a & s[2]) ^ (s[1] & s[2]);
        let t2: u32 = b0.wrapping_add(maj);
        let next = vec![
            t1.wrapping_add(t2),
            a,
            s[1],
            s[2],
            s[3].wrapping_add(t1),
            e,
            s[5],
            s[6],
        ];
        assert(next@ =~= sha_round(s@, ROUND_CONSTANTS@[t as int], w@[t as int]));
        s = next;
        t += 1;
    }
    let mut out: Vec<u32> = Vec::new();
    i = 0;
    let ghost want = sha_block(h@, block);
    while i < 8
        invariant
            i <= 8,
            h@.len() == 8,
            s@.len() == 8,
            s@ == sha_rounds(h@, block, 64),
            want == sha_block(h@, block),
            out@ == want.take(i as int),
        decreases 8 - i,
    {
        out.push(h[i].wrapping_add(s[i]));
        i += 1;
        assert(out@ =~= want.take(i as int));
    }
    assert(want.take(8) =~= want);
    out
}

proof fn lemma_whole_blocks(n: nat)
    ensures
        (n + 9 + (119 - n % 64) % 64) % 64 == 0,
{
}

/// The SHA-256 digest of a message.
pub fn sha256(m: &[u8]) -> (r: [u8; 32])
    ensures
        r@ == sha_of(m@),
{
    let mut p: Vec<u8> = slice_of(m, 0, m.len());
    assert(p@ =~= m@);
    let bits: u64 = (m.len() as u64).wrapping_mul(8);
    p.push(0x80);
    let zeros: usize = (119 - m.len() % 64) % 64;
    let ghost base = p@;
    let mut i: usize = 0;
    assert(p@ =~= base + Seq::new(0, |i: int| 0u8));
    while i < zeros
        invariant
            i <= zeros,
            p@ == base + Seq::new(i as nat, |i: int| 0u8),
        decreases zeros - i,
    {
        p.push(0);
        i += 1;
        assert(p@ =~= base + Seq::new(i as nat, |i: int| 0u8));
    }
    push_be(&mut p, bits, 8);
    proof {
        lemma_low_bytes(8 * m@.len(), 8);
        crate::bytes::lemma_pow256();
    }
    assert(p@ =~= sha_padded(m@));
    proof {
        lemma_be_len(bits as nat, 8);
        lemma_whole_blocks(m@.len());
        assert(p@.len() == m@.len() + 9 + zeros);
    }
    let init: [u32; 8] = [0x6a09e667, 0xbb67ae85, 0x3c6ef372, 0xa54ff53a, 0x510e527f, 0x9b05688c, 0x1f83d9ab, 0x5be0cd19];
    let mut h: Vec<u32> = Vec::new();
    i = 0;
    while i < 8
        invariant
            i <= 8,
            h@ == init@.take(i as int),
        decreases 8 - i,
    {
        h.push(init[i]);
        i += 1;
        assert(h@ =~= init@.take(i as int));
    }
    assert(h@ =~= sha_init());
    let blocks: usize = p.len() / 64;
    let len: usize = p.len();
    i = 0;
    while i < blocks
        invariant
            i <= blocks,
            len == p@.len(),
            64 * blocks <= len,
            h@ == sha_blocks(p@, i as nat),
            h@.len() == 8,
        decreases blocks - i,
    {
        h = compress(&h, &p, 64 * i);
        i += 1;
    }
    let mut bytes: Vec<u8> = Vec::new();
    i = 0;
    while i < 8
        invariant
            i <= 8,
            h@.len() == 8,
            bytes@ == word_bytes(h@.take(i as int)),
        decreases 8 - i,
    {
        push_be(&mut bytes, h[i] as u64, 4);
        i += 1;
        assert(h@.take(i as int).drop_last() =~= h@.take(i - 1));
    }
    assert(h@.take(8) =~= h@);
    proof {
        lemma_word_len(h@);
    }
    let mut out: [u8; 32] = [0u8; 32];
    i = 0;
    while i < 32
        invariant
            i <= 32,
            bytes@.len() == 32,
            forall|j: int| 0 <= j < i ==> out@[j] == bytes@[j],
        decreases 32 - i,
    {
        out[i] = bytes[i];
        i += 1;
    }
    assert(out@ =~= bytes@);
    out
}

/// A digest has 32 bytes.
pub proof fn lemma_sha_len(m: Seq<u8>)
    ensures
        sha_of(m).len() == 32,
{
    let p = sha_padded(m);
    lemma_blocks_len(p, p.len() / 64);
    lemma_word_len(sha_blocks(p, p.len() / 64));
}

proof fn lemma_blocks_len(m: Seq<u8>, n: nat)
    ensures
        sha_blocks(m, n).len() == 8,
{
}

/// The key of a MAC as one block of 64 bytes.
pub open spec fn key_block(key: Seq<u8>) -> Seq<u8> {
    let k = if key.len() > 64 {
        sha_of(key)
    } else {
        key
    };
    k + Seq::new((64 - k.len()) as nat, |i: int| 0u8)
}

/// Every byte combined with one byte.
pub open spec fn masked(b: Seq<u8>, x: u8) -> Seq<u8> {
    Seq::new(b.len(), |i: int| b[i] ^ x)
}

/// The HMAC-SHA-256 of a message.
#[verifier::opaque]
pub open spec fn hmac_of(key: Seq<u8>, m: Seq<u8>) -> Seq<u8> {
    let k = key_block(key);
    sha_of(masked(k, 0x5c) + sha_of(masked(k, 0x36) + m))
}

/// A MAC has 32 bytes.
pub proof fn lemma_mac_len(key: Seq<u8>, m: Seq<u8>)
    ensures
        hmac_of(key, m).len() == 32,
{
    reveal(hmac_of);
    let k = key_block(key);
    lemma_sha_len(masked(k, 0x5c) + sha_of(masked(k, 0x36) + m));
}

/// The HMAC-SHA-256 of a message.
pub fn hmac_sha256(key: &[u8], m: &[u8]) -> (r: [u8; 32])
    ensures
        r@ == hmac_of(key@, m@),
{
    reveal(hmac_of);
    if key.len() > 64 {
        let d = sha256(key);
        proof {
            lemma_sha_len(key@);
        }
        return mac(&d, m);
    }
    mac(key, m)
}

fn mac(key: &[u8], m: &[u8]) -> (r: [u8; 32])
    requires
        key@.len() <= 64,
    ensures
        r@ == hmac_of(key@, m@),
{
    reveal(hmac_of);
    let mut inner: Vec<u8> = Vec::new();
    let mut outer: Vec<u8> = Vec::new();
    let ghost k = key_block(key@);
    let mut i: usize = 0;
    while i < 64
        invariant
            i <= 64,
            k == key_block(key@),
            k.len() == 64,
            key@.len() <= 64,
            inner@ == masked(k, 0x36).take(i as int),
            outer@ == masked(k, 0x5c).take(i as int),
        decreases 64 - i,
    {
        let b: u8 = if i < key.len() { key[i] } else { 0 };
        assert(b == k[i as int]);
        inner.push(b ^ 0x36);
        outer.push(b ^ 0x5c);
        i += 1;
        assert(inner@ =~= masked(k, 0x36).take(i as int));
        assert(outer@ =~= masked(k, 0x5c).take(i as int));
    }
    assert(masked(k, 0x36).take(64) =~= masked(k, 0x36));
    assert(masked(k, 0x5c).take(64) =~= masked(k, 0x5c));
    push_all(&mut inner, m);
    let d = sha256(inner.as_slice());
    push_all(&mut outer, &d);
    sha256(outer.as_slice())
}

} // verus!
