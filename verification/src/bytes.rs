//! Fixed-width integers as byte strings, most or least significant byte first.

use vstd::prelude::*;

verus! {

/// 256 to the power `n`.
pub open spec fn pow256(n: nat) -> nat
    decreases n,
{
    if n == 0 {
        1
    } else {
        256 * pow256((n - 1) as nat)
    }
}

/// The `n` low bytes of `v`, most significant first.
pub open spec fn be_bytes(v: nat, n: nat) -> Seq<u8>
    decreases n,
{
    if n == 0 {
        Seq::empty()
    } else {
        be_bytes(v / 256, (n - 1) as nat).push((v % 256) as u8)
    }
}

/// The number that a byte string stands for, most significant byte first.
pub open spec fn be_int(b: Seq<u8>) -> nat
    decreases b.len(),
{
    if b.len() == 0 {
        0
    } else {
        be_int(b.drop_last()) * 256 + b.last() as nat
    }
}

/// The `n` low bytes of `v`, least significant first.
pub open spec fn le_bytes(v: nat, n: nat) -> Seq<u8>
    decreases n,
{
    if n == 0 {
        Seq::empty()
    } else {
        seq![(v % 256) as u8] + le_bytes(v / 256, (n - 1) as nat)
    }
}

/// The number that a byte string stands for, least significant byte first.
pub open spec fn le_int(b: Seq<u8>) -> nat
    decreases b.len(),
{
    if b.len() == 0 {
        0
    } else {
        b[0] as nat + 256 * le_int(b.skip(1))
    }
}

/// A number that fits comes back from its big-endian bytes.
pub proof fn lemma_be_round_trip(v: nat, n: nat)
    requires
        v < pow256(n),
    ensures
        be_bytes(v, n).len() == n,
        be_int(be_bytes(v, n)) == v,
    decreases n,
{
    if n > 0 {
        lemma_be_round_trip(v / 256, (n - 1) as nat);
        assert(be_bytes(v, n).drop_last() =~= be_bytes(v / 256, (n - 1) as nat));
    }
}

/// A number that fits comes back from its little-endian bytes.
pub proof fn lemma_le_round_trip(v: nat, n: nat)
    requires
        v < pow256(n),
    ensures
        le_bytes(v, n).len() == n,
        le_int(le_bytes(v, n)) == v,
    decreases n,
{
    if n > 0 {
        lemma_le_round_trip(v / 256, (n - 1) as nat);
        assert(le_bytes(v, n).skip(1) =~= le_bytes(v / 256, (n - 1) as nat));
    }
}

/// The powers that the machine integers need.
pub proof fn lemma_pow256()
    ensures
        pow256(0) == 1,
        pow256(1) == 0x100,
        pow256(2) == 0x1_0000,
        pow256(3) == 0x100_0000,
        pow256(4) == 0x1_0000_0000,
        pow256(8) == 0x1_0000_0000_0000_0000,
{
    assert(pow256(1) == 256 * pow256(0));
    assert(pow256(2) == 256 * pow256(1));
    assert(pow256(3) == 256 * pow256(2));
    assert(pow256(4) == 256 * pow256(3));
    assert(pow256(5) == 256 * pow256(4));
    assert(pow256(6) == 256 * pow256(5));
    assert(pow256(7) == 256 * pow256(6));
    assert(pow256(8) == 256 * pow256(7));
}

/// More bytes hold more.
pub proof fn lemma_pow256_grows(a: nat, b: nat)
    requires
        a <= b,
    ensures
        pow256(a) <= pow256(b),
        pow256(a) > 0,
    decreases b,
{
    if a < b {
        lemma_pow256_grows(a, (b - 1) as nat);
    } else if a > 0 {
        lemma_pow256_grows((a - 1) as nat, (b - 1) as nat);
    }
}

/// The number of a byte string is below the power of its length.
pub proof fn lemma_be_bound(b: Seq<u8>)
    ensures
        be_int(b) < pow256(b.len()),
    decreases b.len(),
{
    if b.len() > 0 {
        lemma_be_bound(b.drop_last());
    }
}

/// The number of a byte string is below the power of its length.
pub proof fn lemma_le_bound(b: Seq<u8>)
    ensures
        le_int(b) < pow256(b.len()),
    decreases b.len(),
{
    if b.len() > 0 {
        lemma_le_bound(b.skip(1));
    }
}

/// Appends the `n` low bytes of `v`, most significant first.
pub fn push_be(out: &mut Vec<u8>, v: u64, n: u8)
    ensures
        final(out)@ == old(out)@ + be_bytes(v as nat, n as nat),
    decreases n,
{
    if n > 0 {
        push_be(out, v / 256, n - 1);
        out.push((v % 256) as u8);
        assert(out@ =~= old(out)@ + be_bytes(v as nat, n as nat));
    } else {
        assert(out@ =~= old(out)@ + be_bytes(v as nat, 0));
    }
}

/// Appends the `n` low bytes of `v`, least significant first.
pub fn push_le(out: &mut Vec<u8>, v: u64, n: u8)
    ensures
        final(out)@ == old(out)@ + le_bytes(v as nat, n as nat),
    decreases n,
{
    if n > 0 {
        out.push((v % 256) as u8);
        let ghost mid = out@;
        push_le(out, v / 256, n - 1);
        assert(out@ =~= old(out)@ + le_bytes(v as nat, n as nat));
    } else {
        assert(out@ =~= old(out)@ + le_bytes(v as nat, 0));
    }
}

/// Reads `n` bytes at `pos` as a big-endian number.
pub fn read_be(b: &[u8], pos: usize, n: usize) -> (r: u64)
    requires
        n <= 8,
        pos + n <= b@.len(),
    ensures
        r == be_int(b@.subrange(pos as int, pos + n)),
{
    let mut acc: u64 = 0;
    let mut i: usize = 0;
    let len: usize = b.len();
    while i < n
        invariant
            i <= n <= 8,
            len == b@.len(),
            pos + n <= len,
            acc == be_int(b@.subrange(pos as int, pos + i)),
        decreases n - i,
    {
        let ghost next = b@.subrange(pos as int, pos + i + 1);
        proof {
            assert(next.drop_last() =~= b@.subrange(pos as int, pos + i));
            lemma_be_bound(next);
            lemma_pow256();
            lemma_pow256_grows((i + 1) as nat, 8);
        }
        acc = acc * 256 + b[pos + i] as u64;
        i += 1;
    }
    acc
}

/// Reads `n` bytes at `pos` as a little-endian number.
pub fn read_le(b: &[u8], pos: usize, n: usize) -> (r: u64)
    requires
        n <= 8,
        pos + n <= b@.len(),
    ensures
        r == le_int(b@.subrange(pos as int, pos + n)),
{
    let mut acc: u64 = 0;
    let mut i: usize = n;
    let len: usize = b.len();
    while i > 0
        invariant
            i <= n <= 8,
            len == b@.len(),
            pos + n <= len,
            acc == le_int(b@.subrange(pos + i, pos + n)),
        decreases i,
    {
        i -= 1;
        let ghost next = b@.subrange(pos + i, pos + n);
        proof {
            assert(next.skip(1) =~= b@.subrange(pos + i + 1, pos + n));
            lemma_le_bound(next);
            lemma_pow256();
            lemma_pow256_grows((n - i) as nat, 8);
        }
        acc = acc * 256 + b[pos + i] as u64;
    }
    acc
}

/// Appends the bytes `b`.
pub fn push_all(out: &mut Vec<u8>, b: &[u8])
    ensures
        final(out)@ == old(out)@ + b@,
{
    let mut i: usize = 0;
    while i < b.len()
        invariant
            i <= b@.len(),
            out@ == old(out)@ + b@.take(i as int),
        decreases b.len() - i,
    {
        out.push(b[i]);
        i += 1;
        assert(out@ =~= old(out)@ + b@.take(i as int));
    }
    assert(b@.take(b@.len() as int) =~= b@);
}

/// A copy of the bytes from `from` up to `to`.
pub fn slice_of(b: &[u8], from: usize, to: usize) -> (r: Vec<u8>)
    requires
        from <= to <= b@.len(),
    ensures
        r@ == b@.subrange(from as int, to as int),
{
    let mut out: Vec<u8> = Vec::new();
    let mut i: usize = from;
    while i < to
        invariant
            from <= i <= to <= b@.len(),
            out@ == b@.subrange(from as int, i as int),
        decreases to - i,
    {
        out.push(b[i]);
        i += 1;
        assert(out@ =~= b@.subrange(from as int, i as int));
    }
    out
}

} // verus!
